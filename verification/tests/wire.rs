use passkey::wire::{
    cancel_message, decode_response, frame, frame_length, is_pong_frame, ping_message, read_message,
    request_message, Message, CANCEL, PING, PONG, REQ, RESP,
};

#[test]
fn exchanges_android_wire_frames() {
    const GET_INFO: u8 = 0x04;
    assert_eq!(
        frame(&[REQ, 0, 0, 0, 7, GET_INFO]),
        [0, 0, 0, 6, REQ, 0, 0, 0, 7, GET_INFO]
    );
    assert_eq!(decode_response(&[RESP, 0, 0, 0, 7, 0]), Some((7, &[0][..])));
    assert_eq!(decode_response(&[RESP, 0]), None);
}

#[test]
fn responses_begin_with_their_kind() {
    assert_eq!(decode_response(&[REQ, 0, 0, 0, 7, 0]), None);
    assert_eq!(decode_response(&[]), None);
    assert_eq!(decode_response(&[RESP, 1, 2, 3, 4]), Some((0x01020304, &[][..])));
}

#[test]
fn frame_is_read_back() {
    for length in [1_usize, 5, 255, 256, 8192] {
        let body = vec![7; length];
        let framed = frame(&body);
        assert_eq!(frame_length(&framed[..4]), Ok(length));
        assert_eq!(&framed[4..], &body);
    }
    assert_eq!(frame_length(&[0, 0, 0, 0]), Err("frame length 0".to_string()));
    assert_eq!(frame_length(&[0, 0, 0x20, 1]), Err("frame length 8193".to_string()));
    assert_eq!(frame_length(&[255; 4]), Err("frame length 4294967295".to_string()));
}

#[test]
fn number_is_read_back() {
    assert_eq!(request_message(0x01020304, &[9]), [REQ, 1, 2, 3, 4, 9]);
    assert_eq!(cancel_message(7), [CANCEL, 0, 0, 0, 7]);
    let mut answer = request_message(0x01020304, &[0, 5]);
    answer[0] = RESP;
    assert_eq!(read_message(&answer), Message::Response(0x01020304, vec![0, 5]));
}

#[test]
fn phones_answer_pings() {
    assert_eq!(ping_message(), [PING]);
    assert_eq!(read_message(&[PONG]), Message::Pong);
    assert_eq!(read_message(&[PONG, 1]), Message::Pong);
    assert_eq!(read_message(&[RESP, 0, 0, 0]), Message::Other);
    assert_eq!(read_message(&[REQ, 0, 0, 0, 0, 0]), Message::Other);
    assert!(is_pong_frame(&[0, 0, 0, 1, PONG]));
    assert!(!is_pong_frame(&[0, 0, 0, 1, PING]));
    assert!(!is_pong_frame(&[0, 0, 0, 1]));
}
