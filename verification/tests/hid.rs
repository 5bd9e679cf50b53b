use passkey::hid::{
    reply, Action, HidState, Request, BROADCAST, CANCEL_CMD, CBOR, ERROR, ERR_CHANNEL_BUSY,
    ERR_INVALID_CHANNEL, ERR_INVALID_CMD, ERR_INVALID_LEN, ERR_INVALID_SEQ, INIT, PING_CMD, WINK,
};

fn error(channel: u32, code: u8) -> Vec<Action> {
    vec![Action::Reply { channel, command: ERROR, data: vec![code] }]
}

fn send(state: &mut HidState, channel: u32, command: u8, data: &[u8]) -> Vec<Action> {
    let mut actions = Vec::new();
    for packet in reply(channel, command, data) {
        assert!(actions.is_empty());
        let mut report = packet.clone();
        report.resize(64, 0);
        actions = state.packet(&report, true);
    }
    actions
}

#[test]
fn messages_are_cut_into_packets() {
    let data: Vec<u8> = (0..120).collect();
    let packets = reply(0x01020304, CBOR, &data);
    assert_eq!(packets.len(), 3);
    assert_eq!(&packets[0][..7], &[1, 2, 3, 4, CBOR, 0, 120]);
    assert_eq!(&packets[0][7..], &data[..57]);
    assert_eq!(&packets[1][..5], &[1, 2, 3, 4, 0]);
    assert_eq!(&packets[1][5..], &data[57..116]);
    assert_eq!(packets[2], [1, 2, 3, 4, 1, 116, 117, 118, 119]);
    assert_eq!(reply(1, WINK, &[]), [[0, 0, 0, 1, WINK, 0, 0]]);
    assert_eq!(reply(1, CBOR, &[0; 57]).len(), 1);
    assert_eq!(reply(1, CBOR, &[0; 58]).len(), 2);
}

#[test]
fn message_is_put_together_again() {
    let mut state = HidState::new(1);
    for length in [1_usize, 57, 58, 116, 117, 300, 7609] {
        let data: Vec<u8> = (0..length).map(|i| (i % 251) as u8).collect();
        let actions = send(&mut state, 5, PING_CMD, &data);
        assert_eq!(actions, [Action::Reply { channel: 5, command: PING_CMD, data }]);
    }
}

#[test]
fn nothing_happens_before_the_last_packet() {
    let mut state = HidState::new(1);
    let packets = reply(5, CBOR, &[4; 200]);
    assert_eq!(packets.len(), 4);
    for packet in &packets[..3] {
        assert!(state.packet(packet, true).is_empty());
    }
    assert_eq!(
        state.packet(&packets[3], true),
        [Action::Start { request: Request { channel: 5, number: 1 }, data: vec![4; 200] }]
    );
    // An opening withdraws the request at once.
    let packets = reply(5, INIT, &[0; 150]);
    assert_eq!(state.packet(&packets[0], true), [Action::Withdraw { number: 1 }]);
    assert!(state.packet(&packets[1], true).is_empty());
    assert_eq!(state.packet(&packets[2], true), error(5, ERR_INVALID_LEN));
}

#[test]
fn channels_are_opened() {
    let mut state = HidState::new(0xffff_fffe);
    let nonce = [1, 2, 3, 4, 5, 6, 7, 8];
    let opened = |channel: u32, assigned: u32| {
        let mut data = nonce.to_vec();
        data.extend_from_slice(&assigned.to_be_bytes());
        data.extend_from_slice(&[2, 1, 0, 0, 0x0d]);
        vec![Action::Reply { channel, command: INIT, data }]
    };
    assert_eq!(send(&mut state, BROADCAST, INIT, &nonce), opened(BROADCAST, 0xffff_fffe));
    assert_eq!(send(&mut state, BROADCAST, INIT, &nonce), opened(BROADCAST, 1));
    assert_eq!(send(&mut state, 9, INIT, &nonce), opened(9, 9));
    assert_eq!(send(&mut state, 9, INIT, &nonce[..7]), error(9, ERR_INVALID_LEN));
    assert_eq!(HidState::new(0).next_channel, 1);
}

#[test]
fn wrong_messages_are_refused() {
    let mut state = HidState::new(1);
    assert_eq!(send(&mut state, 0, PING_CMD, &[1]), error(0, ERR_INVALID_CHANNEL));
    assert_eq!(send(&mut state, BROADCAST, CBOR, &[1]), error(BROADCAST, ERR_INVALID_CHANNEL));
    assert_eq!(send(&mut state, 5, 0x83, &[1]), error(5, ERR_INVALID_CMD));
    assert_eq!(
        send(&mut state, 5, WINK, &[]),
        [Action::Reply { channel: 5, command: WINK, data: Vec::new() }]
    );
    let mut long = vec![0, 0, 0, 5, CBOR, 0x1d, 0xba];
    long.resize(64, 0);
    assert_eq!(state.packet(&long, true), error(5, ERR_INVALID_LEN));
    assert!(state.packet(&[0, 0, 0, 5], true).is_empty());
    assert!(state.packet(&[0, 0, 0, 5, CBOR, 0], true).is_empty());
    assert!(state.packet(&[0, 0, 0, 5, 0, 1], true).is_empty());
    let failed = vec![Action::Reply { channel: 5, command: CBOR, data: vec![0x7f] }];
    assert_eq!(send(&mut state, 5, CBOR, &[]), failed);
    assert_eq!(state.packet(&[0, 0, 0, 5, CBOR, 0, 1, 4], false), failed);
}

#[test]
fn packets_come_in_order() {
    let mut state = HidState::new(1);
    let packets = reply(5, PING_CMD, &[7; 200]);
    assert!(state.packet(&packets[0], true).is_empty());
    assert_eq!(state.packet(&packets[2], true), error(5, ERR_INVALID_SEQ));
    assert!(state.packet(&packets[1], true).is_empty());
}

#[test]
fn one_request_at_a_time() {
    let mut state = HidState::new(1);
    let request = Request { channel: 5, number: 1 };
    assert_eq!(
        send(&mut state, 5, CBOR, &[4]),
        [Action::Start { request, data: vec![4] }]
    );
    assert!(state.request_is_current(1));
    assert!(!state.request_is_current(2));
    assert_eq!(send(&mut state, 6, CBOR, &[4]), error(6, ERR_CHANNEL_BUSY));
    assert_eq!(send(&mut state, 6, PING_CMD, &[4]), error(6, ERR_CHANNEL_BUSY));
    assert_eq!(send(&mut state, 5, CBOR, &[4]), error(5, ERR_CHANNEL_BUSY));
    state.finish_request(9);
    assert!(state.request_is_current(1));
    state.finish_request(1);
    assert!(!state.request_is_current(1));
    assert_eq!(
        send(&mut state, 6, CBOR, &[4]),
        [Action::Start { request: Request { channel: 6, number: 3 }, data: vec![4] }]
    );
}

#[test]
fn requests_are_withdrawn() {
    let mut state = HidState::new(1);
    send(&mut state, 5, CBOR, &[4]);
    assert!(send(&mut state, 6, CANCEL_CMD, &[]).is_empty());
    assert_eq!(send(&mut state, 5, CANCEL_CMD, &[]), [Action::Withdraw { number: 1 }]);
    assert!(state.request_is_current(1));
    assert_eq!(state.cancel(None, false), [Action::Withdraw { number: 1 }]);
    assert!(state.request_is_current(1));
    let actions = send(&mut state, 5, INIT, &[0; 8]);
    assert_eq!(actions[0], Action::Withdraw { number: 1 });
    assert_eq!(actions.len(), 2);
    assert!(!state.request_is_current(1));
    assert!(state.cancel(None, false).is_empty());
}
