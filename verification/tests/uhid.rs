use passkey::uhid::{
    create_event, destroy_event, input_event, read_event, Change, Event, Presence, UHID_EVENT_SIZE,
};

#[test]
fn creation_fields() {
    let event = create_event();
    assert_eq!(event.len(), UHID_EVENT_SIZE);
    assert_eq!(event[..4], 11_u32.to_le_bytes());
    assert_eq!(&event[4..12], b"passkey\0");
    assert_eq!(event[260..262], 34_u16.to_le_bytes());
    assert_eq!(event[262..264], 3_u16.to_le_bytes());
    assert_eq!(event[264..268], 0x1209_u32.to_le_bytes());
    assert_eq!(event[268..272], 0x7ab1_u32.to_le_bytes());
    assert_eq!(event[272..276], 1_u32.to_le_bytes());
    assert_eq!(event[280..284], [0x06, 0xd0, 0xf1, 0x09]);
    assert_eq!(event[312..316], [0x02, 0xc0, 0, 0]);
    let gone = destroy_event();
    assert_eq!(gone.len(), UHID_EVENT_SIZE);
    assert_eq!(gone[0], 1);
    assert!(gone[1..].iter().all(|byte| *byte == 0));
}

#[test]
fn reports_are_sent() {
    let event = input_event(&[9; 10]);
    assert_eq!(event.len(), UHID_EVENT_SIZE);
    assert_eq!(event[..4], 12_u32.to_le_bytes());
    assert_eq!(event[4..6], 64_u16.to_le_bytes());
    assert_eq!(event[6..17], [9, 9, 9, 9, 9, 9, 9, 9, 9, 9, 0]);
    let long = input_event(&[9; 80]);
    assert_eq!(long[69], 9);
    assert_eq!(long[70], 0);
}

fn output(report: &[u8], count: u16) -> Vec<u8> {
    let mut event = vec![0; 4103];
    event[0] = 6;
    event[4..4 + report.len()].copy_from_slice(report);
    event[4100..4102].copy_from_slice(&count.to_le_bytes());
    event
}

#[test]
fn reports_travel_whole() {
    let report: Vec<u8> = (1..=64).collect();
    let mut numbered = vec![0];
    numbered.extend_from_slice(&report);
    assert_eq!(read_event(&output(&report, 64)), Event::Packet(report.clone()));
    assert_eq!(read_event(&output(&numbered, 65)), Event::Packet(report.clone()));
    assert_eq!(read_event(&output(&report, 5)), Event::Packet(report[..5].to_vec()));
    assert_eq!(read_event(&output(&[7; 100], 100)), Event::Packet(vec![7; 64]));
    assert_eq!(read_event(&output(&[7; 100], 65535)), Event::Packet(vec![7; 64]));
    assert_eq!(read_event(&output(&report, 64)[..4101]), Event::Other);
}

#[test]
fn other_events() {
    assert_eq!(read_event(&[5, 0, 0, 0]), Event::Close);
    assert_eq!(read_event(&[5, 0, 0]), Event::Other);
    assert_eq!(read_event(&[2, 0, 0, 0]), Event::Other);
    assert_eq!(read_event(&[9, 0, 0, 0, 1, 2, 3]), Event::Other);
    for (kind, answer) in [(9, 10), (13, 14)] {
        let Event::Answer(event) = read_event(&[kind, 0, 0, 0, 1, 2, 3, 4]) else {
            panic!("no answer");
        };
        assert_eq!(event.len(), UHID_EVENT_SIZE);
        assert_eq!(event[..10], [answer, 0, 0, 0, 1, 2, 3, 4, 5, 0]);
        assert!(event[10..].iter().all(|byte| *byte == 0));
    }
}

#[test]
fn device_is_there_while_a_phone_is() {
    let mut presence = Presence::new();
    assert_eq!(presence.change(false), Change::Keep);
    assert_eq!(presence.change(true), Change::Create);
    let first = presence.created();
    assert_eq!(presence.change(true), Change::Keep);
    assert_eq!(presence.change(false), Change::Destroy);
    presence.destroyed();
    let second = presence.created();
    assert_eq!((first, second), (1, 2));
    assert!(!presence.ended(first));
    assert!(presence.is_current(second));
    assert!(presence.ended(second));
    assert!(!presence.is_current(second));
}
