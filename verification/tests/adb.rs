use passkey::adb::{
    adb_device_id, adb_devices, adb_peer_trusted, adb_request, adb_server_trusted, adb_setting,
    adb_start_server, adb_status, allowed_adb_uids, answer_length, device_id, endpoint,
    is_bt_address, proc_tcp, ready_devices, setting_service, socket_service, transport_service,
    usb_name, Tried, UsbState, UsbStep,
};

#[test]
fn validates_bluetooth_addresses() {
    assert!(is_bt_address("AA:BB:CC:DD:EE:FF"));
    assert!(!is_bt_address("usb:serial"));
}

#[test]
fn addresses_have_six_octets() {
    assert!(is_bt_address("00:1a:7D:da:71:13"));
    assert!(!is_bt_address("00:1a:7D:da:71"));
    assert!(!is_bt_address("00:1a:7D:da:71:13:00"));
    assert!(!is_bt_address("00:1a:7D:da:71:1g"));
    assert!(!is_bt_address("00:1a:7D:da:71:\u{e9}"));
    assert!(!is_bt_address("00:1a:7D:da:71:1"));
    assert!(!is_bt_address(""));
}

#[test]
fn usb_names_are_no_addresses() {
    assert_eq!(usb_name("R58M"), "usb:R58M");
    for serial in ["R58M", "AA:BB:CC:DD:EE", "AA:BB:CC:DD:EE:FF"] {
        assert!(!is_bt_address(&usb_name(serial)));
    }
}

#[test]
fn requests_carry_their_length() {
    assert_eq!(adb_request("host:devices"), "000chost:devices");
    assert_eq!(adb_request(""), "0000");
    assert_eq!(adb_request("\u{e9}"), "0002\u{e9}");
    assert_eq!(&adb_request(&"x".repeat(0x1234))[..4], "1234");
    assert_eq!(&adb_request(&"x".repeat(0x12345))[..5], "12345");
}

#[test]
fn length_is_read_back() {
    for length in [0_usize, 9, 12, 255, 4096, 65535] {
        let request = adb_request(&"x".repeat(length));
        assert_eq!(answer_length(&request.as_bytes()[..4]), length);
    }
    assert_eq!(answer_length(b"00FF"), 255);
    assert_eq!(answer_length(b"+0ff"), 255);
    assert_eq!(answer_length(b"00g1"), 0);
    assert_eq!(answer_length(b"-001"), 0);
    assert_eq!(answer_length(&[0xc3, 0xa9, b'0', b'1']), 0);
    assert_eq!(answer_length(&[0xff; 4]), 0);
}

#[test]
fn requests_are_granted_or_rejected() {
    assert_eq!(adb_status(b"OKAY", "host:devices"), Ok(()));
    assert_eq!(
        adb_status(b"FAIL", "host:devices"),
        Err("adb rejected host:devices".to_string())
    );
    assert!(adb_status(b"OKAYX", "s").is_err());
}

#[test]
fn services_are_named() {
    assert_eq!(transport_service("R58M"), "host:transport:R58M");
    assert_eq!(socket_service("passkey"), "localabstract:passkey");
    assert_eq!(
        setting_service("global device_name"),
        "shell:settings get global device_name"
    );
}

#[test]
fn ready_devices_are_listed() {
    let text = "R58M\tdevice\nABC\tunauthorized\nemulator-5554\tdevice\r\n\tdevice\nXdevice\n";
    assert_eq!(ready_devices(text), ["R58M", "emulator-5554", ""]);
    assert_eq!(adb_devices(text.as_bytes()), ["R58M", "emulator-5554", ""]);
    assert_eq!(adb_devices(b"R\xff8M\tdevice\n"), ["R\u{fffd}8M"]);
    assert!(adb_devices(b"").is_empty());
}

#[test]
fn settings_that_are_not_set_are_empty() {
    assert_eq!(adb_setting("  Pixel 8\r\n"), "Pixel 8");
    assert_eq!(adb_setting("null\n"), "");
    assert_eq!(adb_setting("\n"), "");
    assert_eq!(adb_setting("nulls"), "nulls");
}

#[test]
fn phones_are_known_by_their_address() {
    assert_eq!(adb_device_id("aa:bb:cc:dd:ee:0f", "R58M"), "AA:BB:CC:DD:EE:0F");
    assert_eq!(adb_device_id("", "R58M"), "usb:R58M");
    assert_eq!(adb_device_id("02:00", "R58M"), "usb:R58M");
    assert_eq!(device_id("aa:bb:cc:dd:ee:0f", "R58M"), "aa:bb:cc:dd:ee:0f");
}

const TABLE: &str = "  sl  local_address rem_address   st tx_queue rx_queue tr tm->when retrnsmt   uid  timeout inode
   0: 0100007F:13AD 00000000:0000 0A 00000000:00000000 00:00000000 00000000  1000        0 25000 1
   1: 0100007F:13AD 0100007F:9C40 01 00000000:00000000 00:00000000 00000000  1000        0 25001 1
   2: 0100007F:13AD 0100007F:9C41 01 00000000:00000000 00:00000000 00000000  +7        0 25001 1
   3: short line
   4: 0100007F:13AD 0100007F:9C42 01 00000000:00000000 00:00000000 00000000  4294967296        0 25001 1
";

#[test]
fn rows_of_the_table() {
    let rows = proc_tcp(TABLE);
    assert_eq!(rows.len(), 3);
    assert_eq!(rows[0].local, "0100007F:13AD");
    assert_eq!(rows[0].remote, "00000000:0000");
    assert_eq!(rows[0].state, "0A");
    assert_eq!(rows[0].uid, 1000);
    assert_eq!(rows[2].uid, 7);
    assert!(proc_tcp("").is_empty());
    assert!(proc_tcp("only the head").is_empty());
}

#[test]
fn servers_of_known_users_are_trusted() {
    let rows = proc_tcp(TABLE);
    assert!(adb_server_trusted(&rows, &vec![0, 1000]));
    assert!(!adb_server_trusted(&rows, &vec![0, 7]));
    let other = proc_tcp("head\n 0: 00000000:13AD 0 0A 4 5 6 0\n 0: 0100007F:13AE 0 0A 4 5 6 5\n");
    assert!(adb_server_trusted(&other, &vec![0]));
    assert!(!adb_server_trusted(&other, &vec![5]));
    let closed = proc_tcp("head\n 0: 00000000:13AD 0 01 4 5 6 0\n");
    assert!(!adb_server_trusted(&closed, &vec![0]));
}

#[test]
fn peers_of_known_users_are_trusted() {
    let ours = endpoint(&[127, 0, 0, 1], 40000);
    assert_eq!(ours, "0100007F:9C40");
    assert_eq!(endpoint(&[1, 2, 3, 4], 10), "04030201:000A");
    let rows = proc_tcp(TABLE);
    assert!(adb_peer_trusted(&rows, &ours, &vec![1000]));
    assert!(!adb_peer_trusted(&rows, &ours, &vec![0]));
    assert!(!adb_peer_trusted(&rows, "0100007F:0001", &vec![1000]));
}

#[test]
fn allowed_users() {
    let allowed = allowed_adb_uids(5, Some(1000));
    for uid in [0, 5, 1000] {
        assert!(allowed.contains(&uid));
    }
    assert!(!allowed.contains(&1));
    assert!(!allowed_adb_uids(5, None).contains(&1000));
}

#[test]
fn server_is_started_as_the_user() {
    assert_eq!(
        adb_start_server(0, Some("alice")),
        ["runuser", "-u", "alice", "--", "adb", "start-server"]
    );
    assert_eq!(adb_start_server(0, Some("")), ["adb", "start-server"]);
    assert_eq!(adb_start_server(0, None), ["adb", "start-server"]);
    assert_eq!(adb_start_server(1000, Some("alice")), ["adb", "start-server"]);
}

#[test]
fn server_is_started_now_and_then() {
    let mut usb = UsbState::new();
    assert_eq!(usb.wake(5, false), UsbStep::Start);
    assert_eq!(usb.wake(60_005, false), UsbStep::Wait);
    assert_eq!(usb.wake(60_006, true), UsbStep::List);
    assert_eq!(usb.wake(60_006, false), UsbStep::Start);
}

#[test]
fn failed_phone_is_tried_later() {
    let mut usb = UsbState::new();
    let none: Vec<String> = Vec::new();
    assert!(usb.wants("a", &none, 0));
    usb.tried("a", Tried::Failed, 100);
    assert!(!usb.wants("a", &none, 10_099));
    assert!(usb.wants("a", &none, 10_100));
    assert!(usb.wants("b", &none, 100));
    usb.tried("a", Tried::Failed, 20_000);
    assert!(!usb.wants("a", &none, 29_999));
    usb.tried("a", Tried::Dropped, 20_000);
    assert!(!usb.wants("a", &none, 29_999));
    usb.tried("a", Tried::Linked, 20_000);
    assert!(usb.wants("a", &none, 20_000));
    assert!(!usb.wants("a", &vec!["usb:a".to_string()], 90_000));
    assert!(usb.wants("a", &vec!["bt:a".to_string()], 90_000));
}
