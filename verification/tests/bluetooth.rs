use passkey::adb::device_id;
use passkey::bluetooth::{bluetooth_address, bluetooth_name, ends_with_path, path_address};

#[test]
fn address_is_in_the_path() {
    assert_eq!(
        path_address("/org/bluez/hci0/dev_AA_BB_CC_DD_EE_FF"),
        Some("AA:BB:CC:DD:EE:FF".to_string())
    );
    assert_eq!(path_address("/dev_x/dev_A_B"), Some("A:B".to_string()));
    assert_eq!(path_address("/org/bluez/hci0"), None);
    assert_eq!(path_address("dev_"), Some(String::new()));
    assert_eq!(bluetooth_address("/org/bluez/hci0"), "/org/bluez/hci0");
}

#[test]
fn both_ways_name_one_phone() {
    let address = bluetooth_address("/org/bluez/hci0/dev_AA_BB_CC_DD_EE_FF");
    assert_eq!(device_id(&address, "R58M"), address);
}

#[test]
fn links_end_with_their_phone() {
    let name = bluetooth_name("AA:BB:CC:DD:EE:FF");
    assert_eq!(name, "bt:AA:BB:CC:DD:EE:FF");
    assert!(ends_with_path(&name, "/org/bluez/hci0/dev_AA_BB_CC_DD_EE_FF"));
    assert!(!ends_with_path(&name, "/org/bluez/hci0/dev_AA_BB_CC_DD_EE_00"));
    assert!(!ends_with_path("bt:/x", "/x"));
}
