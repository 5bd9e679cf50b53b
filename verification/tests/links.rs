use passkey::links::{
    by_device, chosen_device, connected_devices, link_label, publish, root_use, Link,
};

fn link(device: &str, label: &str, priority: u8, alive: bool) -> Link {
    Link {
        device: device.to_string(),
        label: label.to_string(),
        priority,
        alive,
    }
}

#[test]
fn labels_are_one_line() {
    assert_eq!(link_label("  My\tphone \n 2\u{a0}x "), "My phone 2 x");
    assert_eq!(link_label(" \n"), "");
}

#[test]
fn every_phone_is_selected_once() {
    let links = vec![
        link("A", "a bt", 1, true),
        link("B", "b bt", 1, true),
        link("A", "a usb", 0, true),
        link("C", "c gone", 0, false),
        link("B", "b again", 1, true),
    ];
    assert_eq!(by_device(&links), [2, 1]);
    assert!(by_device(&Vec::new()).is_empty());
}

#[test]
fn lower_priority_is_used() {
    let mut links = vec![link("A", "bt", 1, true), link("A", "usb", 0, true)];
    assert_eq!(by_device(&links), [1]);
    links[1].alive = false;
    assert_eq!(by_device(&links), [0]);
}

#[test]
fn published_phones_are_read_back() {
    let links = vec![
        link("B", "Tablet", 1, true),
        link("usb:1", "", 0, true),
        link("A", "My phone", 0, true),
    ];
    let text = publish(&links);
    assert_eq!(text, "usb:1\t\nA\tMy phone\nB\tTablet\n");
    assert_eq!(
        connected_devices(&text),
        [
            ("usb:1".to_string(), String::new()),
            ("A".to_string(), "My phone".to_string()),
            ("B".to_string(), "Tablet".to_string()),
        ]
    );
}

#[test]
fn lines_without_a_tab_name_themselves() {
    assert_eq!(
        connected_devices("A\n\n\tlabel\nB\tb\tc"),
        [
            ("A".to_string(), "A".to_string()),
            ("B".to_string(), "b\tc".to_string()),
        ]
    );
}

#[test]
fn chosen_phone_is_read_back() {
    let note = root_use(Some("AA:BB"), Some("4711")).unwrap().unwrap();
    assert_eq!(note, "AA:BB 4711\n");
    assert_eq!(chosen_device(&note), Some(("AA:BB".to_string(), 4711)));
    assert_eq!(root_use(None, Some("1")), Ok(None));
    assert_eq!(root_use(Some("A"), None), Err("missing owner pid"));
    assert_eq!(chosen_device("A"), None);
    assert_eq!(chosen_device(""), None);
    assert_eq!(chosen_device("A x"), None);
    assert_eq!(chosen_device("A 4294967296"), None);
    assert_eq!(chosen_device(" A\t+5 more"), Some(("A".to_string(), 5)));
}
