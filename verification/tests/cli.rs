use passkey::cli::{
    asks_for_name, connection_table, default_name, device_name, dropin, failure_text, find_device,
    find_key, no_user, print_devices, privileged, read_choice, read_credential, registered_message,
    registration_arguments, registration_text, remove, removed_message, run, select_connection,
    status, virtual_device, Choice, Command, CredentialError, HELP, SEVERAL,
};
use passkey::registry::root_store;

fn strings(list: &[&str]) -> Vec<String> {
    list.iter().map(|text| text.to_string()).collect()
}

#[test]
fn commands_are_read() {
    let none = strings(&[]);
    let two = strings(&["one", "two"]);
    assert!(matches!(run("add", &none, false), Ok(Command::Add(None))));
    assert!(matches!(run("add", &two, false), Ok(Command::Add(Some(name))) if name == "one"));
    assert!(matches!(run("list", &none, false), Ok(Command::List)));
    assert!(matches!(run("remove", &two, false), Ok(Command::Remove(which)) if which == "one"));
    assert!(matches!(run("status", &none, false), Ok(Command::Status)));
    assert!(matches!(run("uninstall", &none, false), Ok(Command::Uninstall)));
    for help in ["help", "--help", "-h"] {
        assert!(matches!(run(help, &none, false), Ok(Command::Help)));
    }
    assert!(matches!(
        run("root-configure", &two, true),
        Ok(Command::RootConfigure(user)) if user == "one"
    ));
    assert!(matches!(run("root-use", &none, true), Ok(Command::RootUse(None, None))));
    assert!(matches!(
        run("root-use", &two, true),
        Ok(Command::RootUse(Some(device), Some(pid))) if device == "one" && pid == "two"
    ));
    assert!(matches!(run("root-store", &two, true), Ok(Command::RootStore(user)) if user == "one"));
    assert!(matches!(
        run("root-remove", &two, true),
        Ok(Command::RootRemove(user, handle)) if user == "one" && handle == "two"
    ));
    assert!(matches!(run("root-uninstall", &none, true), Ok(Command::RootUninstall)));
    assert!(HELP.starts_with("Usage: passkey <command>\n\nCommands:\n  add [name]\n"));
}

#[test]
fn refused_commands() {
    let none = strings(&[]);
    let one = strings(&["alice"]);
    let error = |command: &str, args: &Vec<String>, root: bool| run(command, args, root).unwrap_err();
    assert_eq!(error("remove", &none, true), "usage: passkey remove <number or name>");
    for command in ["root-configure", "root-use", "root-store", "root-remove", "root-uninstall"] {
        assert_eq!(error(command, &none, false), "this internal command must run as root");
    }
    assert_eq!(error("root-configure", &none, true), "missing user");
    assert_eq!(error("root-store", &none, true), "missing user");
    assert_eq!(error("root-remove", &none, true), "missing user");
    assert_eq!(error("root-remove", &one, true), "missing credential");
    assert_eq!(error("a\"b", &none, true), "unknown command \"a\\\"b\"; run `passkey help`");
    assert_eq!(error("Add", &none, true), "unknown command \"Add\"; run `passkey help`");
}

#[test]
fn offered_name_is_free() {
    assert_eq!(default_name(None, &strings(&[])), "Android device");
    assert_eq!(default_name(Some("  "), &strings(&[])), "Android device");
    assert_eq!(default_name(Some(" Pixel "), &strings(&["Other"])), "Pixel");
    assert_eq!(default_name(Some("Pixel"), &strings(&["Pixel"])), "Pixel 2");
    assert_eq!(
        default_name(Some("Pixel"), &strings(&["Pixel 2", "Pixel", "Pixel 3", "Pixel 5"])),
        "Pixel 4"
    );
    assert_eq!(default_name(None, &strings(&["Android device"])), "Android device 2");
}

#[test]
fn names_are_asked_for() {
    assert!(asks_for_name(None, true));
    assert!(asks_for_name(Some(" \t"), true));
    assert!(!asks_for_name(Some("x"), true));
    assert!(!asks_for_name(None, false));
}

#[test]
fn kept_name_can_be_stored() {
    let none = strings(&[]);
    assert_eq!(device_name(Some(" A\tb "), None, "d", &none), Ok("A b".to_string()));
    assert_eq!(device_name(None, Some("typed\n"), "d", &none), Ok("typed".to_string()));
    assert_eq!(device_name(Some(" "), Some("\n"), "d\rx", &none), Ok("d x".to_string()));
    assert_eq!(device_name(None, None, "d", &none), Ok("d".to_string()));
    assert_eq!(
        device_name(Some("A\nb"), None, "d", &strings(&["A b"])),
        Err("device name \"A b\" is already used".to_string())
    );
}

#[test]
fn credentials_have_a_form() {
    assert_eq!(read_credential(b" :h,k\n".to_vec()).unwrap(), ":h,k");
    assert!(matches!(read_credential(b"h,k".to_vec()), Err(CredentialError::Invalid)));
    assert!(matches!(read_credential(b":h".to_vec()), Err(CredentialError::Invalid)));
    assert!(matches!(read_credential(Vec::new()), Err(CredentialError::Invalid)));
    assert!(matches!(read_credential(vec![b':', 0xff, b',']), Err(CredentialError::NotText(_))));
    assert_eq!(failure_text(b" no \xff key\n"), "no \u{fffd} key");
}

#[test]
fn registration_is_read_back() {
    let text = registration_text(":h,k", "Pixel 8");
    assert_eq!(text, ":h,k\nPixel 8\n");
    let files = root_store(&text, "", "", "alice").unwrap();
    assert_eq!(files.keys, "alice:h,k\n");
    assert_eq!(files.names, "alice\th\tPixel 8\n");
    assert_eq!(
        registration_arguments("alice", "box"),
        ["-u", "alice", "-o", "pam://box", "-i", "pam://box", "-V", "-n"]
    );
    assert_eq!(registered_message("Pixel\t8"), "Done: \"Pixel\\t8\" is registered.");
}

#[test]
fn phones_are_found_by_number_and_name() {
    let names = strings(&["Pixel", "3", "Tablet", "Pixel"]);
    assert_eq!(find_device("1", &names), Ok(0));
    assert_eq!(find_device("Pixel", &names), Ok(0));
    assert_eq!(find_device("3", &names), Ok(1));
    assert_eq!(find_device("Tablet", &names), Ok(2));
    assert_eq!(find_device("4", &names), Ok(3));
    assert_eq!(find_device("01", &names), Err("no registered device \"01\"".to_string()));
    let found = remove("Tab", "a:h1,k:h2,k\n", "a\th2\tTab\n", "a").unwrap();
    assert_eq!((found.handle.as_str(), found.name.as_str()), ("h2", "Tab"));
    assert_eq!(
        remove("x", "a:h1,k\n", "", "a").unwrap_err(),
        "no registered device \"x\""
    );
    assert_eq!(removed_message("Tab"), "Removed \"Tab\".");
}

#[test]
fn registered_phones_are_listed() {
    assert_eq!(print_devices(&strings(&[])), "  No devices registered.\n");
    assert_eq!(print_devices(&strings(&["A", "B c"])), "  1  A\n  2  B c\n");
}

#[test]
fn status_is_told() {
    assert_eq!(
        status(true, Some("/dev/hidraw3"), &strings(&["sudo", "kde"])),
        "service: running\ndevice: /dev/hidraw3\nPAM: sudo\nPAM: kde\n"
    );
    assert_eq!(status(false, None, &strings(&[])), "service: not running\ndevice: not connected\n");
}

#[test]
fn virtual_key_is_found() {
    let list = "/dev/hidraw1: vendor=0x1050, product=0x0407 (Yubico)\n/dev/hidraw3: vendor=0x1209, product=0x7ab1 (passkey)\n/dev/hidraw4: vendor=0x1209, product=0x7ab1 (passkey)\n";
    assert_eq!(find_key(list), Some("/dev/hidraw3".to_string()));
    assert_eq!(find_key("nothing\n"), None);
    assert_eq!(find_key("vendor=0x1209, product=0x7ab1"), Some("vendor=0x1209, product=0x7ab1".to_string()));
    assert_eq!(virtual_device(list.as_bytes()), Some("/dev/hidraw3".to_string()));
    assert_eq!(
        virtual_device(b"\xff: vendor=0x1209, product=0x7ab1"),
        Some("\u{fffd}".to_string())
    );
}

#[test]
fn one_of_several_phones_is_chosen() {
    let pair = |id: &str, label: &str| (id.to_string(), label.to_string());
    let none = Vec::new();
    let one = vec![pair("A", "a")];
    let two = vec![pair("A", "a"), pair("B", "b b")];
    assert_eq!(select_connection(&none, false), Ok(Choice::Nobody));
    assert_eq!(select_connection(&one, false), Ok(Choice::Only));
    assert_eq!(select_connection(&two, true), Ok(Choice::Ask));
    assert_eq!(select_connection(&two, false), Err(SEVERAL));
    assert_eq!(SEVERAL, "several devices are connected; run in a terminal to choose one");
    assert_eq!(connection_table(&two), "Several devices are connected:\n  1  a\n  2  b b\n");
    assert_eq!(read_choice("1\n", 2), Some(0));
    assert_eq!(read_choice(" +2 ", 2), Some(1));
    assert_eq!(read_choice("0", 2), Some(0));
    assert_eq!(read_choice("3", 2), None);
    assert_eq!(read_choice("-1", 2), None);
    assert_eq!(read_choice("", 2), None);
    assert_eq!(read_choice("99999999999999999999", 2), None);
}

#[test]
fn root_is_asked_through_sudo() {
    let args = strings(&["root-use", "A"]);
    assert_eq!(privileged(true, "/usr/bin/passkey", &args), ["/usr/bin/passkey", "root-use", "A"]);
    assert_eq!(
        privileged(false, "/usr/bin/passkey", &args),
        ["sudo", "/usr/bin/passkey", "root-use", "A"]
    );
    assert_eq!(no_user(1000), "no user for uid 1000");
    assert_eq!(dropin("alice"), "[Service]\nEnvironment=PASSKEY_ADB_USER=alice\n");
}
