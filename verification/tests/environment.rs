use passkey::environment::{
    check_environment, configure, package, Environment, SetupStep, NO_PAM, NO_UHID,
};

fn complete() -> Environment {
    Environment {
        pam_d: true,
        modules: Some("/usr/lib/security".to_string()),
        pam_u2f: true,
        pam_passkey: true,
        pamu2fcfg: true,
        fido2_token: true,
        root: false,
        sudo: true,
        adb: true,
        bluetooth: true,
        systemd: true,
        user: "alice".to_string(),
        executable: "/usr/bin/passkey".to_string(),
        release: "ID=arch\n".to_string(),
    }
}

#[test]
fn packages_go_by_family() {
    let named = |release: &str| package(release, "a", "d", "f");
    assert_eq!(named("NAME=x\nID=arch\n"), "a");
    assert_eq!(named("ID=debian"), "d");
    assert_eq!(named("ID=pop\nID_LIKE=\"ubuntu debian\"\n"), "d");
    assert_eq!(named("ID=\"rocky\"\nID_LIKE=\"rhel centos fedora\"\n"), "f");
    assert_eq!(named("ID_LIKE=\"\"\"arch\"\n"), "a");
    assert_eq!(named("VERSION_ID=arch\n"), "a (Arch) / d (Debian) / f (Fedora)");
    assert_eq!(named(""), "a (Arch) / d (Debian) / f (Fedora)");
}

#[test]
fn nothing_is_missing() {
    let report = check_environment(&complete());
    assert_eq!(report.refusal, None);
    assert!(report.warnings.is_empty());
}

#[test]
fn systems_without_pam_are_refused() {
    let without = Environment { pam_d: false, adb: false, ..complete() };
    let report = check_environment(&without);
    assert_eq!(report.refusal.as_deref(), Some(NO_PAM));
    assert!(report.warnings.is_empty());
    let without = Environment { modules: None, ..complete() };
    assert_eq!(
        check_environment(&without).refusal.as_deref(),
        Some("this system does not use Linux-PAM")
    );
}

#[test]
fn missing_packages_are_named() {
    let bare = Environment {
        pam_u2f: false,
        pam_passkey: false,
        pamu2fcfg: false,
        fido2_token: false,
        sudo: false,
        release: "ID=debian\n".to_string(),
        ..complete()
    };
    assert_eq!(
        check_environment(&bare).refusal.as_deref(),
        Some("missing, please install:\n  pam_u2f.so: libpam-u2f\n  pam_passkey.so is not in /usr/lib/security (install passkey with PAMDIR=/usr/lib/security)\n  pamu2fcfg: pamu2fcfg\n  fido2-token: fido2-tools\n  sudo (or run passkey as root)")
    );
    let root = Environment { root: true, sudo: false, ..complete() };
    assert_eq!(check_environment(&root).refusal, None);
}

#[test]
fn missing_ways_only_warn() {
    let usb = Environment { bluetooth: false, ..complete() };
    let report = check_environment(&usb);
    assert_eq!(report.refusal, None);
    assert_eq!(report.warnings, ["Bluetooth off: BlueZ is not running (bluez)"]);
    let bluetooth = Environment { adb: false, ..complete() };
    let report = check_environment(&bluetooth);
    assert_eq!(report.refusal, None);
    assert_eq!(report.warnings, ["USB off: adb is missing (android-tools)"]);
    let neither = Environment { adb: false, bluetooth: false, systemd: false, ..complete() };
    let report = check_environment(&neither);
    assert_eq!(report.refusal, None);
    assert_eq!(report.warnings.len(), 3);
    assert_eq!(report.warnings[0], "USB off: adb is missing (android-tools)");
    assert_eq!(report.warnings[1], "Bluetooth off: BlueZ is not running (bluez)");
    assert_eq!(
        report.warnings[2],
        "systemd is not running, so the service is not set up. Start it as root at boot with your init system:\n    PASSKEY_ADB_USER=alice /usr/bin/passkey daemon"
    );
}

#[test]
fn setup_goes_step_by_step() {
    assert_eq!(configure(false, true, false), SetupStep::NoPam);
    assert_eq!(configure(true, true, false), SetupStep::Install);
    assert_eq!(configure(true, false, false), SetupStep::LoadUhid);
    assert_eq!(configure(true, false, true), SetupStep::NoUhid);
    assert_eq!(NO_UHID, "/dev/uhid is unavailable; the kernel needs CONFIG_UHID");
}
