use passkey::pam_config::{
    has_our_line, is_auth, is_guard, is_ours, on_empty_services, pam_add, pam_line, pam_module_dir,
    pam_module_dirs, pam_removal, pam_remove, parallel_services, unix_takes_password, Removal, MARK,
};

#[test]
fn recognizes_only_our_pam_lines() {
    assert!(is_ours(MARK));
    assert!(is_ours(
        "-auth sufficient pam_passkey.so authfile=/etc/passkey/u2f_keys nouserok"
    ));
    assert!(!is_ours("auth required pam_unix.so"));
}

#[test]
fn our_lines_name_our_file() {
    assert!(is_ours("auth sufficient pam_u2f.so authfile=/etc/passkey/u2f_keys"));
    assert!(!is_ours("auth sufficient pam_u2f.so authfile=/etc/u2f"));
    assert!(!is_ours("auth sufficient pam_x.so authfile=/etc/passkey/u2f_keys"));
}

#[test]
fn auth_lines() {
    for line in ["auth", "auth x", "-auth\tx", "  auth required", "\t-auth y"] {
        assert!(is_auth(line), "{line:?}");
    }
    for line in ["", "-", "--auth x", "authx", "account auth", "# auth"] {
        assert!(!is_auth(line), "{line:?}");
    }
}

#[test]
fn guard_lines() {
    for module in ["pam_nologin.so", "pam_securetty.so", "pam_shells.so", "pam_rootok.so"] {
        assert!(is_guard(&format!("auth required {module}")));
    }
    assert!(is_guard("auth required pam_faillock.so preauth"));
    assert!(!is_guard("auth required pam_faillock.so authfail"));
    assert!(!is_guard("auth required pam_unix.so"));
}

#[test]
fn lines_for_services() {
    let u2f = "authfile=/etc/passkey/u2f_keys origin=pam://box appid=pam://box userverification=1 nouserok";
    assert_eq!(
        pam_line("sudo", "box", true, true),
        format!("-auth      sufficient   pam_passkey.so mode=parallel {u2f}")
    );
    assert_eq!(
        pam_line("sddm", "box", true, true),
        format!("-auth      sufficient   pam_passkey.so mode=on-empty {u2f}")
    );
    for (module, taken) in [(false, true), (true, false), (false, false)] {
        assert_eq!(
            pam_line("sudo", "box", module, taken),
            format!("-auth      sufficient   pam_u2f.so {u2f} cue [cue_prompt=Confirm with your fingerprint on your device, or reject there to type your password]")
        );
    }
    assert_eq!(parallel_services(), ["sudo", "sudo-i", "su", "login", "polkit-1"]);
    assert_eq!(
        on_empty_services(),
        ["kde", "plasmalogin", "sddm", "gdm-password", "lightdm"]
    );
    for service in parallel_services() {
        assert!(is_ours(&pam_line(service, "box", true, true)));
        assert!(is_ours(&pam_line(service, "box", false, true)));
    }
}

#[test]
fn password_is_taken() {
    let texts = |text: &str| vec!["nothing\n".to_string(), text.to_string()];
    assert!(unix_takes_password(&texts("auth required pam_unix.so try_first_pass\n")));
    assert!(unix_takes_password(&texts("auth required pam_unix.so use_first_pass\n")));
    assert!(!unix_takes_password(&texts(" # auth required pam_unix.so try_first_pass\n")));
    assert!(!unix_takes_password(&texts("auth required pam_unix.so nullok\n")));
    assert!(!unix_takes_password(&texts("auth required pam_x.so try_first_pass\n")));
}

#[test]
fn modules_are_where_pam_unix_is() {
    let mut found = vec![false; 8];
    assert_eq!(pam_module_dir(&found), None);
    found[4] = true;
    found[6] = true;
    assert_eq!(pam_module_dir(&found), Some("/usr/lib/x86_64-linux-gnu/security"));
    assert_eq!(pam_module_dirs().len(), 8);
    found[0] = true;
    assert_eq!(pam_module_dir(&found), Some("/usr/lib/security"));
}

const INPUT: &str = "#%PAM-1.0\nauth required pam_nologin.so\nauth include system-auth\naccount include system-auth\n";

#[test]
fn line_is_added_before_the_first_that_asks() {
    let wanted = pam_line("sudo", "box", true, true);
    let output = pam_add(INPUT, &wanted).unwrap();
    assert_eq!(
        output,
        format!("#%PAM-1.0\nauth required pam_nologin.so\n{MARK}\n{wanted}\nauth include system-auth\naccount include system-auth\n")
    );
    assert!(has_our_line(&output));
    assert_eq!(pam_add("account required x\n", &wanted), None);
    assert_eq!(pam_add("", &wanted), None);
}

#[test]
fn adding_twice_is_adding_once() {
    let wanted = pam_line("sudo", "box", true, true);
    let output = pam_add(INPUT, &wanted).unwrap();
    assert_eq!(pam_add(&output, &wanted), None);
    let other = pam_line("sudo", "box", false, true);
    let changed = pam_add(&output, &other).unwrap();
    assert_eq!(changed, output.replace(&wanted, &other));
}

#[test]
fn carriage_returns_do_not_make_it_added_twice() {
    let wanted = pam_line("sudo", "box", true, true);
    let input = format!("account x\r\r\n{wanted} old\r\r\nauth include system-auth\r\r\n");
    let output = pam_add(&input, &wanted).unwrap();
    assert_eq!(output, format!("account x\r\n{wanted}\nauth include system-auth\r\n"));
    assert_eq!(pam_add(&output, &wanted), None);
    assert_eq!(
        pam_remove(&output).as_deref(),
        Some("account x\nauth include system-auth\n")
    );
}

#[test]
fn mark_is_kept_once() {
    let wanted = pam_line("sudo", "box", true, true);
    let input = format!("{MARK}\nauth include system-auth\n");
    assert_eq!(
        pam_add(&input, &wanted).unwrap(),
        format!("{MARK}\n{wanted}\nauth include system-auth\n")
    );
    let twice = format!("{MARK}\n{wanted} old\n{wanted} older\nauth x\n");
    assert_eq!(
        pam_add(&twice, &wanted).unwrap(),
        format!("{MARK}\n{wanted}\nauth x\n")
    );
}

#[test]
fn added_line_is_the_only_one() {
    let old = pam_line("sudo", "old", true, true);
    let wanted = pam_line("sudo", "box", true, true);
    let input = format!("#%PAM-1.0\n{old}\nauth required pam_env.so\n{old}\naccount x\n{old}\n");
    let output = pam_add(&input, &wanted).unwrap();
    let ours: Vec<&str> = output.lines().filter(|line| is_ours(line) && *line != MARK).collect();
    assert_eq!(ours, [&wanted]);
    let others: Vec<&str> = output.lines().filter(|line| !is_ours(line)).collect();
    assert_eq!(others, ["#%PAM-1.0", "auth required pam_env.so", "account x"]);
    assert_eq!(pam_add(&output, &wanted), None);
}

#[test]
fn removing_undoes_adding() {
    let wanted = pam_line("sudo", "box", true, true);
    let output = pam_add(INPUT, &wanted).unwrap();
    assert_eq!(pam_remove(&output).as_deref(), Some(INPUT));
    assert_eq!(pam_remove(INPUT), None);
    assert!(!has_our_line(INPUT));
}

#[test]
fn copies_go_when_they_are_the_vendors() {
    let wanted = pam_line("sudo", "box", true, true);
    let output = pam_add(INPUT, &wanted).unwrap();
    assert_eq!(pam_removal(INPUT, Some(INPUT)), Removal::Leave);
    assert_eq!(pam_removal(&output, Some(INPUT)), Removal::Delete);
    assert_eq!(pam_removal(&output, None), Removal::Write(INPUT.to_string()));
    assert_eq!(pam_removal(&output, Some("other\n")), Removal::Write(INPUT.to_string()));
}
