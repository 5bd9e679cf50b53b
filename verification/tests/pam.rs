use passkey::pam::{
    approval, ask_seconds, begins, conversation, heard, helper_arguments, is_our_device, options,
    prompt, u2f_files, Action, Event, Session, Start, Typed, NOT_APPROVED, PAM_CONV_ERR,
    PAM_IGNORE, PAM_SUCCESS, USAGE,
};
use passkey::pam_config::pam_line;

fn strings(list: &[&str]) -> Vec<String> {
    list.iter().map(|text| text.to_string()).collect()
}

fn typed(typed: Typed) -> Event {
    Event::Prompted { status: PAM_SUCCESS, typed }
}

fn finish(status: i32, prompting: bool) -> Action {
    Action::Finish { status, prompting }
}

#[test]
fn options_are_read() {
    let read = options(
        "/usr/bin/passkey",
        &strings(&["mode=parallel", "authfile=/a", "cue", "helper=/b", "mode=on-empty", "authfile=/c"]),
    );
    assert!(read.on_empty);
    assert_eq!(read.helper, "/b");
    assert_eq!(read.authfile.as_deref(), Some("/c"));
    assert_eq!(read.handed_on, ["authfile=/a", "cue", "authfile=/c"]);

    let none = options("/usr/bin/passkey", &strings(&[]));
    assert!(!none.on_empty);
    assert_eq!(none.helper, "/usr/bin/passkey");
    assert_eq!(none.authfile, None);
}

#[test]
fn later_options_are_not_read() {
    let mut args = vec!["x".to_string(); 32];
    args.push("authfile=/a".to_string());
    let read = options("h", &args);
    assert_eq!(read.authfile, None);
    assert_eq!(read.handed_on.len(), 32);
}

#[test]
fn prompts_and_times() {
    assert_eq!(prompt(true), "Password: ");
    assert_eq!(prompt(false), "Password (or confirm on your device): ");
    assert_eq!(ask_seconds(true), 45);
    assert_eq!(ask_seconds(false), 600);
}

#[test]
fn virtual_key_is_recognised() {
    assert!(is_our_device("DRIVER=hid\nHID_ID=0003:00001209:00007AB1\nHID_NAME=passkey\n"));
    assert!(!is_our_device("HID_ID=0003:00001050:00000407\n"));
    assert!(!is_our_device(" HID_ID=0003:00001209:00007AB1\n"));
}

#[test]
fn session_begins_where_nothing_is_lacking() {
    assert_eq!(begins(true, true, true, true, true, false), Start::PromptAndAsk);
    assert_eq!(begins(true, true, true, true, true, true), Start::Prompt);
    for on_empty in [false, true] {
        assert_eq!(begins(false, true, true, true, true, on_empty), Start::Ignore);
        assert_eq!(begins(true, false, true, true, true, on_empty), Start::Ignore);
        assert_eq!(begins(true, true, false, true, true, on_empty), Start::Ignore);
        assert_eq!(begins(true, true, true, false, true, on_empty), Start::Ignore);
        assert_eq!(begins(true, true, true, true, false, on_empty), Start::Ignore);
    }
}

#[test]
fn approval_ends_the_session() {
    let mut session = Session::new(true);
    assert_eq!(session.handle(Event::Nothing), Action::Wait);
    assert_eq!(session.handle(Event::Approved), finish(PAM_SUCCESS, true));
    assert_eq!(session.handle(typed(Typed::Password)), Action::Wait);

    let mut session = Session::new(true);
    assert_eq!(session.handle(typed(Typed::Empty)), Action::Wait);
    assert_eq!(session.handle(Event::Approved), finish(PAM_SUCCESS, false));
}

#[test]
fn only_approval_succeeds() {
    let mut session = Session::new(false);
    assert_eq!(session.handle(Event::Approved), Action::Wait);
    let mut session = Session::new(true);
    assert_eq!(session.handle(Event::Refused), Action::Wait);
    assert_eq!(session.handle(Event::Approved), Action::Wait);
}

#[test]
fn typed_password_is_handed_on() {
    for asking in [true, false] {
        let mut session = Session::new(asking);
        assert_eq!(session.handle(typed(Typed::Password)), Action::HandOn);
        assert_eq!(
            session.handle(Event::HandedOn { status: PAM_SUCCESS }),
            finish(PAM_IGNORE, false)
        );
    }
    let mut session = Session::new(false);
    session.handle(typed(Typed::Password));
    assert_eq!(session.handle(Event::HandedOn { status: 5 }), finish(5, false));
}

#[test]
fn prompt_that_fails_ends_the_session() {
    let mut session = Session::new(true);
    let event = Event::Prompted { status: 7, typed: Typed::Nothing };
    assert_eq!(session.handle(event), finish(7, false));
    let mut session = Session::new(true);
    assert_eq!(session.handle(typed(Typed::Nothing)), finish(PAM_CONV_ERR, false));
}

#[test]
fn enter_asks_the_phone() {
    let mut session = Session::new(false);
    assert_eq!(session.handle(Event::Nothing), Action::Wait);
    assert_eq!(session.handle(typed(Typed::Empty)), Action::Ask);
    assert_eq!(session.handle(Event::Asking { started: true }), Action::Wait);
    assert_eq!(session.tries, 1);
    assert_eq!(session.handle(Event::Refused), finish(PAM_IGNORE, false));

    let mut session = Session::new(false);
    session.handle(typed(Typed::Empty));
    assert_eq!(session.handle(Event::Asking { started: false }), finish(PAM_IGNORE, false));

    let mut session = Session::new(false);
    session.handle(typed(Typed::Empty));
    session.handle(Event::Asking { started: true });
    assert_eq!(session.handle(Event::TimedOut), finish(PAM_IGNORE, false));
}

#[test]
fn broken_helper_ends_the_asking() {
    let mut session = Session::new(true);
    assert_eq!(session.handle(Event::Broken), Action::Wait);
    assert!(!session.asking);
    assert_eq!(session.handle(Event::Nothing), Action::Wait);

    let mut session = Session::new(true);
    session.handle(typed(Typed::Empty));
    assert_eq!(session.handle(Event::Broken), Action::Wait);
    assert_eq!(session.handle(Event::Nothing), finish(PAM_IGNORE, false));
}

#[test]
fn phone_is_asked_three_times_at_most() {
    let mut session = Session { tries: 3, ..Session::new(false) };
    assert_eq!(session.handle(typed(Typed::Empty)), finish(PAM_IGNORE, false));
    let mut session = Session { tries: 2, ..Session::new(false) };
    assert_eq!(session.handle(typed(Typed::Empty)), Action::Ask);
    session.handle(Event::Asking { started: true });
    assert_eq!(session.tries, 3);
}

#[test]
fn helper_says_yes() {
    assert_eq!(heard(Some(b"y"), false), Event::Approved);
    assert_eq!(heard(Some(b"n"), false), Event::Refused);
    assert_eq!(heard(Some(b""), true), Event::Refused);
    assert_eq!(heard(None, false), Event::Nothing);
    assert_eq!(heard(None, true), Event::TimedOut);
}

#[test]
fn helper_is_told_for_whom() {
    assert_eq!(helper_arguments(strings(&[])), Err(USAGE));
    assert_eq!(USAGE, "usage: passkey pam-auth USER [pam_u2f options...]");
    assert_eq!(
        helper_arguments(strings(&["alice", "cue", "x=y"])),
        Ok(("alice".to_string(), strings(&["cue", "x=y"])))
    );
}

#[test]
fn conversation_answers_no_question() {
    assert_eq!(conversation(&[]), PAM_SUCCESS);
    assert_eq!(conversation(&[4, 3]), PAM_SUCCESS);
    assert_eq!(conversation(&[4, 1]), PAM_CONV_ERR);
    assert_eq!(conversation(&[2]), PAM_CONV_ERR);
    assert_eq!(approval(PAM_SUCCESS), Ok(()));
    assert_eq!(approval(7), Err(NOT_APPROVED));
    assert_eq!(NOT_APPROVED, "fingerprint was not approved");
}

#[test]
fn module_is_looked_for() {
    let files = u2f_files();
    assert_eq!(files.len(), 8);
    assert_eq!(files[0], "/usr/lib/security/pam_u2f.so");
    assert_eq!(files[7], "/lib/aarch64-linux-gnu/security/pam_u2f.so");
}

#[test]
fn module_reads_its_line() {
    for (service, on_empty) in [("sudo", false), ("sddm", true)] {
        let line = pam_line(service, "box", true, true);
        let words: Vec<String> = line.split_whitespace().map(str::to_owned).collect();
        assert_eq!(words[..3], ["-auth", "sufficient", "pam_passkey.so"]);
        let read = options("h", &words[3..].to_vec());
        assert_eq!(read.on_empty, on_empty);
        assert_eq!(read.helper, "h");
        assert_eq!(read.authfile.as_deref(), Some("/etc/passkey/u2f_keys"));
        assert_eq!(read.handed_on, words[4..]);
    }
}
