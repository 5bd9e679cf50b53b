//! Asking a user for a password and a phone for a fingerprint, at the same time.

use vstd::prelude::*;
use vstd::string::*;

use crate::pam_config::{is_on_empty, pam_line_of, u2f_options, KEYS};
use crate::text::{
    after_prefix, is_space, is_word, lemma_words_of_add, lemma_words_of_word, lines, lines_of,
    opt_view, same, strip_prefix, words_of,
};

verus! {

/// Success.
pub const PAM_SUCCESS: i32 = 0;

/// The next module decides.
pub const PAM_IGNORE: i32 = 25;

/// The conversation failed.
pub const PAM_CONV_ERR: i32 = 19;

/// A prompt for something secret.
pub const PAM_PROMPT_ECHO_OFF: i32 = 1;

/// A prompt for something that may be seen.
pub const PAM_PROMPT_ECHO_ON: i32 = 2;

/// How many arguments are read.
pub const MAX_ARGS: usize = 32;

/// How often the phone is asked at most.
pub const MAX_TRIES: u8 = 3;

/// How long the phone is asked while the user may type, in seconds.
pub const ASK_PARALLEL: u64 = 600;

/// How long the phone is asked after an empty password, in seconds.
pub const ASK_ON_EMPTY: u64 = 45;

// ---------------------------------------------------------------------------
// Arguments
// ---------------------------------------------------------------------------

/// What the arguments of the module say.
#[derive(Debug)]
pub struct Options {
    /// Whether the phone is asked only after an empty password.
    pub on_empty: bool,
    /// The program that asks the phone.
    pub helper: String,
    /// The file of the credentials.
    pub authfile: Option<String>,
    /// What is handed on to that program.
    pub handed_on: Vec<String>,
}

/// What the arguments stand for.
#[verifier::ext_equal]
pub struct Settings {
    /// Whether the phone is asked only after an empty password.
    pub on_empty: bool,
    /// The program that asks the phone.
    pub helper: Seq<char>,
    /// The file of the credentials.
    pub authfile: Option<Seq<char>>,
    /// What is handed on to that program.
    pub handed_on: Seq<Seq<char>>,
}

impl View for Options {
    type V = Settings;

    open spec fn view(&self) -> Settings {
        Settings {
            on_empty: self.on_empty,
            helper: self.helper@,
            authfile: opt_view(self.authfile),
            handed_on: self.handed_on.deep_view(),
        }
    }
}

impl Settings {
    /// The settings after one more argument. What is neither the mode nor the program is
    /// handed on.
    pub open spec fn with(self, argument: Seq<char>) -> Settings {
        if argument == "mode=on-empty"@ {
            Settings { on_empty: true, ..self }
        } else if argument == "mode=parallel"@ {
            self
        } else if let Some(helper) = after_prefix(argument, "helper="@) {
            Settings { helper, ..self }
        } else {
            Settings {
                authfile: match after_prefix(argument, "authfile="@) {
                    Some(file) => Some(file),
                    None => self.authfile,
                },
                handed_on: self.handed_on.push(argument),
                ..self
            }
        }
    }
}

/// The settings that arguments make.
pub open spec fn settings_of(helper: Seq<char>, arguments: Seq<Seq<char>>) -> Settings
    decreases arguments.len(),
{
    if arguments.len() == 0 {
        Settings { on_empty: false, helper, authfile: None, handed_on: Seq::empty() }
    } else {
        settings_of(helper, arguments.drop_last()).with(arguments.last())
    }
}

/// The arguments that are read.
pub open spec fn read_arguments(arguments: Seq<Seq<char>>) -> Seq<Seq<char>> {
    if arguments.len() <= MAX_ARGS {
        arguments
    } else {
        arguments.take(MAX_ARGS as int)
    }
}

/// What the arguments of the module say, the first of them; with the program that asks the
/// phone where they name none.
pub fn options(helper: &str, arguments: &Vec<String>) -> (options: Options)
    ensures
        options@ == settings_of(helper@, read_arguments(arguments.deep_view())),
{
    let ghost all = arguments.deep_view();
    let mut found = Options {
        on_empty: false,
        helper: helper.to_string(),
        authfile: None,
        handed_on: Vec::new(),
    };
    let mut i: usize = 0;
    proof {
        assert(all.take(0) =~= Seq::empty());
        assert(found@ =~= settings_of(helper@, all.take(0)));
    }
    while i < arguments.len() && i < MAX_ARGS
        invariant
            all == arguments.deep_view(),
            i <= all.len(),
            i <= MAX_ARGS,
            found@ == settings_of(helper@, all.take(i as int)),
        decreases all.len() - i,
    {
        let argument = arguments[i].as_str();
        let ghost before = found@;
        proof {
            assert(all.take(i + 1).drop_last() =~= all.take(i as int));
            assert(all.take(i + 1).last() == argument@);
        }
        if same(argument, "mode=on-empty") {
            found.on_empty = true;
        } else if !same(argument, "mode=parallel") {
            if let Some(helper) = strip_prefix(argument, "helper=") {
                found.helper = helper;
            } else {
                if let Some(file) = strip_prefix(argument, "authfile=") {
                    found.authfile = Some(file);
                }
                let ghost handed = found.handed_on.deep_view();
                found.handed_on.push(argument.to_string());
                assert(found.handed_on.deep_view() =~= handed.push(argument@));
            }
        }
        assert(found@ =~= before.with(argument@));
        i = i + 1;
    }
    assert(read_arguments(all) =~= all.take(i as int));
    found
}

/// What the user is asked.
pub fn prompt(on_empty: bool) -> (text: &'static str)
    ensures
        text@ == (if on_empty {
            "Password: "@
        } else {
            "Password (or confirm on your device): "@
        }),
{
    if on_empty {
        "Password: "
    } else {
        "Password (or confirm on your device): "
    }
}

/// How long the phone is asked, in seconds.
pub fn ask_seconds(on_empty: bool) -> (seconds: u64)
    ensures
        seconds == (if on_empty {
            ASK_ON_EMPTY
        } else {
            ASK_PARALLEL
        }),
{
    if on_empty {
        ASK_ON_EMPTY
    } else {
        ASK_PARALLEL
    }
}

/// The line by which the kernel names the virtual security key.
pub const OUR_DEVICE: &'static str = "HID_ID=0003:00001209:00007AB1";

/// Whether what the kernel tells of a device names the virtual security key.
pub fn is_our_device(uevent: &str) -> (found: bool)
    ensures
        found == lines_of(uevent@).contains(OUR_DEVICE@),
{
    let all = lines(uevent);
    let mut i: usize = 0;
    while i < all.len()
        invariant
            all.deep_view() == lines_of(uevent@),
            i <= all@.len(),
            forall|k: int| 0 <= k < i ==> (#[trigger] lines_of(uevent@)[k]) != OUR_DEVICE@,
        decreases all@.len() - i,
    {
        assert(lines_of(uevent@)[i as int] == all@[i as int]@);
        if same(all[i].as_str(), OUR_DEVICE) {
            return true;
        }
        i = i + 1;
    }
    false
}

/// How a session begins.
#[derive(Debug, Clone, Copy, PartialEq, Eq, Structural)]
pub enum Start {
    /// Nobody is asked, and the next module decides.
    Ignore,
    /// The user is prompted.
    Prompt,
    /// The user is prompted, and the phone is asked at the same time.
    PromptAndAsk,
}

/// How a session begins, by whether the arguments name a file of credentials, the user is
/// known, the virtual security key is there, the user is registered and the program that asks
/// the phone can be run; and whether the phone is asked only after an empty password. Where
/// anything is lacking nobody is prompted.
pub fn begins(
    authfile: bool,
    user: bool,
    present: bool,
    registered: bool,
    executable: bool,
    on_empty: bool,
) -> (start: Start)
    ensures
        start == (if !(authfile && user && present && registered && executable) {
            Start::Ignore
        } else if on_empty {
            Start::Prompt
        } else {
            Start::PromptAndAsk
        }),
{
    if !(authfile && user && present && registered && executable) {
        Start::Ignore
    } else if on_empty {
        Start::Prompt
    } else {
        Start::PromptAndAsk
    }
}

// ---------------------------------------------------------------------------
// The session
// ---------------------------------------------------------------------------

/// What was typed at the prompt.
#[derive(Debug, Clone, Copy, PartialEq, Eq, Structural)]
pub enum Typed {
    /// The prompt gave nothing back.
    Nothing,
    /// Enter alone.
    Empty,
    /// A password.
    Password,
}

/// What happens in a session.
#[derive(Debug, Clone, Copy, PartialEq, Eq, Structural)]
pub enum Event {
    /// The prompt is over, with its status and what was typed.
    Prompted {
        /// The status.
        status: i32,
        /// What was typed.
        typed: Typed,
    },
    /// The password was handed on, with that status.
    HandedOn {
        /// The status.
        status: i32,
    },
    /// The phone is being asked, or that failed.
    Asking {
        /// Whether it is.
        started: bool,
    },
    /// The user has approved on the phone.
    Approved,
    /// The user has refused on the phone, or the phone failed.
    Refused,
    /// The phone was asked for long enough.
    TimedOut,
    /// What the phone says cannot be read.
    Broken,
    /// Nothing happened.
    Nothing,
}

/// What to do next.
#[derive(Debug, Clone, Copy, PartialEq, Eq, Structural)]
pub enum Action {
    /// Wait for what happens.
    Wait,
    /// Hand the password on to the next module.
    HandOn,
    /// Ask the phone.
    Ask,
    /// End with a status; end the prompt first if it still stands.
    Finish {
        /// The status.
        status: i32,
        /// Whether the prompt still stands.
        prompting: bool,
    },
}

/// What the session waits for before anything else.
#[derive(Debug, Clone, Copy, PartialEq, Eq, Structural)]
pub enum Due {
    /// Nothing.
    Nothing,
    /// That the password is handed on.
    HandedOn,
    /// That the phone is asked.
    Asking,
    /// It is over.
    End,
}

/// A session with a user.
#[derive(Debug, Clone, Copy, PartialEq, Eq, Structural)]
pub struct Session {
    /// Whether the user may type.
    pub prompting: bool,
    /// Whether the phone is being asked.
    pub asking: bool,
    /// How often the phone was asked.
    pub tries: u8,
    /// What is waited for before anything else.
    pub due: Due,
}

/// The session is over.
pub open spec fn finished(session: Session, status: i32) -> (Session, Action) {
    (Session { due: Due::End, ..session }, Action::Finish { status, prompting: session.prompting })
}

/// The session after an event in which the phone is not asked any more: over, unless the
/// user may type.
pub open spec fn unasked(session: Session) -> (Session, Action) {
    let alone = Session { asking: false, ..session };
    if alone.prompting {
        (alone, Action::Wait)
    } else {
        finished(alone, PAM_IGNORE)
    }
}

/// The session after an event, and what to do. A prompt that fails ends it. A password is
/// handed on to the next module, which then decides. Enter alone asks the phone, if it is
/// not being asked and was not asked too often. Only an approval on the phone is a success.
pub open spec fn step(session: Session, event: Event) -> (Session, Action) {
    match event {
        Event::Prompted { status, typed } => if session.due != Due::Nothing || !session.prompting {
            (session, Action::Wait)
        } else {
            let after = Session { prompting: false, ..session };
            if status != PAM_SUCCESS {
                finished(after, status)
            } else if typed == Typed::Nothing {
                finished(after, PAM_CONV_ERR)
            } else if typed == Typed::Password {
                (Session { due: Due::HandedOn, ..after }, Action::HandOn)
            } else if after.asking {
                (after, Action::Wait)
            } else if after.tries < MAX_TRIES {
                (Session { due: Due::Asking, ..after }, Action::Ask)
            } else {
                finished(after, PAM_IGNORE)
            }
        },
        Event::HandedOn { status } => if session.due != Due::HandedOn {
            (session, Action::Wait)
        } else if status == PAM_SUCCESS {
            finished(session, PAM_IGNORE)
        } else {
            finished(session, status)
        },
        Event::Asking { started } => if session.due != Due::Asking {
            (session, Action::Wait)
        } else if started {
            (
                Session {
                    asking: true,
                    tries: (session.tries + 1) as u8,
                    due: Due::Nothing,
                    ..session
                },
                Action::Wait,
            )
        } else {
            finished(session, PAM_IGNORE)
        },
        Event::Approved => if session.due != Due::Nothing || !session.asking {
            (session, Action::Wait)
        } else {
            finished(Session { asking: false, ..session }, PAM_SUCCESS)
        },
        Event::Refused | Event::TimedOut => if session.due != Due::Nothing || !session.asking {
            (session, Action::Wait)
        } else {
            unasked(session)
        },
        Event::Broken => if session.due != Due::Nothing || !session.asking {
            (session, Action::Wait)
        } else {
            (Session { asking: false, ..session }, Action::Wait)
        },
        Event::Nothing => if session.due != Due::Nothing || session.asking || session.prompting {
            (session, Action::Wait)
        } else {
            finished(session, PAM_IGNORE)
        },
    }
}

impl Session {
    /// The session is one that can come about: the phone was asked no more often than it may
    /// be, and once more at most where that is due.
    pub open spec fn wf(self) -> bool {
        &&& self.tries <= MAX_TRIES
        &&& self.due == Due::Asking ==> self.tries < MAX_TRIES && !self.asking
    }

    /// The session when the prompt appears.
    pub fn new(asking: bool) -> (session: Session)
        ensures
            session == (Session {
                prompting: true,
                asking,
                tries: if asking {
                    1
                } else {
                    0
                },
                due: Due::Nothing,
            }),
            session.wf(),
    {
        Session {
            prompting: true,
            asking,
            tries: if asking {
                1
            } else {
                0
            },
            due: Due::Nothing,
        }
    }

    /// Ends the session.
    fn finish(&mut self, status: i32) -> (action: Action)
        ensures
            (*final(self), action) == finished(*old(self), status),
    {
        self.due = Due::End;
        Action::Finish { status, prompting: self.prompting }
    }

    /// Acts on an event.
    pub fn handle(&mut self, event: Event) -> (action: Action)
        requires
            old(self).wf(),
        ensures
            final(self).wf(),
            (*final(self), action) == step(*old(self), event),
    {
        match event {
            Event::Prompted { status, typed } => {
                if self.due != Due::Nothing || !self.prompting {
                    return Action::Wait;
                }
                self.prompting = false;
                if status != PAM_SUCCESS {
                    self.finish(status)
                } else {
                    match typed {
                        Typed::Nothing => self.finish(PAM_CONV_ERR),
                        Typed::Password => {
                            self.due = Due::HandedOn;
                            Action::HandOn
                        },
                        Typed::Empty => {
                            if self.asking {
                                Action::Wait
                            } else if self.tries < MAX_TRIES {
                                self.due = Due::Asking;
                                Action::Ask
                            } else {
                                self.finish(PAM_IGNORE)
                            }
                        },
                    }
                }
            },
            Event::HandedOn { status } => {
                if self.due != Due::HandedOn {
                    Action::Wait
                } else if status == PAM_SUCCESS {
                    self.finish(PAM_IGNORE)
                } else {
                    self.finish(status)
                }
            },
            Event::Asking { started } => {
                if self.due != Due::Asking {
                    Action::Wait
                } else if started {
                    self.asking = true;
                    self.tries = self.tries + 1;
                    self.due = Due::Nothing;
                    Action::Wait
                } else {
                    self.finish(PAM_IGNORE)
                }
            },
            Event::Approved => {
                if self.due != Due::Nothing || !self.asking {
                    Action::Wait
                } else {
                    self.asking = false;
                    self.finish(PAM_SUCCESS)
                }
            },
            Event::Refused | Event::TimedOut => {
                if self.due != Due::Nothing || !self.asking {
                    Action::Wait
                } else {
                    self.asking = false;
                    if self.prompting {
                        Action::Wait
                    } else {
                        self.finish(PAM_IGNORE)
                    }
                }
            },
            Event::Broken => {
                if self.due == Due::Nothing && self.asking {
                    self.asking = false;
                }
                Action::Wait
            },
            Event::Nothing => {
                if self.due != Due::Nothing || self.asking || self.prompting {
                    Action::Wait
                } else {
                    self.finish(PAM_IGNORE)
                }
            },
        }
    }
}

/// What the phone has said: nothing yet, or what the program that asks it has written;
/// which is an approval only if it is one `y`.
pub fn heard(written: Option<&[u8]>, late: bool) -> (event: Event)
    ensures
        event == match written {
            Some(bytes) => if bytes@ == seq![0x79u8] {
                Event::Approved
            } else {
                Event::Refused
            },
            None => if late {
                Event::TimedOut
            } else {
                Event::Nothing
            },
        },
{
    match written {
        Some(bytes) => {
            if bytes.len() == 1 && bytes[0] == 0x79 {
                assert(bytes@ =~= seq![0x79u8]);
                Event::Approved
            } else {
                Event::Refused
            }
        },
        None => if late {
            Event::TimedOut
        } else {
            Event::Nothing
        },
    }
}

// ---------------------------------------------------------------------------
// Asking the phone
// ---------------------------------------------------------------------------

/// What is said where the program that asks the phone is not told for whom.
pub const USAGE: &'static str = "usage: passkey pam-auth USER [pam_u2f options...]";

/// What is said where the phone does not approve.
pub const NOT_APPROVED: &'static str = "fingerprint was not approved";

/// The user and the options that are handed to pam_u2f.
pub fn helper_arguments(arguments: Vec<String>) -> (parts: Result<(String, Vec<String>), &'static str>)
    ensures
        parts is Ok <==> arguments@.len() > 0,
        parts matches Err(error) ==> error@ == USAGE@,
        parts matches Ok((user, options)) ==> user@ == arguments@[0]@ && options.deep_view()
            == arguments.deep_view().skip(1),
{
    if arguments.len() == 0 {
        return Err(USAGE);
    }
    let ghost all = arguments.deep_view();
    let user = arguments[0].as_str().to_string();
    let mut options: Vec<String> = Vec::new();
    let mut i: usize = 1;
    assert(options.deep_view() =~= all.subrange(1, 1));
    while i < arguments.len()
        invariant
            all == arguments.deep_view(),
            1 <= i <= arguments@.len(),
            options.deep_view() == all.subrange(1, i as int),
        decreases arguments@.len() - i,
    {
        let ghost before = options.deep_view();
        options.push(arguments[i].as_str().to_string());
        proof {
            assert(options.deep_view() =~= before.push(all[i as int]));
            assert(all.subrange(1, i + 1) =~= all.subrange(1, i as int).push(all[i as int]));
        }
        i = i + 1;
    }
    assert(all.subrange(1, i as int) =~= all.skip(1));
    Ok((user, options))
}

/// A message is a question.
pub open spec fn is_question(style: i32) -> bool {
    style == PAM_PROMPT_ECHO_OFF || style == PAM_PROMPT_ECHO_ON
}

/// The answer to messages while the phone is asked: they may tell and not ask.
pub fn conversation(styles: &[i32]) -> (status: i32)
    ensures
        status == (if exists|i: int| 0 <= i < styles@.len() && is_question(#[trigger] styles@[i]) {
            PAM_CONV_ERR
        } else {
            PAM_SUCCESS
        }),
{
    let mut i: usize = 0;
    while i < styles.len()
        invariant
            i <= styles@.len(),
            forall|k: int| 0 <= k < i ==> !is_question(#[trigger] styles@[k]),
        decreases styles@.len() - i,
    {
        if styles[i] == PAM_PROMPT_ECHO_OFF || styles[i] == PAM_PROMPT_ECHO_ON {
            assert(is_question(styles@[i as int]));
            return PAM_CONV_ERR;
        }
        i = i + 1;
    }
    PAM_SUCCESS
}

/// Whether the phone has approved, by the status of pam_u2f.
pub fn approval(status: i32) -> (approved: Result<(), &'static str>)
    ensures
        approved is Ok <==> status == PAM_SUCCESS,
        approved matches Err(error) ==> error@ == NOT_APPROVED@,
{
    if status == PAM_SUCCESS {
        Ok(())
    } else {
        Err(NOT_APPROVED)
    }
}

/// Where pam_u2f is looked for, in this order.
pub open spec fn u2f_directories() -> Seq<Seq<char>> {
    seq![
        "/usr/lib/security"@,
        "/lib/security"@,
        "/usr/lib64/security"@,
        "/lib64/security"@,
        "/usr/lib/x86_64-linux-gnu/security"@,
        "/lib/x86_64-linux-gnu/security"@,
        "/usr/lib/aarch64-linux-gnu/security"@,
        "/lib/aarch64-linux-gnu/security"@,
    ]
}

/// The files that may be pam_u2f, in the order in which they are tried.
pub fn u2f_files() -> (files: Vec<String>)
    ensures
        files.deep_view() == u2f_directories().map_values(
            |directory: Seq<char>| directory + "/pam_u2f.so"@,
        ),
{
    let directories: Vec<&'static str> = vec![
        "/usr/lib/security",
        "/lib/security",
        "/usr/lib64/security",
        "/lib64/security",
        "/usr/lib/x86_64-linux-gnu/security",
        "/lib/x86_64-linux-gnu/security",
        "/usr/lib/aarch64-linux-gnu/security",
        "/lib/aarch64-linux-gnu/security",
    ];
    assert(directories@.map_values(|directory: &'static str| directory@) =~= u2f_directories());
    let mut files: Vec<String> = Vec::new();
    let mut i: usize = 0;
    while i < directories.len()
        invariant
            directories@.map_values(|directory: &'static str| directory@) == u2f_directories(),
            i <= directories@.len(),
            files@.len() == i,
            forall|k: int|
                0 <= k < i ==> (#[trigger] files@[k])@ == u2f_directories()[k] + "/pam_u2f.so"@,
        decreases directories@.len() - i,
    {
        let mut file = directories[i].to_string();
        assert(u2f_directories()[i as int] == directories@[i as int]@);
        file.append("/pam_u2f.so");
        files.push(file);
        i = i + 1;
    }
    assert(files.deep_view() =~= u2f_directories().map_values(
        |directory: Seq<char>| directory + "/pam_u2f.so"@,
    ));
    files
}

// ---------------------------------------------------------------------------
// Laws
// ---------------------------------------------------------------------------

/// A session after events, one after the other.
pub open spec fn run(session: Session, events: Seq<Event>) -> Session
    decreases events.len(),
{
    if events.len() == 0 {
        session
    } else {
        step(run(session, events.drop_last()), events.last()).0
    }
}

/// Only an approval on the phone, while it is being asked, is a success; a password that is
/// typed, a prompt that fails and a phone that refuses never are.
pub proof fn law_only_approval_succeeds(session: Session, event: Event)
    ensures
        step(session, event).1 matches Action::Finish { status, .. } ==> (status == PAM_SUCCESS
            <==> event == Event::Approved && session.asking && session.due == Due::Nothing),
{
}

/// The phone is asked three times at most, whatever happens.
pub proof fn law_phone_is_asked_three_times_at_most(session: Session, events: Seq<Event>)
    requires
        session.wf(),
    ensures
        run(session, events).wf(),
        run(session, events).tries <= MAX_TRIES,
    decreases events.len(),
{
    if events.len() > 0 {
        law_phone_is_asked_three_times_at_most(session, events.drop_last());
    }
}

/// A password that is typed is handed on, and the next module decides; also while the phone
/// is being asked.
pub proof fn law_typed_password_is_handed_on(session: Session)
    requires
        session.prompting,
        session.due == Due::Nothing,
    ensures
        ({
            let (typed, action) = step(
                session,
                Event::Prompted { status: PAM_SUCCESS, typed: Typed::Password },
            );
            let (over, last) = step(typed, Event::HandedOn { status: PAM_SUCCESS });
            &&& action == Action::HandOn
            &&& last == (Action::Finish { status: PAM_IGNORE, prompting: false })
            &&& over.due == Due::End
        }),
{
}

/// An approval ends the session with success, also while the user may type.
pub proof fn law_approval_ends_the_session(session: Session)
    requires
        session.asking,
        session.due == Due::Nothing,
    ensures
        step(session, Event::Approved).1 == (Action::Finish {
            status: PAM_SUCCESS,
            prompting: session.prompting,
        }),
{
}

/// A session that is over stays over.
pub proof fn law_end_is_the_end(session: Session, events: Seq<Event>)
    requires
        session.due == Due::End,
    ensures
        run(session, events) == session,
    decreases events.len(),
{
    if events.len() > 0 {
        law_end_is_the_end(session, events.drop_last());
    }
}

/// No character is white space, from the last on.
spec fn solid(s: Seq<char>) -> bool
    decreases s.len(),
{
    s.len() == 0 || (!is_space(s.last()) && solid(s.drop_last()))
}

/// A text without white space is a word.
proof fn lemma_solid(s: Seq<char>)
    requires
        solid(s),
    ensures
        forall|i: int| 0 <= i < s.len() ==> !is_space(#[trigger] s[i]),
    decreases s.len(),
{
    if s.len() > 0 {
        lemma_solid(s.drop_last());
        assert forall|i: int| 0 <= i < s.len() implies !is_space(#[trigger] s[i]) by {
            if i < s.len() - 1 {
                assert(s.drop_last()[i] == s[i]);
            }
        }
    }
}

/// Two texts without white space are a word.
proof fn lemma_word_of_two(a: Seq<char>, b: Seq<char>)
    requires
        solid(a),
        a.len() > 0,
        b.len() == 0 || is_word(b),
    ensures
        is_word(a + b),
{
    lemma_solid(a);
    assert forall|i: int| 0 <= i < (a + b).len() implies !is_space(#[trigger] (a + b)[i]) by {
        if i < a.len() {
            assert((a + b)[i] == a[i]);
        } else {
            assert((a + b)[i] == b[i - a.len()]);
        }
    }
}

/// A word and what follows it behind a space.
proof fn lemma_words_of_more(word: Seq<char>, rest: Seq<char>, words: Seq<Seq<char>>)
    requires
        is_word(word),
        words_of(rest) == words,
    ensures
        words_of(word.push(' ') + rest) == seq![word] + words,
{
    lemma_words_of_add(word, rest);
    lemma_words_of_word(word);
}

/// White space before a text hides no word.
proof fn lemma_words_of_indented(rest: Seq<char>)
    ensures
        words_of(seq![' '] + rest) == words_of(rest),
{
    let none = Seq::<char>::empty();
    lemma_words_of_add(none, rest);
    assert(none.push(' ') + rest =~= seq![' '] + rest);
    assert(words_of(none) =~= Seq::empty());
    assert(Seq::<Seq<char>>::empty() + words_of(rest) =~= words_of(rest));
}

/// What the module is told on the line of a service.
pub open spec fn line_arguments(service: Seq<char>, hostname: Seq<char>) -> Seq<Seq<char>> {
    seq![
        "mode="@ + (if is_on_empty(service) {
            "on-empty"@
        } else {
            "parallel"@
        }),
        "authfile="@ + KEYS@,
        "origin=pam://"@ + hostname,
        "appid=pam://"@ + hostname,
        "userverification=1"@,
        "nouserok"@,
    ]
}

/// The words at the end of the line of a service.
proof fn lemma_u2f_words(hostname: Seq<char>)
    requires
        is_word(hostname),
    ensures
        words_of(u2f_options(hostname)) == seq![
            "authfile="@ + KEYS@,
            "origin=pam://"@ + hostname,
            "appid=pam://"@ + hostname,
            "userverification=1"@,
            "nouserok"@,
        ],
{
    let file = "authfile="@ + KEYS@;
    let origin = "origin=pam://"@ + hostname;
    let appid = "appid=pam://"@ + hostname;
    let verification = "userverification=1"@;
    let nouserok = "nouserok"@;
    assert(is_word(file)) by {
        reveal_strlit("authfile=");
        reveal_strlit("/etc/passkey/u2f_keys");
        reveal_with_fuel(solid, 23);
        assert(solid("/etc/passkey/u2f_keys"@));
        assert(solid("authfile="@));
        lemma_solid(KEYS@);
        lemma_word_of_two("authfile="@, KEYS@);
    }
    assert(is_word(origin)) by {
        reveal_strlit("origin=pam://");
        reveal_with_fuel(solid, 15);
        lemma_word_of_two("origin=pam://"@, hostname);
    }
    assert(is_word(appid)) by {
        reveal_strlit("appid=pam://");
        reveal_with_fuel(solid, 15);
        lemma_word_of_two("appid=pam://"@, hostname);
    }
    assert(is_word(verification)) by {
        reveal_strlit("userverification=1");
        reveal_with_fuel(solid, 20);
        lemma_solid(verification);
    }
    assert(is_word(nouserok)) by {
        reveal_strlit("nouserok");
        reveal_with_fuel(solid, 10);
        lemma_solid(nouserok);
    }
    let tail = verification.push(' ') + nouserok;
    lemma_words_of_word(nouserok);
    lemma_words_of_more(verification, nouserok, seq![nouserok]);
    lemma_words_of_more(appid, tail, seq![verification] + seq![nouserok]);
    lemma_words_of_more(
        origin,
        appid.push(' ') + tail,
        seq![appid] + (seq![verification] + seq![nouserok]),
    );
    lemma_words_of_more(
        file,
        origin.push(' ') + (appid.push(' ') + tail),
        seq![origin] + (seq![appid] + (seq![verification] + seq![nouserok])),
    );
    let whole = file.push(' ') + (origin.push(' ') + (appid.push(' ') + tail));
    assert(u2f_options(hostname) =~= whole) by {
        assert(" origin="@ + "pam://"@ =~= seq![' '] + "origin=pam://"@) by {
            reveal_strlit(" origin=");
            reveal_strlit("pam://");
            reveal_strlit("origin=pam://");
        }
        assert(" appid="@ + "pam://"@ =~= seq![' '] + "appid=pam://"@) by {
            reveal_strlit(" appid=");
            reveal_strlit("pam://");
            reveal_strlit("appid=pam://");
        }
        assert(" userverification=1 nouserok"@ =~= seq![' '] + tail) by {
            reveal_strlit(" userverification=1 nouserok");
            reveal_strlit("userverification=1");
            reveal_strlit("nouserok");
        }
        let first = file + (" origin="@ + "pam://"@) + hostname;
        assert(first =~= file.push(' ') + origin);
        let second = first + (" appid="@ + "pam://"@) + hostname;
        assert(second =~= file.push(' ') + (origin.push(' ') + appid));
        assert(u2f_options(hostname) =~= second + " userverification=1 nouserok"@);
    }
    assert(words_of(whole) =~= seq![file, origin, appid, verification, nouserok]);
}

/// How the line of a service begins.
proof fn lemma_line_head()
    ensures
        "-auth      sufficient   pam_passkey.so mode="@ == "-auth"@ + seq![' ', ' ', ' ', ' ', ' ', ' ']
            + "sufficient"@ + seq![' ', ' ', ' '] + "pam_passkey.so"@ + seq![' '] + "mode="@,
        " "@ == seq![' '],
{
    reveal_strlit("-auth      sufficient   pam_passkey.so mode=");
    reveal_strlit("-auth");
    reveal_strlit("sufficient");
    reveal_strlit("pam_passkey.so");
    reveal_strlit("mode=");
    reveal_strlit(" ");
    assert("-auth      sufficient   pam_passkey.so mode="@ =~= "-auth"@ + seq![
        ' ',
        ' ',
        ' ',
        ' ',
        ' ',
        ' ',
    ] + "sufficient"@ + seq![' ', ' ', ' '] + "pam_passkey.so"@ + seq![' '] + "mode="@);
    assert(" "@ =~= seq![' ']);
}

/// The words of three words with wide gaps, and of what follows them.
proof fn lemma_wide_words(
    kind: Seq<char>,
    control: Seq<char>,
    ours: Seq<char>,
    argument: Seq<char>,
    rest: Seq<char>,
)
    requires
        is_word(kind),
        is_word(control),
        is_word(ours),
        is_word(argument),
    ensures
        words_of(
            kind + seq![' ', ' ', ' ', ' ', ' ', ' '] + control + seq![' ', ' ', ' '] + ours + seq![
                ' ',
            ] + argument + seq![' '] + rest,
        ) == seq![kind, control, ours, argument] + words_of(rest),
{
    let from_mode = argument.push(' ') + rest;
    lemma_words_of_more(argument, rest, words_of(rest));
    let from_ours = ours.push(' ') + from_mode;
    lemma_words_of_more(ours, from_mode, words_of(from_mode));
    let space = seq![' '];
    let gap = space + (space + from_ours);
    lemma_words_of_indented(from_ours);
    lemma_words_of_indented(space + from_ours);
    let from_control = control.push(' ') + gap;
    lemma_words_of_more(control, gap, words_of(gap));
    let wide = space + (space + (space + (space + (space + from_control))));
    lemma_words_of_indented(from_control);
    lemma_words_of_indented(space + from_control);
    lemma_words_of_indented(space + (space + from_control));
    lemma_words_of_indented(space + (space + (space + from_control)));
    lemma_words_of_indented(space + (space + (space + (space + from_control))));
    lemma_words_of_more(kind, wide, words_of(wide));
    let whole = kind.push(' ') + wide;
    assert(whole =~= kind + seq![' ', ' ', ' ', ' ', ' ', ' '] + control + seq![' ', ' ', ' ']
        + ours + seq![' '] + argument + seq![' '] + rest);
    assert(words_of(whole) =~= seq![kind, control, ours, argument] + words_of(rest));
}

/// The words of the line of a service.
proof fn lemma_line_words(service: Seq<char>, hostname: Seq<char>)
    requires
        is_word(hostname),
    ensures
        words_of(pam_line_of(service, hostname, true, true)) == seq![
            "-auth"@,
            "sufficient"@,
            "pam_passkey.so"@,
        ] + line_arguments(service, hostname),
{
    let mode = if is_on_empty(service) {
        "on-empty"@
    } else {
        "parallel"@
    };
    let argument = "mode="@ + mode;
    let rest = u2f_options(hostname);
    let ours = "pam_passkey.so"@;
    let control = "sufficient"@;
    let kind = "-auth"@;
    assert(is_word(argument)) by {
        reveal_strlit("mode=");
        reveal_strlit("on-empty");
        reveal_strlit("parallel");
        reveal_with_fuel(solid, 10);
        lemma_solid(mode);
        lemma_word_of_two("mode="@, mode);
    }
    assert(is_word(ours)) by {
        reveal_strlit("pam_passkey.so");
        reveal_with_fuel(solid, 16);
        lemma_solid(ours);
    }
    assert(is_word(control)) by {
        reveal_strlit("sufficient");
        reveal_with_fuel(solid, 12);
        lemma_solid(control);
    }
    assert(is_word(kind)) by {
        reveal_strlit("-auth");
        reveal_with_fuel(solid, 7);
        lemma_solid(kind);
    }
    lemma_u2f_words(hostname);
    lemma_wide_words(kind, control, ours, argument, rest);
    let line = pam_line_of(service, hostname, true, true);
    assert(line == kind + seq![' ', ' ', ' ', ' ', ' ', ' '] + control + seq![' ', ' ', ' '] + ours
        + seq![' '] + argument + seq![' '] + rest) by {
        lemma_line_head();
        let before = kind + seq![' ', ' ', ' ', ' ', ' ', ' '] + control + seq![' ', ' ', ' '] + ours
            + seq![' '];
        assert(before + "mode="@ + mode =~= before + argument);
    }
    assert(words_of(line) =~= seq![kind, control, ours] + line_arguments(service, hostname));
}

/// What the module makes of the arguments on its line.
proof fn lemma_line_settings(service: Seq<char>, hostname: Seq<char>, helper: Seq<char>)
    ensures
        settings_of(helper, line_arguments(service, hostname)) == (Settings {
            on_empty: is_on_empty(service),
            helper,
            authfile: Some(KEYS@),
            handed_on: line_arguments(service, hostname).skip(1),
        }),
{
    reveal_strlit("mode=on-empty");
    reveal_strlit("mode=parallel");
    reveal_strlit("mode=");
    reveal_strlit("on-empty");
    reveal_strlit("parallel");
    reveal_strlit("helper=");
    reveal_strlit("authfile=");
    reveal_strlit("origin=pam://");
    reveal_strlit("appid=pam://");
    reveal_strlit("userverification=1");
    reveal_strlit("nouserok");
    let words = line_arguments(service, hostname);
    let none = Settings { on_empty: false, helper, authfile: None, handed_on: Seq::empty() };
    assert(words.take(0) =~= Seq::empty());
    assert(settings_of(helper, words.take(0)) == none);
    assert("mode="@ + "on-empty"@ =~= "mode=on-empty"@);
    assert("mode="@ + "parallel"@ =~= "mode=parallel"@);
    let first = Settings { on_empty: is_on_empty(service), ..none };
    assert(words.take(1).drop_last() =~= words.take(0));
    assert(settings_of(helper, words.take(1)) == first) by {
        assert("mode=parallel"@[5] == 'p' && "mode=on-empty"@[5] == 'o');
    }
    assert(words.take(2).drop_last() =~= words.take(1));
    let second = Settings { authfile: Some(KEYS@), handed_on: seq![words[1]], ..first };
    assert(settings_of(helper, words.take(2)) == second) by {
        assert(words[1][0] == 'a');
        assert("mode=on-empty"@[0] == 'm' && "mode=parallel"@[0] == 'm' && "helper="@[0] == 'h');
        assert(words[1].skip(9) =~= KEYS@);
        assert("authfile="@ =~= words[1].subrange(0, 9));
        assert(Seq::empty().push(words[1]) =~= seq![words[1]]);
    }
    assert forall|k: int| 2 <= k < 6 implies ({
        let word = #[trigger] words[k];
        &&& word != "mode=on-empty"@
        &&& word != "mode=parallel"@
        &&& !"helper="@.is_prefix_of(word)
        &&& !"authfile="@.is_prefix_of(word)
    }) by {
        let word = words[k];
        assert(k == 2 || k == 3 || k == 4 || k == 5);
        assert(word[0] == 'o' || (word[0] == 'a' && word[1] == 'p') || word[0] == 'u' || word[0]
            == 'n');
        assert("mode=on-empty"@[0] == 'm' && "mode=parallel"@[0] == 'm' && "helper="@[0] == 'h'
            && "authfile="@[0] == 'a' && "authfile="@[1] == 'u');
    }
    assert(words.take(3).drop_last() =~= words.take(2));
    let third = Settings { handed_on: second.handed_on.push(words[2]), ..second };
    assert(settings_of(helper, words.take(3)) == third);
    assert(words.take(4).drop_last() =~= words.take(3));
    let fourth = Settings { handed_on: third.handed_on.push(words[3]), ..third };
    assert(settings_of(helper, words.take(4)) == fourth);
    assert(words.take(5).drop_last() =~= words.take(4));
    let fifth = Settings { handed_on: fourth.handed_on.push(words[4]), ..fourth };
    assert(settings_of(helper, words.take(5)) == fifth);
    assert(words.take(6).drop_last() =~= words.take(5));
    let sixth = Settings { handed_on: fifth.handed_on.push(words[5]), ..fifth };
    assert(settings_of(helper, words.take(6)) == sixth);
    assert(words.take(6) =~= words);
    assert(sixth.handed_on =~= words.skip(1));
}

/// The module finds on the line that is written for a service what the line is to tell it:
/// the mode of the service, and our file of credentials.
pub proof fn law_module_reads_its_line(
    service: Seq<char>,
    hostname: Seq<char>,
    helper: Seq<char>,
)
    requires
        is_word(hostname),
    ensures
        ({
            let words = words_of(pam_line_of(service, hostname, true, true));
            &&& words.take(3) == seq!["-auth"@, "sufficient"@, "pam_passkey.so"@]
            &&& settings_of(helper, words.skip(3)) == (Settings {
                on_empty: is_on_empty(service),
                helper,
                authfile: Some(KEYS@),
                handed_on: words.skip(4),
            })
        }),
{
    lemma_line_words(service, hostname);
    lemma_line_settings(service, hostname, helper);
    let words = words_of(pam_line_of(service, hostname, true, true));
    assert(words.take(3) =~= seq!["-auth"@, "sufficient"@, "pam_passkey.so"@]);
    assert(words.skip(3) =~= line_arguments(service, hostname));
    assert(words.skip(4) =~= line_arguments(service, hostname).skip(1));
}

/// The phone counts as asked as often as asking was started: that raises the count by one, and
/// nothing else changes it.
pub proof fn law_tries_count_askings(session: Session, event: Event)
    requires
        session.wf(),
    ensures
        step(session, event).0.tries == session.tries + (if event == (Event::Asking {
            started: true,
        }) && session.due == Due::Asking {
            1int
        } else {
            0int
        }),
{
}

/// Enter alone asks the phone whenever it is not being asked and was asked fewer than three
/// times, whatever came before; and once asking has started the phone is being asked.
pub proof fn law_enter_asks_the_phone(session: Session)
    requires
        session.wf(),
        session.prompting,
        session.due == Due::Nothing,
        !session.asking,
    ensures
        ({
            let (after, action) = step(
                session,
                Event::Prompted { status: 0, typed: Typed::Empty },
            );
            let (asked, then) = step(after, Event::Asking { started: true });
            let (not, over) = step(after, Event::Asking { started: false });
            &&& session.tries < 3 ==> action == Action::Ask && after.due == Due::Asking && asked
                == (Session {
                prompting: false,
                asking: true,
                tries: (session.tries + 1) as u8,
                due: Due::Nothing,
            }) && then == Action::Wait && over == (Action::Finish { status: 25, prompting: false })
            &&& session.tries >= 3 ==> action == (Action::Finish { status: 25, prompting: false })
        }),
{
}

/// A refusal or a timeout while the user may type ends the asking and nothing else: Enter then
/// asks the phone again, where it was asked fewer than three times.
pub proof fn law_refused_phone_is_asked_again(session: Session, event: Event)
    requires
        session.wf(),
        session.prompting,
        session.due == Due::Nothing,
        session.asking,
        event == Event::Refused || event == Event::TimedOut || event == Event::Broken,
    ensures
        ({
            let (alone, action) = step(session, event);
            let again = step(alone, Event::Prompted { status: 0, typed: Typed::Empty }).1;
            &&& alone == (Session { asking: false, ..session })
            &&& action == Action::Wait
            &&& again == (if session.tries < 3 {
                Action::Ask
            } else {
                Action::Finish { status: 25, prompting: false }
            })
        }),
{
}

/// Where the user does not type any more, a refusal or a timeout ends the session and the next
/// module decides; and so does it where nobody is asked any more. What cannot be read ends
/// the asking only.
pub proof fn law_nobody_is_left_to_answer(session: Session)
    requires
        session.wf(),
        !session.prompting,
        session.due == Due::Nothing,
    ensures
        session.asking ==> step(session, Event::Refused).1 == (Action::Finish {
            status: 25,
            prompting: false,
        }),
        session.asking ==> step(session, Event::TimedOut).1 == (Action::Finish {
            status: 25,
            prompting: false,
        }),
        session.asking ==> step(session, Event::Broken) == (
            Session { asking: false, ..session },
            Action::Wait,
        ),
        !session.asking ==> step(session, Event::Nothing).1 == (Action::Finish {
            status: 25,
            prompting: false,
        }),
        session.asking ==> step(session, Event::Nothing) == (session, Action::Wait),
{
}

/// While the user may type, or the phone is asked, the session waits; Enter alone while the
/// phone is being asked leaves the phone to answer.
pub proof fn law_session_waits(session: Session)
    requires
        session.wf(),
        session.due == Due::Nothing,
        session.prompting,
    ensures
        step(session, Event::Nothing) == (session, Action::Wait),
        session.asking ==> step(session, Event::Prompted { status: 0, typed: Typed::Empty }) == (
            Session { prompting: false, ..session },
            Action::Wait,
        ),
{
}

/// A prompt that fails ends the session with its status, one that gives nothing back with a
/// failed conversation, and a password that cannot be handed on with the status of that; the
/// prompt does not stand any more in any of them.
pub proof fn law_failures_are_told(session: Session, status: i32, typed: Typed)
    requires
        session.wf(),
        status != 0,
    ensures
        session.prompting && session.due == Due::Nothing ==> {
            &&& step(session, Event::Prompted { status, typed }).1 == (Action::Finish {
                status,
                prompting: false,
            })
            &&& step(session, Event::Prompted { status: 0, typed: Typed::Nothing }).1 == (
            Action::Finish { status: 19, prompting: false })
            &&& step(session, Event::Prompted { status: 0, typed: Typed::Password }) == (
                Session { prompting: false, due: Due::HandedOn, ..session },
                Action::HandOn,
            )
        },
        session.due == Due::HandedOn ==> {
            &&& step(session, Event::HandedOn { status }).1 == (Action::Finish {
                status,
                prompting: session.prompting,
            })
            &&& step(session, Event::HandedOn { status: 0 }).1 == (Action::Finish {
                status: 25,
                prompting: session.prompting,
            })
        },
{
}

/// An event that is not waited for changes nothing: the phone's while it is not asked, the
/// prompt's when it is over, all but one while something else is due, and any after the end.
pub proof fn law_untimely_events_are_passed_over(session: Session, event: Event)
    requires
        ({
            ||| session.due == Due::End
            ||| session.due == Due::HandedOn && !(event is HandedOn)
            ||| session.due == Due::Asking && !(event is Asking)
            ||| session.due == Due::Nothing && (event is HandedOn || event is Asking)
            ||| !session.asking && (event is Approved || event is Refused || event is TimedOut
                || event is Broken)
            ||| !session.prompting && event is Prompted
        }),
    ensures
        step(session, event) == (session, Action::Wait),
{
}

/// Once a session says how it ends it is over, and it says so then only.
pub proof fn law_finish_is_the_end(session: Session, event: Event)
    ensures
        step(session, event).1 is Finish <==> session.due != Due::End && step(session, event).0.due
            == Due::End,
        step(session, event).1 == Action::HandOn <==> session.due != Due::HandedOn && step(
            session,
            event,
        ).0.due == Due::HandedOn,
        step(session, event).1 == Action::Ask <==> session.due != Due::Asking && step(
            session,
            event,
        ).0.due == Due::Asking,
{
}

/// The phone is asked only after an empty password exactly where the arguments say so, and
/// what is neither the mode nor the program is handed on, in its order.
pub proof fn law_arguments_are_read(helper: Seq<char>, arguments: Seq<Seq<char>>)
    ensures
        settings_of(helper, arguments).on_empty <==> arguments.contains("mode=on-empty"@),
        settings_of(helper, arguments).handed_on == arguments.filter(
            |argument: Seq<char>|
                argument != "mode=on-empty"@ && argument != "mode=parallel"@
                    && !"helper="@.is_prefix_of(argument),
        ),
    decreases arguments.len(),
{
    reveal(Seq::filter);
    let all = settings_of(helper, arguments);
    if arguments.len() > 0 {
        let init = arguments.drop_last();
        let last = arguments.last();
        law_arguments_are_read(helper, init);
        if init.contains("mode=on-empty"@) {
            let k = choose|k: int| 0 <= k < init.len() && init[k] == "mode=on-empty"@;
            assert(arguments[k] == "mode=on-empty"@);
        }
        if arguments.contains("mode=on-empty"@) {
            let k = choose|k: int| 0 <= k < arguments.len() && arguments[k] == "mode=on-empty"@;
            if k < init.len() {
                assert(init[k] == "mode=on-empty"@);
            }
        }
        if last == "mode=on-empty"@ {
            assert(arguments[arguments.len() - 1] == last);
        }
    } else {
        assert(all.handed_on =~= arguments.filter(
            |argument: Seq<char>|
                argument != "mode=on-empty"@ && argument != "mode=parallel"@
                    && !"helper="@.is_prefix_of(argument),
        ));
    }
}

/// The last argument that names the program, or the file of the credentials, counts; where
/// none does the program is the one that is known, and there is no file.
pub proof fn law_last_argument_counts(
    helper: Seq<char>,
    arguments: Seq<Seq<char>>,
    program: Seq<char>,
    file: Seq<char>,
    more: Seq<char>,
)
    ensures
        settings_of(helper, arguments.push("helper="@ + program)).helper == program,
        settings_of(helper, arguments.push("authfile="@ + file)).authfile == Some(file),
        !"helper="@.is_prefix_of(more) ==> settings_of(helper, arguments.push(more)).helper
            == settings_of(helper, arguments).helper,
        !"authfile="@.is_prefix_of(more) ==> settings_of(helper, arguments.push(more)).authfile
            == settings_of(helper, arguments).authfile,
        settings_of(helper, Seq::empty()).helper == helper,
        settings_of(helper, Seq::empty()).authfile is None,
{
    reveal_strlit("mode=on-empty");
    reveal_strlit("mode=parallel");
    reveal_strlit("helper=");
    reveal_strlit("authfile=");
    let named = "helper="@ + program;
    let filed = "authfile="@ + file;
    assert(arguments.push(named).drop_last() =~= arguments);
    assert(arguments.push(filed).drop_last() =~= arguments);
    assert(arguments.push(more).drop_last() =~= arguments);
    assert(named[0] == 'h' && filed[0] == 'a');
    assert("mode=on-empty"@[0] == 'm' && "mode=parallel"@[0] == 'm' && "helper="@[0] == 'h');
    assert(named.subrange(0, 7) =~= "helper="@);
    assert(named.skip(7) =~= program);
    assert(filed.subrange(0, 9) =~= "authfile="@);
    assert(filed.skip(9) =~= file);
    assert("authfile="@[0] == 'a');
}

/// Thirty-two arguments are read, the first.
pub proof fn law_arguments_that_are_read(arguments: Seq<Seq<char>>)
    ensures
        read_arguments(arguments).is_prefix_of(arguments),
        arguments.len() <= 32 ==> read_arguments(arguments).len() == arguments.len(),
        arguments.len() > 32 ==> read_arguments(arguments).len() == 32,
{
    assert(arguments.subrange(0, arguments.len() as int) =~= arguments);
}

/// What PAM and its modules have agreed on, and how long and how often a phone is asked. A message
/// is a question where an answer is typed, whether or not it is shown.
pub proof fn law_numbers_of_sessions(style: i32)
    ensures
        is_question(style) <==> style == 1 || style == 2,
        PAM_SUCCESS == 0,
        PAM_CONV_ERR == 19,
        PAM_IGNORE == 25,
        MAX_ARGS == 32,
        MAX_TRIES == 3,
        ASK_PARALLEL == 600,
        ASK_ON_EMPTY == 45,
{
}

/// The module is looked for in the directories of modules, in each under `/usr` first.
pub proof fn law_directories_of_modules(i: int)
    requires
        0 <= i < 4,
    ensures
        u2f_directories().len() == 8,
        u2f_directories()[2 * i] == "/usr"@ + u2f_directories()[2 * i + 1],
        u2f_directories()[1] == "/lib/security"@,
        u2f_directories()[3] == "/lib64/security"@,
        u2f_directories()[5] == "/lib/x86_64-linux-gnu/security"@,
        u2f_directories()[7] == "/lib/aarch64-linux-gnu/security"@,
{
    reveal_strlit("/usr");
    reveal_strlit("/usr/lib/security");
    reveal_strlit("/lib/security");
    reveal_strlit("/usr/lib64/security");
    reveal_strlit("/lib64/security");
    reveal_strlit("/usr/lib/x86_64-linux-gnu/security");
    reveal_strlit("/lib/x86_64-linux-gnu/security");
    reveal_strlit("/usr/lib/aarch64-linux-gnu/security");
    reveal_strlit("/lib/aarch64-linux-gnu/security");
    assert("/usr/lib/security"@ =~= "/usr"@ + "/lib/security"@);
    assert("/usr/lib64/security"@ =~= "/usr"@ + "/lib64/security"@);
    assert("/usr/lib/x86_64-linux-gnu/security"@ =~= "/usr"@ + "/lib/x86_64-linux-gnu/security"@);
    assert("/usr/lib/aarch64-linux-gnu/security"@ =~= "/usr"@ + "/lib/aarch64-linux-gnu/security"@);
}

} // verus!
