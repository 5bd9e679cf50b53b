//! Registering a phone, step by step.

use vstd::prelude::*;

verus! {

/// How long a phone is waited for, in milliseconds.
pub const WAIT: u64 = 90_000;

/// How long to pause before the virtual security key is looked for again, in milliseconds.
pub const PAUSE: u64 = 2_000;

/// What is said where no phone appears.
pub const NO_DEVICE: &'static str = "no device appeared";

/// What is under way.
#[derive(Debug, Clone, Copy, PartialEq, Eq, Structural)]
pub enum Stage {
    /// Whether this computer has what it needs is checked.
    Check,
    /// The service and PAM are configured.
    Configure,
    /// A phone is waited for.
    Wait,
    /// The waiting is over, and the virtual security key is looked for once more.
    Confirm,
    /// The phone that is meant is selected.
    Select,
    /// The service is told to use that phone only.
    Use,
    /// The phone gets a name.
    Name,
    /// The phone makes a credential.
    Register,
    /// The credential is stored.
    Store,
    /// It is over.
    End,
}

/// What has come of what was under way.
#[derive(Debug, Clone, Copy, PartialEq, Eq, Structural)]
pub enum Event {
    /// The check is done, and whether this computer passes.
    Checked(bool),
    /// The configuration is done, and whether it succeeded.
    Configured(bool),
    /// The virtual security key was looked for.
    Looked {
        /// Whether it is there.
        found: bool,
        /// How long it was waited for, in milliseconds.
        waited: u64,
    },
    /// One of the phones that are connected is selected.
    Selected,
    /// No phone is listed, and none has to be selected.
    Unlisted,
    /// It cannot be told which phone is meant.
    Unselected,
    /// The service was told to use one phone, and whether that succeeded.
    Used(bool),
    /// The phone has a name, or none can be had.
    Named(bool),
    /// The phone has made a credential, or has not.
    Registered(bool),
    /// The credential was handed over to be stored, and whether that succeeded.
    Stored(bool),
}

/// How it ends.
#[derive(Debug, Clone, Copy, PartialEq, Eq, Structural)]
pub enum Outcome {
    /// The phone is registered.
    Registered,
    /// No phone has appeared.
    NoDevice,
    /// What was under way last has failed, and says why.
    Failed,
}

/// What to do next.
#[derive(Debug, Clone, Copy, PartialEq, Eq, Structural)]
pub enum Action {
    /// Check whether this computer has what it needs.
    Check,
    /// Configure the service and PAM.
    Configure,
    /// Look for the virtual security key.
    Look,
    /// Pause, and look for the virtual security key again.
    Pause,
    /// Select the phone that is meant.
    Select,
    /// Tell the service to use that phone only.
    Use,
    /// Give the phone a name.
    Name,
    /// Have the phone make a credential.
    Register,
    /// Store the credential.
    Store,
    /// End; and tell the service to use all phones again, where it was told otherwise.
    Finish {
        /// How it ends.
        outcome: Outcome,
        /// Whether the service uses one phone only.
        clear: bool,
    },
    /// Nothing: the event belongs to something else.
    Nothing,
}

/// A registration under way.
#[derive(Debug, Clone, Copy, PartialEq, Eq, Structural)]
pub struct Adding {
    /// What is under way.
    pub stage: Stage,
    /// Whether the service uses one phone only.
    pub using: bool,
}

/// The registration before its first step.
pub open spec fn start() -> Adding {
    Adding { stage: Stage::Check, using: false }
}

/// The registration is over.
pub open spec fn ended(adding: Adding, outcome: Outcome) -> (Adding, Action) {
    (
        Adding { stage: Stage::End, ..adding },
        Action::Finish { outcome, clear: adding.using },
    )
}

/// The registration goes on, or fails.
pub open spec fn went(adding: Adding, ok: bool, next: Stage, action: Action) -> (Adding, Action) {
    if ok {
        (Adding { stage: next, ..adding }, action)
    } else {
        ended(adding, Outcome::Failed)
    }
}

/// The registration after an event, and what to do. Each step follows the one before it only
/// if that succeeded. The virtual security key is looked for until it is there, or was waited
/// for long enough, and then once more.
pub open spec fn step(adding: Adding, event: Event) -> (Adding, Action) {
    match (adding.stage, event) {
        (Stage::Check, Event::Checked(ok)) => went(
            adding,
            ok,
            Stage::Configure,
            Action::Configure,
        ),
        (Stage::Configure, Event::Configured(ok)) => went(adding, ok, Stage::Wait, Action::Look),
        (Stage::Wait, Event::Looked { found, waited }) => if found || waited >= WAIT {
            (Adding { stage: Stage::Confirm, ..adding }, Action::Look)
        } else {
            (adding, Action::Pause)
        },
        (Stage::Confirm, Event::Looked { found, .. }) => if found {
            (Adding { stage: Stage::Select, ..adding }, Action::Select)
        } else {
            ended(adding, Outcome::NoDevice)
        },
        (Stage::Select, Event::Selected) => (
            Adding { stage: Stage::Use, ..adding },
            Action::Use,
        ),
        (Stage::Select, Event::Unlisted) => (
            Adding { stage: Stage::Name, ..adding },
            Action::Name,
        ),
        (Stage::Select, Event::Unselected) => ended(adding, Outcome::Failed),
        (Stage::Use, Event::Used(ok)) => if ok {
            (Adding { stage: Stage::Name, using: true }, Action::Name)
        } else {
            ended(adding, Outcome::Failed)
        },
        (Stage::Name, Event::Named(ok)) => went(adding, ok, Stage::Register, Action::Register),
        (Stage::Register, Event::Registered(ok)) => went(adding, ok, Stage::Store, Action::Store),
        (Stage::Store, Event::Stored(ok)) => if ok {
            ended(adding, Outcome::Registered)
        } else {
            ended(adding, Outcome::Failed)
        },
        _ => (adding, Action::Nothing),
    }
}

impl Adding {
    /// The registration before its first step; the first thing to do is the check.
    pub fn new() -> (begun: (Adding, Action))
        ensures
            begun == (start(), Action::Check),
    {
        (Adding { stage: Stage::Check, using: false }, Action::Check)
    }

    /// Ends the registration.
    fn end(&mut self, outcome: Outcome) -> (action: Action)
        ensures
            (*final(self), action) == ended(*old(self), outcome),
    {
        self.stage = Stage::End;
        Action::Finish { outcome, clear: self.using }
    }

    /// Goes on, or fails.
    fn go(&mut self, ok: bool, next: Stage, action: Action) -> (done: Action)
        ensures
            (*final(self), done) == went(*old(self), ok, next, action),
    {
        if ok {
            self.stage = next;
            action
        } else {
            self.end(Outcome::Failed)
        }
    }

    /// Acts on an event.
    pub fn handle(&mut self, event: Event) -> (action: Action)
        ensures
            (*final(self), action) == step(*old(self), event),
    {
        match (self.stage, event) {
            (Stage::Check, Event::Checked(ok)) => self.go(ok, Stage::Configure, Action::Configure),
            (Stage::Configure, Event::Configured(ok)) => self.go(ok, Stage::Wait, Action::Look),
            (Stage::Wait, Event::Looked { found, waited }) => {
                if found || waited >= WAIT {
                    self.stage = Stage::Confirm;
                    Action::Look
                } else {
                    Action::Pause
                }
            },
            (Stage::Confirm, Event::Looked { found, .. }) => {
                if found {
                    self.stage = Stage::Select;
                    Action::Select
                } else {
                    self.end(Outcome::NoDevice)
                }
            },
            (Stage::Select, Event::Selected) => {
                self.stage = Stage::Use;
                Action::Use
            },
            (Stage::Select, Event::Unlisted) => {
                self.stage = Stage::Name;
                Action::Name
            },
            (Stage::Select, Event::Unselected) => self.end(Outcome::Failed),
            (Stage::Use, Event::Used(ok)) => {
                if ok {
                    self.using = true;
                    self.stage = Stage::Name;
                    Action::Name
                } else {
                    self.end(Outcome::Failed)
                }
            },
            (Stage::Name, Event::Named(ok)) => self.go(ok, Stage::Register, Action::Register),
            (Stage::Register, Event::Registered(ok)) => self.go(ok, Stage::Store, Action::Store),
            (Stage::Store, Event::Stored(ok)) => {
                if ok {
                    self.end(Outcome::Registered)
                } else {
                    self.end(Outcome::Failed)
                }
            },
            _ => Action::Nothing,
        }
    }
}

// ---------------------------------------------------------------------------
// Laws
// ---------------------------------------------------------------------------

/// A registration after events, one after the other.
pub open spec fn run(events: Seq<Event>) -> Adding
    decreases events.len(),
{
    if events.len() == 0 {
        start()
    } else {
        step(run(events.drop_last()), events.last()).0
    }
}

/// The check succeeded, and the configuration after it.
pub open spec fn configured(events: Seq<Event>) -> bool {
    exists|i: int, j: int|
        0 <= i < j < events.len() && #[trigger] events[i] == Event::Checked(true)
            && #[trigger] events[j] == Event::Configured(true)
}

/// The stages after the configuration.
spec fn is_late(stage: Stage) -> bool {
    stage != Stage::Check && stage != Stage::Configure && stage != Stage::End
}

/// What has happened by the time of a stage.
proof fn lemma_history(events: Seq<Event>)
    ensures
        run(events).stage == Stage::Configure ==> events.contains(Event::Checked(true)),
        is_late(run(events).stage) ==> configured(events),
        run(events).stage == Stage::Register || run(events).stage == Stage::Store
            ==> events.contains(Event::Named(true)),
    decreases events.len(),
{
    if events.len() > 0 {
        let init = events.drop_last();
        let last = events.last();
        lemma_history(init);
        assert forall|event: Event| init.contains(event) || event == last implies events.contains(
            event,
        ) by {
            if init.contains(event) {
                let k = choose|k: int| 0 <= k < init.len() && init[k] == event;
                assert(events[k] == event);
            } else {
                assert(events[events.len() - 1] == event);
            }
        }
        if is_late(run(events).stage) {
            if is_late(run(init).stage) {
                let (i, j) = choose|i: int, j: int|
                    0 <= i < j < init.len() && #[trigger] init[i] == Event::Checked(true)
                        && #[trigger] init[j] == Event::Configured(true);
                assert(events[i] == init[i] && events[j] == init[j]);
            } else {
                assert(last == Event::Configured(true));
                let i = choose|i: int| 0 <= i < init.len() && init[i] == Event::Checked(true);
                assert(events[i] == Event::Checked(true));
                assert(events[events.len() - 1] == Event::Configured(true));
            }
        }
    }
}

/// The service and PAM are configured before the phone is registered: a credential is made,
/// and is stored, only after the check succeeded and then the configuration. It is stored only
/// after it was made, under a name.
pub proof fn law_configured_before_registered(events: Seq<Event>, event: Event)
    ensures
        step(run(events), event).1 == Action::Register ==> configured(events),
        step(run(events), event).1 == Action::Store ==> {
            &&& configured(events)
            &&& events.contains(Event::Named(true))
            &&& event == Event::Registered(true)
        },
{
    lemma_history(events);
}

/// Whatever fails ends it, with nothing stored after that: once it is over nothing is done.
pub proof fn law_nothing_follows_the_end(adding: Adding, event: Event)
    requires
        adding.stage == Stage::End,
    ensures
        step(adding, event) == (adding, Action::Nothing),
{
}

/// It succeeds only when the credential was stored.
pub proof fn law_registered_means_stored(adding: Adding, event: Event)
    ensures
        step(adding, event).1 matches Action::Finish { outcome, .. } ==> (outcome
            == Outcome::Registered <==> adding.stage == Stage::Store && event == Event::Stored(
            true,
        )),
{
}

/// The service is told to use all phones again at the end exactly where it was told to use
/// one.
pub proof fn law_chosen_phone_is_given_up(adding: Adding, event: Event)
    ensures
        step(adding, event).0.using == (adding.using || (adding.stage == Stage::Use && event
            == Event::Used(true))),
        step(adding, event).1 matches Action::Finish { clear, .. } ==> clear == adding.using,
{
}

/// A phone is waited for as long as it is to be: the waiting goes on exactly while the
/// virtual security key is not there and the time is not over.
pub proof fn law_waiting_has_an_end(adding: Adding, found: bool, waited: u64)
    requires
        adding.stage == Stage::Wait,
    ensures
        step(adding, Event::Looked { found, waited }).1 == Action::Pause <==> !found && waited
            < WAIT,
{
}

/// An event is about what is under way.
pub open spec fn concerns(stage: Stage, event: Event) -> bool {
    match event {
        Event::Checked(_) => stage == Stage::Check,
        Event::Configured(_) => stage == Stage::Configure,
        Event::Looked { .. } => stage == Stage::Wait || stage == Stage::Confirm,
        Event::Selected | Event::Unlisted | Event::Unselected => stage == Stage::Select,
        Event::Used(_) => stage == Stage::Use,
        Event::Named(_) => stage == Stage::Name,
        Event::Registered(_) => stage == Stage::Register,
        Event::Stored(_) => stage == Stage::Store,
    }
}

/// An event tells of something that has failed.
pub open spec fn is_failure(event: Event) -> bool {
    ||| event == Event::Checked(false)
    ||| event == Event::Configured(false)
    ||| event == Event::Unselected
    ||| event == Event::Used(false)
    ||| event == Event::Named(false)
    ||| event == Event::Registered(false)
    ||| event == Event::Stored(false)
}

/// What is about something else than what is under way changes nothing; what fails ends the
/// registration at once; and whatever else there is has it go on.
pub proof fn law_failures_end_it(adding: Adding, event: Event)
    ensures
        !concerns(adding.stage, event) ==> step(adding, event) == (adding, Action::Nothing),
        concerns(adding.stage, event) && is_failure(event) ==> {
            &&& step(adding, event).0.stage == Stage::End
            &&& step(adding, event).1 == (Action::Finish {
                outcome: Outcome::Failed,
                clear: adding.using,
            })
        },
        concerns(adding.stage, event) && !is_failure(event) ==> {
            &&& step(adding, event).1 != Action::Nothing
            &&& step(adding, event).1 matches Action::Finish { outcome, .. } ==> outcome
                != Outcome::Failed
        },
{
}

/// What is asked for is what is then under way: each event that comes of an action is about the
/// stage that the registration has reached with it.
pub proof fn law_what_is_asked_is_under_way(adding: Adding, event: Event)
    ensures
        ({
            let next = step(adding, event).0.stage;
            match step(adding, event).1 {
                Action::Check => next == Stage::Check,
                Action::Configure => next == Stage::Configure,
                Action::Look => next == Stage::Wait || next == Stage::Confirm,
                Action::Pause => next == Stage::Wait,
                Action::Select => next == Stage::Select,
                Action::Use => next == Stage::Use,
                Action::Name => next == Stage::Name,
                Action::Register => next == Stage::Register,
                Action::Store => next == Stage::Store,
                Action::Finish { .. } => next == Stage::End,
                Action::Nothing => next == adding.stage,
            }
        }),
{
}

/// Looks that do not find the virtual security key, each before the waiting is over.
pub open spec fn looks(times: Seq<u64>) -> Seq<Event> {
    times.map_values(|waited: u64| Event::Looked { found: false, waited })
}

/// What comes before a phone is selected where nothing fails: the check, the configuration, looks
/// in vain for less than ninety seconds, and then two that find the virtual security key; the first
/// of them may also come too late to find it.
pub open spec fn until_selected(times: Seq<u64>, found: bool, waited: u64, again: u64) -> Seq<Event> {
    seq![Event::Checked(true), Event::Configured(true)] + looks(times) + seq![
        Event::Looked { found, waited },
        Event::Looked { found: true, waited: again },
    ]
}

/// A registration after more events.
proof fn lemma_run_one_more(events: Seq<Event>, event: Event)
    ensures
        run(events.push(event)) == step(run(events), event).0,
{
    assert(events.push(event).drop_last() =~= events);
}

/// While a phone is waited for, looks in vain change nothing.
proof fn lemma_looks(times: Seq<u64>)
    requires
        forall|i: int| 0 <= i < times.len() ==> (#[trigger] times[i]) < 90_000,
    ensures
        run(seq![Event::Checked(true), Event::Configured(true)] + looks(times)) == (Adding {
            stage: Stage::Wait,
            using: false,
        }),
    decreases times.len(),
{
    let first = seq![Event::Checked(true), Event::Configured(true)];
    if times.len() == 0 {
        assert(first + looks(times) =~= Seq::<Event>::empty().push(Event::Checked(true)).push(
            Event::Configured(true),
        ));
        lemma_run_one_more(Seq::empty(), Event::Checked(true));
        lemma_run_one_more(
            Seq::<Event>::empty().push(Event::Checked(true)),
            Event::Configured(true),
        );
    } else {
        let init = times.drop_last();
        lemma_looks(init);
        assert(times[times.len() - 1] < 90_000);
        let last = Event::Looked { found: false, waited: times.last() };
        assert(first + looks(times) =~= (first + looks(init)).push(last));
        lemma_run_one_more(first + looks(init), last);
    }
}

/// A registration in which nothing fails: after the check and the configuration a phone is waited
/// for as long as it takes, up to ninety seconds, and looked for once more. Where one is selected
/// the service is told so. It gets a name, makes a credential, which is stored, and then it is
/// registered.
pub proof fn law_registration_succeeds(times: Seq<u64>, found: bool, waited: u64, again: u64)
    requires
        forall|i: int| 0 <= i < times.len() ==> (#[trigger] times[i]) < 90_000,
        found || waited >= 90_000,
    ensures
        ({
            let selecting = run(until_selected(times, found, waited, again));
            let used = step(step(selecting, Event::Selected).0, Event::Used(true));
            let unlisted = step(selecting, Event::Unlisted);
            &&& selecting == Adding { stage: Stage::Select, using: false }
            &&& used == (Adding { stage: Stage::Name, using: true }, Action::Name)
            &&& unlisted == (Adding { stage: Stage::Name, using: false }, Action::Name)
        }),
        forall|naming: Adding|
            naming.stage == Stage::Name ==> {
                let making = step(naming, Event::Named(true));
                let made = step(making.0, Event::Registered(true));
                let stored = step(made.0, Event::Stored(true));
                &&& #[trigger] step(naming, Event::Named(true)).1 == Action::Register
                &&& made.1 == Action::Store
                &&& stored.1 == Action::Finish { outcome: Outcome::Registered, clear: naming.using }
            },
{
    let first = seq![Event::Checked(true), Event::Configured(true)];
    let one = Event::Looked { found, waited };
    let two = Event::Looked { found: true, waited: again };
    lemma_looks(times);
    assert(until_selected(times, found, waited, again) =~= (first + looks(times)).push(one).push(
        two,
    ));
    lemma_run_one_more(first + looks(times), one);
    lemma_run_one_more((first + looks(times)).push(one), two);
}

/// Where the last look finds nothing, no phone has appeared, and that is how it ends.
pub proof fn law_no_phone_appears(times: Seq<u64>, found: bool, waited: u64, again: u64)
    requires
        forall|i: int| 0 <= i < times.len() ==> (#[trigger] times[i]) < 90_000,
        found || waited >= 90_000,
    ensures
        ({
            let events = seq![Event::Checked(true), Event::Configured(true)] + looks(times) + seq![
                Event::Looked { found, waited },
            ];
            step(run(events), Event::Looked { found: false, waited: again }).1 == Action::Finish {
                outcome: Outcome::NoDevice,
                clear: false,
            }
        }),
        WAIT == 90_000,
        PAUSE == 2_000,
{
    let first = seq![Event::Checked(true), Event::Configured(true)];
    let one = Event::Looked { found, waited };
    lemma_looks(times);
    assert(first + looks(times) + seq![one] =~= (first + looks(times)).push(one));
    lemma_run_one_more(first + looks(times), one);
}

} // verus!
