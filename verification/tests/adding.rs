use passkey::adding::{Action, Adding, Event, Outcome, Stage, NO_DEVICE, PAUSE, WAIT};

fn looked(found: bool, waited: u64) -> Event {
    Event::Looked { found, waited }
}

fn finish(outcome: Outcome, clear: bool) -> Action {
    Action::Finish { outcome, clear }
}

/// What is done after each event.
fn actions(events: &[Event]) -> Vec<Action> {
    let (mut adding, first) = Adding::new();
    let mut all = vec![first];
    for event in events {
        all.push(adding.handle(*event));
    }
    all
}

const CONNECTED: [Event; 4] = [
    Event::Checked(true),
    Event::Configured(true),
    Event::Looked { found: true, waited: 10 },
    Event::Looked { found: true, waited: 20 },
];

fn after_connecting(events: &[Event]) -> Vec<Action> {
    let mut all = CONNECTED.to_vec();
    all.extend_from_slice(events);
    actions(&all).split_off(CONNECTED.len())
}

#[test]
fn phone_is_registered() {
    assert_eq!(
        actions(&[
            Event::Checked(true),
            Event::Configured(true),
            looked(true, 0),
            looked(true, 0),
            Event::Selected,
            Event::Used(true),
            Event::Named(true),
            Event::Registered(true),
            Event::Stored(true),
        ]),
        [
            Action::Check,
            Action::Configure,
            Action::Look,
            Action::Look,
            Action::Select,
            Action::Use,
            Action::Name,
            Action::Register,
            Action::Store,
            finish(Outcome::Registered, true),
        ]
    );
}

#[test]
fn phone_that_is_not_listed_is_registered() {
    assert_eq!(
        after_connecting(&[
            Event::Unlisted,
            Event::Named(true),
            Event::Registered(true),
            Event::Stored(true),
        ]),
        [
            Action::Select,
            Action::Name,
            Action::Register,
            Action::Store,
            finish(Outcome::Registered, false),
        ]
    );
}

#[test]
fn failures_end_it() {
    let failed = finish(Outcome::Failed, false);
    assert_eq!(actions(&[Event::Checked(false)]), [Action::Check, failed]);
    assert_eq!(
        actions(&[Event::Checked(true), Event::Configured(false)]),
        [Action::Check, Action::Configure, failed]
    );
    assert_eq!(after_connecting(&[Event::Unselected]), [Action::Select, failed]);
    assert_eq!(
        after_connecting(&[Event::Selected, Event::Used(false)]),
        [Action::Select, Action::Use, failed]
    );
    assert_eq!(
        after_connecting(&[Event::Unlisted, Event::Named(false)]),
        [Action::Select, Action::Name, failed]
    );
}

#[test]
fn chosen_phone_is_given_up() {
    let failed = finish(Outcome::Failed, true);
    assert_eq!(
        after_connecting(&[Event::Selected, Event::Used(true), Event::Named(false)])[3],
        failed
    );
    assert_eq!(
        after_connecting(&[
            Event::Selected,
            Event::Used(true),
            Event::Named(true),
            Event::Registered(false),
        ])[4],
        failed
    );
    assert_eq!(
        after_connecting(&[
            Event::Selected,
            Event::Used(true),
            Event::Named(true),
            Event::Registered(true),
            Event::Stored(false),
        ])[5],
        failed
    );
}

#[test]
fn phone_is_waited_for() {
    assert_eq!(WAIT, 90_000);
    assert_eq!(PAUSE, 2_000);
    assert_eq!(NO_DEVICE, "no device appeared");
    assert_eq!(
        actions(&[
            Event::Checked(true),
            Event::Configured(true),
            looked(false, 0),
            looked(false, 89_999),
            looked(false, 90_000),
            looked(false, 90_001),
        ]),
        [
            Action::Check,
            Action::Configure,
            Action::Look,
            Action::Pause,
            Action::Pause,
            Action::Look,
            finish(Outcome::NoDevice, false),
        ]
    );
    // It appears at the last moment, or goes again.
    let late = [Event::Checked(true), Event::Configured(true), looked(false, 95_000), looked(true, 95_000)];
    assert_eq!(actions(&late)[4], Action::Select);
    let gone = [Event::Checked(true), Event::Configured(true), looked(true, 1), looked(false, 2)];
    assert_eq!(actions(&gone)[4], finish(Outcome::NoDevice, false));
}

#[test]
fn configured_before_registered() {
    let (mut adding, _) = Adding::new();
    for event in [
        Event::Configured(true),
        looked(true, 0),
        Event::Selected,
        Event::Named(true),
        Event::Registered(true),
        Event::Stored(true),
    ] {
        assert_eq!(adding.handle(event), Action::Nothing);
        assert_eq!(adding.stage, Stage::Check);
    }
}

#[test]
fn nothing_follows_the_end() {
    let (mut adding, _) = Adding::new();
    adding.handle(Event::Checked(false));
    assert_eq!(adding.stage, Stage::End);
    for event in CONNECTED {
        assert_eq!(adding.handle(event), Action::Nothing);
    }
    assert_eq!(adding.stage, Stage::End);
}
