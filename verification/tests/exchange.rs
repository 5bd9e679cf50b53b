use passkey::exchange::{
    beat_is_due, final_error, rounds, Exchange, FanOut, Memory, Step, Win, GET_INFO,
    GET_NEXT_ASSERTION, NO_CREDENTIALS, OPERATION_DENIED,
};

const GET_ASSERTION: u8 = 2;
const MAKE_CREDENTIAL: u8 = 1;

fn names(list: &[&str]) -> Vec<String> {
    list.iter().map(|name| name.to_string()).collect()
}

fn memory(holders: &[&str], last: Option<&str>) -> Memory {
    Memory {
        holders: names(holders),
        last: last.map(|last| last.to_string()),
    }
}

#[test]
fn every_phone_is_asked() {
    let devices = names(&["A", "B", "C"]);
    let nothing = Memory::new();
    assert_eq!(rounds(&devices, None, MAKE_CREDENTIAL, &nothing), [[0, 1, 2]]);
    assert_eq!(rounds(&devices, None, GET_ASSERTION, &nothing), [[0, 1, 2]]);
    let holding = memory(&["B", "Z"], Some("B"));
    assert_eq!(rounds(&devices, None, GET_ASSERTION, &holding), [[0, 1, 2]]);
    assert_eq!(rounds(&devices, None, MAKE_CREDENTIAL, &holding), [[0, 1, 2]]);
    let mut exchange = Exchange::new(rounds(&devices, None, GET_ASSERTION, &holding));
    assert!(matches!(exchange.next(), Step::Ask(targets) if targets == [0, 1, 2]));
    assert!(matches!(exchange.next(), Step::Reply(error) if error == [0x7f]));
}

#[test]
fn some_requests_go_to_one_phone() {
    let devices = names(&["A", "B"]);
    let nothing = Memory::new();
    let empty: Vec<Vec<usize>> = vec![Vec::new()];
    assert_eq!(rounds(&devices, None, GET_INFO, &nothing), [[0]]);
    assert_eq!(rounds(&Vec::new(), None, GET_INFO, &nothing), empty);
    assert_eq!(rounds(&devices, None, GET_NEXT_ASSERTION, &nothing), empty);
    assert_eq!(
        rounds(&devices, None, GET_NEXT_ASSERTION, &memory(&[], Some("B"))),
        [[1]]
    );
    assert_eq!(
        rounds(&devices, None, GET_NEXT_ASSERTION, &memory(&[], Some("Z"))),
        empty
    );
}

#[test]
fn chosen_phone_is_asked_alone() {
    let devices = names(&["A", "B"]);
    for command in [GET_INFO, GET_ASSERTION, MAKE_CREDENTIAL] {
        assert_eq!(rounds(&devices, Some("B"), command, &memory(&["A"], None)), [[1]]);
    }
    let empty: Vec<Vec<usize>> = vec![Vec::new()];
    assert_eq!(rounds(&devices, Some("Z"), GET_INFO, &Memory::new()), empty);
}

#[test]
fn first_answer_counts() {
    let mut round = FanOut::new(7, false, vec![0, 1, 2]);
    assert!(round.waiting(true, true));
    round.answer(1, 6, vec![0]);
    assert_eq!(round.pending, [0, 1, 2]);
    round.answer(2, 7, vec![0x2e]);
    assert!(round.waiting(true, true));
    round.answer(1, 7, vec![0, 9]);
    assert!(!round.waiting(true, true));
    round.answer(0, 7, vec![0, 8]);
    assert_eq!(round.wins.len(), 1);
    assert_eq!(round.wins[0].link, 1);
    assert_eq!(round.wins[0].payload, [0, 9]);
    assert_eq!(round.errors, [[0x2e]]);
    assert_eq!(round.pending, [0]);
    assert_eq!(Exchange::new(Vec::new()).heard(round), Some(vec![0, 9]));
}

#[test]
fn refusal_decides() {
    let mut round = FanOut::new(7, false, vec![0, 1]);
    round.answer(0, 7, vec![OPERATION_DENIED]);
    assert!(round.done);
    assert!(round.wins.is_empty());
    let mut probe = FanOut::new(7, true, vec![0, 1]);
    probe.answer(0, 7, vec![OPERATION_DENIED]);
    assert!(probe.waiting(true, true));
}

#[test]
fn probe_waits_for_all() {
    let mut round = FanOut::new(7, true, vec![4, 5, 6]);
    round.answer(4, 7, vec![0, 1]);
    assert!(round.waiting(true, true));
    round.answer(6, 7, vec![0, 2]);
    round.answer(5, 7, Vec::new());
    assert!(!round.waiting(true, true));
    assert_eq!(round.wins.len() + round.errors.len(), 3);
    assert_eq!(round.errors, [[0x7f]]);
}

#[test]
fn links_that_end_have_failed() {
    let mut round = FanOut::new(7, false, vec![0, 1]);
    round.answer(0, 0, Vec::new());
    assert_eq!(round.pending, [1]);
    assert_eq!(round.errors, [[0x7f]]);
    round.answer(0, 7, vec![0]);
    assert!(round.wins.is_empty());
    assert!(!round.waiting(false, true));
    assert!(!round.waiting(true, false));
}

#[test]
fn rounds_follow_each_other() {
    let mut exchange = Exchange::new(vec![Vec::new(), vec![1], Vec::new(), vec![0, 2]]);
    assert!(matches!(exchange.next(), Step::Ask(targets) if targets == [1]));
    let mut round = FanOut::new(1, false, vec![1]);
    round.answer(1, 1, vec![NO_CREDENTIALS]);
    assert_eq!(exchange.heard(round), None);
    assert!(matches!(exchange.next(), Step::Ask(targets) if targets == [0, 2]));
    let mut round = FanOut::new(1, false, vec![0, 2]);
    round.answer(2, 1, vec![0, 5]);
    assert_eq!(exchange.heard(round), Some(vec![0, 5]));
}

#[test]
fn rounds_stop_at_an_error() {
    let mut exchange = Exchange::new(vec![vec![1], vec![0]]);
    assert!(matches!(exchange.next(), Step::Ask(targets) if targets == [1]));
    let mut round = FanOut::new(1, false, vec![1]);
    round.answer(1, 1, vec![0x31]);
    assert_eq!(exchange.heard(round), None);
    assert!(matches!(exchange.next(), Step::Reply(error) if error == [0x31]));
    let mut nobody = Exchange::new(vec![Vec::new()]);
    assert!(matches!(nobody.next(), Step::Reply(error) if error == [0x7f]));
}

#[test]
fn no_credentials_means_everybody() {
    assert_eq!(final_error(&vec![vec![0x2e], vec![0x31], vec![0x30]]), [0x31]);
    assert_eq!(final_error(&vec![vec![0x2e], vec![0x2e, 1]]), [0x2e]);
    assert_eq!(final_error(&vec![vec![0x2e], Vec::new()]), []);
    assert_eq!(final_error(&Vec::new()), [0x7f]);
}

#[test]
fn assertions_are_remembered() {
    let devices = names(&["A", "B"]);
    let wins = vec![
        Win { link: 1, payload: vec![0] },
        Win { link: 0, payload: vec![0] },
    ];
    let mut memory = Memory::new();
    memory.remember(MAKE_CREDENTIAL, true, &wins, &devices);
    assert_eq!(memory.last, None);
    memory.remember(GET_ASSERTION, false, &wins, &devices);
    assert_eq!(memory.last.as_deref(), Some("B"));
    assert!(memory.holders.is_empty());
    memory.remember(GET_ASSERTION, true, &wins, &devices);
    assert_eq!(memory.holders, ["B", "A"]);
}

#[test]
fn host_is_told_to_wait() {
    assert!(beat_is_due(false, 100));
    assert!(!beat_is_due(false, 99));
    assert!(!beat_is_due(true, 1000));
}
