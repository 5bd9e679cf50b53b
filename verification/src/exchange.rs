//! A request to the phones: whom it goes to, and which answer counts.

use vstd::prelude::*;
use vstd::string::*;

use crate::cbor::GET_ASSERTION;
use crate::hid::CTAP2_ERR_OTHER;
use crate::text::{opt_view, same};

verus! {

/// What an authenticator is and can.
pub const GET_INFO: u8 = 0x04;

/// The next of several assertions.
pub const GET_NEXT_ASSERTION: u8 = 0x08;

/// The answer of a user who refuses.
pub const OPERATION_DENIED: u8 = 0x27;

/// The answer of a phone that has no credential for the request.
pub const NO_CREDENTIALS: u8 = 0x2e;

/// How long nothing is heard before the host is told to wait on, in milliseconds.
pub const BEAT: u64 = 100;

// ---------------------------------------------------------------------------
// Whom a request goes to
// ---------------------------------------------------------------------------

/// The positions of a phone.
pub open spec fn selected(devices: Seq<Seq<char>>, device: Seq<char>) -> Seq<usize>
    decreases devices.len(),
{
    if devices.len() == 0 {
        Seq::empty()
    } else {
        let before = selected(devices.drop_last(), device);
        if devices.last() == device {
            before.push((devices.len() - 1) as usize)
        } else {
            before
        }
    }
}

/// The positions of all phones.
pub open spec fn everyone(devices: Seq<Seq<char>>) -> Seq<usize> {
    Seq::new(devices.len(), |i: int| i as usize)
}

/// The positions of the phones that are asked, one round after the other. A phone that a
/// program has chosen is the only one. What the authenticator is and can is asked of one
/// phone, and the next assertion of the phone that gave the last. All else is asked of every
/// phone at once.
pub open spec fn rounds_of(
    devices: Seq<Seq<char>>,
    chosen: Option<Seq<char>>,
    command: u8,
    last: Option<Seq<char>>,
) -> Seq<Seq<usize>> {
    if let Some(device) = chosen {
        seq![selected(devices, device)]
    } else if command == GET_INFO {
        if devices.len() == 0 {
            seq![Seq::empty()]
        } else {
            seq![seq![0usize]]
        }
    } else if command == GET_NEXT_ASSERTION {
        match last {
            Some(device) => seq![selected(devices, device)],
            None => seq![Seq::empty()],
        }
    } else {
        seq![everyone(devices)]
    }
}

/// The positions of a phone.
fn select(devices: &Vec<String>, device: &str) -> (positions: Vec<usize>)
    ensures
        positions@ == selected(devices.deep_view(), device@),
{
    let ghost all = devices.deep_view();
    let mut positions: Vec<usize> = Vec::new();
    let mut i: usize = 0;
    assert(positions@ =~= Seq::empty());
    while i < devices.len()
        invariant
            all == devices.deep_view(),
            i <= devices@.len(),
            positions@ == selected(all.take(i as int), device@),
        decreases devices@.len() - i,
    {
        proof {
            assert(all.take(i + 1).drop_last() =~= all.take(i as int));
            assert(all.take(i + 1).last() == devices@[i as int]@);
        }
        if same(devices[i].as_str(), device) {
            positions.push(i);
        }
        i = i + 1;
    }
    assert(all.take(i as int) =~= all);
    positions
}

/// One round.
fn one_round(positions: Vec<usize>) -> (rounds: Vec<Vec<usize>>)
    ensures
        rounds.deep_view() == seq![positions@],
{
    let mut rounds: Vec<Vec<usize>> = Vec::new();
    rounds.push(positions);
    assert(positions.deep_view() =~= positions@);
    assert(rounds.deep_view() =~= seq![positions@]);
    rounds
}

/// The positions of the phones that are asked, one round after the other.
pub fn rounds(
    devices: &Vec<String>,
    chosen: Option<&str>,
    command: u8,
    memory: &Memory,
) -> (rounds: Vec<Vec<usize>>)
    ensures
        rounds.deep_view() == rounds_of(
            devices.deep_view(),
            match chosen {
                Some(device) => Some(device@),
                None => None,
            },
            command,
            opt_view(memory.last),
        ),
{
    if let Some(device) = chosen {
        return one_round(select(devices, device));
    }
    if command == GET_INFO {
        let mut first: Vec<usize> = Vec::new();
        assert(first@ =~= Seq::empty());
        if devices.len() > 0 {
            first.push(0);
            assert(first@ =~= seq![0usize]);
        }
        return one_round(first);
    }
    if command == GET_NEXT_ASSERTION {
        return match &memory.last {
            Some(device) => one_round(select(devices, device.as_str())),
            None => one_round(Vec::new()),
        };
    }
    let mut all: Vec<usize> = Vec::new();
    let mut i: usize = 0;
    while i < devices.len()
        invariant
            i <= devices@.len(),
            all@ == Seq::new(i as nat, |k: int| k as usize),
        decreases devices@.len() - i,
    {
        all.push(i);
        assert(all@ =~= Seq::new((i + 1) as nat, |k: int| k as usize));
        i = i + 1;
    }
    assert(all@ =~= everyone(devices.deep_view()));
    one_round(all)
}

// ---------------------------------------------------------------------------
// What is remembered
// ---------------------------------------------------------------------------

/// What is remembered of the assertions that were given.
#[derive(Debug)]
pub struct Memory {
    /// The phones that have a credential for what was asked last without the user.
    pub holders: Vec<String>,
    /// The phone that gave the last assertion.
    pub last: Option<String>,
}

impl Memory {
    /// Nothing is remembered.
    pub fn new() -> (memory: Memory)
        ensures
            memory.holders@ == Seq::<String>::empty(),
            memory.last is None,
    {
        Memory { holders: Vec::new(), last: None }
    }

    /// Remembers who answered a request that succeeded: an assertion makes the phone that
    /// counts the last, and one without the user makes all that succeeded holders.
    pub fn remember(&mut self, command: u8, probe: bool, wins: &Vec<Win>, devices: &Vec<String>)
        requires
            wins@.len() > 0,
            forall|i: int| 0 <= i < wins@.len() ==> (#[trigger] wins@[i]).link < devices@.len(),
        ensures
            command == GET_ASSERTION ==> opt_view(final(self).last) == Some(
                devices@[wins@[0].link as int]@,
            ),
            command == GET_ASSERTION && probe ==> final(self).holders.deep_view() == winners_of(
                wins@,
                devices.deep_view(),
            ),
            command == GET_ASSERTION && !probe ==> final(self).holders == old(self).holders,
            command != GET_ASSERTION ==> *final(self) == *old(self),
    {
        if command == GET_ASSERTION {
            self.last = Some(devices[wins[0].link].as_str().to_string());
            if probe {
                let mut winners: Vec<String> = Vec::new();
                let mut i: usize = 0;
                while i < wins.len()
                    invariant
                        i <= wins@.len(),
                        forall|k: int|
                            0 <= k < wins@.len() ==> (#[trigger] wins@[k]).link < devices@.len(),
                        winners@.len() == i,
                        forall|k: int|
                            0 <= k < i ==> (#[trigger] winners@[k])@
                                == devices@[wins@[k].link as int]@,
                    decreases wins@.len() - i,
                {
                    winners.push(devices[wins[i].link].as_str().to_string());
                    i = i + 1;
                }
                assert(winners.deep_view() =~= winners_of(wins@, devices.deep_view()));
                self.holders = winners;
            }
        }
    }
}

/// The phones that succeeded.
pub open spec fn winners_of(wins: Seq<Win>, devices: Seq<Seq<char>>) -> Seq<Seq<char>> {
    wins.map_values(|win: Win| devices[win.link as int])
}

// ---------------------------------------------------------------------------
// One round
// ---------------------------------------------------------------------------

/// A success: the phone and its answer.
#[derive(Debug)]
pub struct Win {
    /// The phone.
    pub link: usize,
    /// Its answer.
    pub payload: Vec<u8>,
}

/// A round of a request: whom it waits for, and what was answered.
#[derive(Debug)]
pub struct FanOut {
    /// The number of the request.
    pub number: u32,
    /// Whether all answers are waited for.
    pub wait_all: bool,
    /// The phones that did not answer yet.
    pub pending: Vec<usize>,
    /// The successes, in the order in which they came.
    pub wins: Vec<Win>,
    /// The other answers, in the order in which they came.
    pub errors: Vec<Vec<u8>>,
    /// Whether the round is decided.
    pub done: bool,
}

/// What a round stands for.
#[verifier::ext_equal]
pub struct Round {
    /// The number of the request.
    pub number: u32,
    /// Whether all answers are waited for.
    pub wait_all: bool,
    /// The phones that did not answer yet.
    pub pending: Seq<usize>,
    /// The successes.
    pub wins: Seq<(usize, Seq<u8>)>,
    /// The other answers.
    pub errors: Seq<Seq<u8>>,
    /// Whether the round is decided.
    pub done: bool,
}

/// The successes of a round.
pub open spec fn wins_of(wins: Seq<Win>) -> Seq<(usize, Seq<u8>)> {
    wins.map_values(|win: Win| (win.link, win.payload@))
}

impl View for FanOut {
    type V = Round;

    open spec fn view(&self) -> Round {
        Round {
            number: self.number,
            wait_all: self.wait_all,
            pending: self.pending@,
            wins: wins_of(self.wins@),
            errors: self.errors.deep_view(),
            done: self.done,
        }
    }
}

/// The phones other than one.
pub open spec fn others(pending: Seq<usize>, link: usize) -> Seq<usize>
    decreases pending.len(),
{
    if pending.len() == 0 {
        Seq::empty()
    } else if pending.last() == link {
        others(pending.drop_last(), link)
    } else {
        others(pending.drop_last(), link).push(pending.last())
    }
}

impl Round {
    /// The round before anybody answered.
    pub open spec fn fresh(number: u32, wait_all: bool, asked: Seq<usize>) -> Round {
        Round {
            number,
            wait_all,
            pending: asked,
            wins: Seq::empty(),
            errors: Seq::empty(),
            done: false,
        }
    }

    /// The round with one more failure.
    pub open spec fn failed(self, link: usize, error: Seq<u8>) -> Round {
        Round { pending: others(self.pending, link), errors: self.errors.push(error), ..self }
    }

    /// The round after a message from a phone. A phone whose link has ended says number zero
    /// and nothing else. What belongs to another request is passed over. An answer that
    /// begins with zero is a success. Where not all answers are waited for, a success
    /// decides the round, and so does a user's refusal.
    pub open spec fn answered(self, link: usize, number: u32, payload: Seq<u8>) -> Round {
        if self.done || !self.pending.contains(link) {
            self
        } else if number == 0 && payload.len() == 0 {
            self.failed(link, seq![CTAP2_ERR_OTHER])
        } else if number != self.number {
            self
        } else if payload.len() == 0 {
            self.failed(link, seq![CTAP2_ERR_OTHER])
        } else if payload[0] == 0 {
            Round {
                pending: others(self.pending, link),
                wins: self.wins.push((link, payload)),
                done: !self.wait_all,
                ..self
            }
        } else {
            Round {
                done: payload[0] == OPERATION_DENIED && !self.wait_all,
                ..self.failed(link, payload)
            }
        }
    }

    /// The round goes on: somebody has not answered, nothing is decided, there is time, and
    /// the request is still wanted.
    pub open spec fn waits(self, in_time: bool, wanted: bool) -> bool {
        self.pending.len() > 0 && !self.done && in_time && wanted
    }
}

impl FanOut {
    /// The round before anybody answered.
    pub fn new(number: u32, wait_all: bool, asked: Vec<usize>) -> (round: FanOut)
        ensures
            round@ == Round::fresh(number, wait_all, asked@),
    {
        let round = FanOut {
            number,
            wait_all,
            pending: asked,
            wins: Vec::new(),
            errors: Vec::new(),
            done: false,
        };
        assert(round@ =~= Round::fresh(number, wait_all, asked@));
        round
    }

    /// Whether a phone has not answered yet.
    fn is_pending(&self, link: usize) -> (found: bool)
        ensures
            found == self@.pending.contains(link),
    {
        let mut i: usize = 0;
        while i < self.pending.len()
            invariant
                i <= self.pending@.len(),
                forall|k: int| 0 <= k < i ==> self.pending@[k] != link,
            decreases self.pending@.len() - i,
        {
            if self.pending[i] == link {
                return true;
            }
            i = i + 1;
        }
        false
    }

    /// The phone is not waited for any more.
    fn release(&mut self, link: usize)
        ensures
            final(self)@ == (Round { pending: others(old(self)@.pending, link), ..old(self)@ }),
    {
        let ghost all = self.pending@;
        let mut kept: Vec<usize> = Vec::new();
        let mut i: usize = 0;
        assert(all.take(0) =~= Seq::empty());
        while i < self.pending.len()
            invariant
                all == self.pending@,
                i <= all.len(),
                kept@ == others(all.take(i as int), link),
            decreases all.len() - i,
        {
            proof {
                assert(all.take(i + 1).drop_last() =~= all.take(i as int));
                assert(all.take(i + 1).last() == all[i as int]);
            }
            if self.pending[i] != link {
                kept.push(self.pending[i]);
            }
            i = i + 1;
        }
        assert(all.take(i as int) =~= all);
        self.pending = kept;
    }

    /// One more failure of a phone.
    fn fail(&mut self, link: usize, error: Vec<u8>)
        ensures
            final(self)@ == old(self)@.failed(link, error@),
    {
        self.release(link);
        let ghost before = self.errors.deep_view();
        self.errors.push(error);
        assert(error.deep_view() =~= error@);
        assert(self.errors.deep_view() =~= before.push(error@));
    }

    /// A message from a phone.
    pub fn answer(&mut self, link: usize, number: u32, payload: Vec<u8>)
        ensures
            final(self)@ == old(self)@.answered(link, number, payload@),
    {
        if self.done || !self.is_pending(link) {
            return;
        }
        if number == 0 && payload.len() == 0 || number == self.number && payload.len() == 0 {
            let error: Vec<u8> = vec![CTAP2_ERR_OTHER];
            assert(error@ =~= seq![CTAP2_ERR_OTHER]);
            self.fail(link, error);
            return;
        }
        if number != self.number {
            return;
        }
        if payload[0] == 0 {
            self.release(link);
            let ghost before = self.wins@;
            self.wins.push(Win { link, payload });
            assert(wins_of(self.wins@) =~= wins_of(before).push((link, payload@)));
            self.done = !self.wait_all;
        } else {
            let denied = payload[0] == OPERATION_DENIED;
            self.fail(link, payload);
            self.done = denied && !self.wait_all;
        }
    }

    /// Whether the round goes on.
    pub fn waiting(&self, in_time: bool, wanted: bool) -> (waits: bool)
        ensures
            waits == self@.waits(in_time, wanted),
    {
        self.pending.len() > 0 && !self.done && in_time && wanted
    }
}

/// Whether the host is told to wait on: nothing was heard, and for long enough.
pub fn beat_is_due(heard: bool, silence: u64) -> (due: bool)
    ensures
        due == (!heard && silence >= BEAT),
{
    !heard && silence >= BEAT
}

// ---------------------------------------------------------------------------
// One round after the other
// ---------------------------------------------------------------------------

/// What to do next.
#[derive(Debug)]
pub enum Step {
    /// Ask phones, by their positions.
    Ask(Vec<usize>),
    /// Give the host an answer; nobody is asked any more.
    Reply(Vec<u8>),
}

/// A request on its way through its rounds.
#[derive(Debug)]
pub struct Exchange {
    /// The rounds that are left, the next one last.
    pub left: Vec<Vec<usize>>,
    /// What was answered and was no success.
    pub errors: Vec<Vec<u8>>,
}

/// What an exchange stands for.
#[verifier::ext_equal]
pub struct Course {
    /// The rounds that are left, the next one first.
    pub left: Seq<Seq<usize>>,
    /// What was answered and was no success.
    pub errors: Seq<Seq<u8>>,
}

impl View for Exchange {
    type V = Course;

    open spec fn view(&self) -> Course {
        Course { left: self.left.deep_view().reverse(), errors: self.errors.deep_view() }
    }
}

/// The first round that asks somebody, or the number of rounds.
pub open spec fn next_round(rounds: Seq<Seq<usize>>, from: int) -> int
    decreases rounds.len() - from,
{
    if from >= rounds.len() || rounds[from].len() > 0 {
        from
    } else {
        next_round(rounds, from + 1)
    }
}

/// An answer that says more than that there is no credential.
pub open spec fn tells(error: Seq<u8>) -> bool {
    !(error.len() > 0 && error[0] == NO_CREDENTIALS)
}

/// The position of the first answer that says more, or the number of answers.
pub open spec fn telling(errors: Seq<Seq<u8>>, from: int) -> int
    decreases errors.len() - from,
{
    if from >= errors.len() || tells(errors[from]) {
        from
    } else {
        telling(errors, from + 1)
    }
}

/// What the host is told when nobody succeeded: the first answer that says more than that
/// there is no credential, or else the first answer, or else that something failed.
pub open spec fn final_error_of(errors: Seq<Seq<u8>>) -> Seq<u8> {
    let at = telling(errors, 0);
    if 0 <= at < errors.len() {
        errors[at]
    } else if errors.len() > 0 {
        errors[0]
    } else {
        seq![CTAP2_ERR_OTHER]
    }
}

/// What the host is told after a round in which somebody succeeded: the answer of the first
/// who did.
pub open spec fn replied(round: Round) -> Option<Seq<u8>> {
    if round.wins.len() > 0 {
        Some(round.wins[0].1)
    } else {
        None
    }
}

/// A copy of bytes.
fn copy(bytes: &Vec<u8>) -> (copied: Vec<u8>)
    ensures
        copied@ == bytes@,
{
    let mut copied: Vec<u8> = Vec::new();
    let mut i: usize = 0;
    while i < bytes.len()
        invariant
            i <= bytes@.len(),
            copied@ == bytes@.take(i as int),
        decreases bytes@.len() - i,
    {
        copied.push(bytes[i]);
        assert(bytes@.take(i + 1) =~= bytes@.take(i as int).push(bytes@[i as int]));
        i = i + 1;
    }
    assert(bytes@.take(i as int) =~= bytes@);
    copied
}

/// The position of the first answer that says more, or the number of answers.
fn find_telling(errors: &Vec<Vec<u8>>) -> (at: usize)
    ensures
        at == telling(errors.deep_view(), 0),
        at <= errors@.len(),
{
    let mut i: usize = 0;
    while i < errors.len()
        invariant
            i <= errors@.len(),
            telling(errors.deep_view(), 0) == telling(errors.deep_view(), i as int),
        decreases errors@.len() - i,
    {
        proof {
            assert(errors@[i as int].deep_view() =~= errors@[i as int]@);
            assert(errors.deep_view()[i as int] == errors@[i as int]@);
        }
        if !(errors[i].len() > 0 && errors[i][0] == NO_CREDENTIALS) {
            return i;
        }
        i = i + 1;
    }
    i
}

/// What the host is told when nobody succeeded.
pub fn final_error(errors: &Vec<Vec<u8>>) -> (error: Vec<u8>)
    ensures
        error@ == final_error_of(errors.deep_view()),
{
    let at = find_telling(errors);
    if at < errors.len() {
        assert(errors@[at as int].deep_view() =~= errors@[at as int]@);
        assert(errors.deep_view()[at as int] == errors@[at as int]@);
        return copy(&errors[at]);
    }
    if errors.len() > 0 {
        assert(errors@[0].deep_view() =~= errors@[0]@);
        assert(errors.deep_view()[0] == errors@[0]@);
        return copy(&errors[0]);
    }
    let error: Vec<u8> = vec![CTAP2_ERR_OTHER];
    assert(error@ =~= seq![CTAP2_ERR_OTHER]);
    error
}

impl Course {
    /// What is left once the next round is taken.
    pub open spec fn taken(self) -> Course {
        let at = next_round(self.left, 0);
        if 0 <= at < self.left.len() {
            Course { left: self.left.skip(at + 1), ..self }
        } else {
            Course { left: Seq::empty(), ..self }
        }
    }

    /// What is left after a round: nothing where an answer says more than that there is no
    /// credential.
    pub open spec fn after(self, errors: Seq<Seq<u8>>) -> Course {
        Course {
            left: if telling(errors, 0) < errors.len() {
                Seq::empty()
            } else {
                self.left
            },
            errors: self.errors + errors,
        }
    }
}

impl Exchange {
    /// A request before its first round.
    pub fn new(rounds: Vec<Vec<usize>>) -> (exchange: Exchange)
        ensures
            exchange@ == (Course { left: rounds.deep_view(), errors: Seq::empty() }),
    {
        let ghost all = rounds.deep_view();
        let mut waiting = rounds;
        let mut left: Vec<Vec<usize>> = Vec::new();
        assert(left.deep_view().reverse() =~= all.skip(all.len() as int));
        while waiting.len() > 0
            invariant
                waiting@.len() <= all.len(),
                waiting.deep_view() == all.take(waiting@.len() as int),
                left.deep_view().reverse() == all.skip(waiting@.len() as int),
            decreases waiting@.len(),
        {
            let ghost n = waiting@.len() as int;
            let ghost before = left.deep_view();
            let ghost last = waiting.deep_view()[n - 1];
            if let Some(round) = waiting.pop() {
                left.push(round);
                proof {
                    assert(round.deep_view() == last);
                    assert(waiting.deep_view() =~= all.take(n - 1));
                    assert(left.deep_view() =~= before.push(last));
                    assert(left.deep_view().reverse() =~= seq![last] + before.reverse());
                    assert(all.skip(n - 1) =~= seq![all[n - 1]] + all.skip(n));
                }
            }
        }
        let exchange = Exchange { left, errors: Vec::new() };
        assert(exchange@.left =~= all);
        assert(exchange@.errors =~= Seq::empty());
        exchange
    }

    /// What to do next: ask the next round that asks somebody, or answer that nobody
    /// succeeded.
    pub fn next(&mut self) -> (step: Step)
        ensures
            final(self)@ == old(self)@.taken(),
            ({
                let at = next_round(old(self)@.left, 0);
                if at < old(self)@.left.len() {
                    step is Ask && step->Ask_0@ == old(self)@.left[at]
                } else {
                    step is Reply && step->Reply_0@ == final_error_of(old(self)@.errors)
                }
            }),
    {
        let ghost all = self@.left;
        assert(all.skip(0) =~= all);
        while self.left.len() > 0
            invariant
                all == old(self)@.left,
                self@.errors == old(self)@.errors,
                self@.left.len() <= all.len(),
                self@.left == all.skip(all.len() - self@.left.len()),
                next_round(all, 0) == next_round(all, all.len() - self@.left.len()),
            decreases self.left@.len(),
        {
            let ghost n = self@.left.len() as int;
            let ghost before = self.left.deep_view();
            if let Some(round) = self.left.pop() {
                proof {
                    assert(round.deep_view() =~= round@);
                    assert(before.last() == round@);
                    assert(self.left.deep_view() =~= before.drop_last());
                    assert(before.reverse()[0] == before.last());
                    assert(before.reverse().skip(1) =~= before.drop_last().reverse());
                    assert(all[all.len() - n] == round@);
                    assert(all.skip(all.len() - n).skip(1) =~= all.skip(all.len() - n + 1));
                }
                if round.len() > 0 {
                    return Step::Ask(round);
                }
            }
        }
        assert(self@.left =~= Seq::empty());
        Step::Reply(final_error(&self.errors))
    }

    /// The round is over: the answer for the host where somebody succeeded, that of the
    /// first who did.
    pub fn heard(&mut self, round: FanOut) -> (answer: Option<Vec<u8>>)
        ensures
            answer is Some <==> replied(round@) is Some,
            answer matches Some(payload) ==> Some(payload@) == replied(round@) && final(self)@
                == old(self)@,
            answer is None ==> final(self)@ == old(self)@.after(round@.errors),
    {
        if round.wins.len() > 0 {
            assert(round@.wins[0].1 == round.wins@[0].payload@);
            return Some(copy(&round.wins[0].payload));
        }
        let mut errors = round.errors;
        let ghost added = errors.deep_view();
        let at = find_telling(&errors);
        if at < errors.len() {
            self.left = Vec::new();
            assert(self@.left =~= Seq::empty());
        }
        let ghost before = self.errors.deep_view();
        self.errors.append(&mut errors);
        assert(self.errors.deep_view() =~= before + added);
        None
    }
}

// ---------------------------------------------------------------------------
// Laws
// ---------------------------------------------------------------------------

/// The positions that are selected: all that hold the phone, each once, in order.
proof fn lemma_selected(devices: Seq<Seq<char>>, device: Seq<char>)
    requires
        devices.len() <= usize::MAX,
    ensures
        ({
            let found = selected(devices, device);
            &&& forall|k: int|
                0 <= k < found.len() ==> (#[trigger] found[k]) < devices.len()
                    && devices[found[k] as int] == device
            &&& forall|i: int|
                0 <= i < devices.len() && #[trigger] devices[i] == device ==> found.contains(
                    i as usize,
                )
            &&& forall|a: int, b: int|
                0 <= a < b < found.len() ==> (#[trigger] found[a]) < (#[trigger] found[b])
        }),
    decreases devices.len(),
{
    let found = selected(devices, device);
    if devices.len() > 0 {
        let init = devices.drop_last();
        let before = selected(init, device);
        lemma_selected(init, device);
        assert forall|k: int| 0 <= k < found.len() implies (#[trigger] found[k]) < devices.len()
            && devices[found[k] as int] == device by {
            if k < before.len() {
                assert(found[k] == before[k]);
                assert(init[before[k] as int] == devices[found[k] as int]);
            }
        }
        assert forall|i: int|
            0 <= i < devices.len() && #[trigger] devices[i] == device implies found.contains(
            i as usize,
        ) by {
            if i < init.len() {
                assert(init[i] == devices[i]);
                assert(before.contains(i as usize));
                let k = choose|k: int| 0 <= k < before.len() && before[k] == i as usize;
                assert(found[k] == i as usize);
            } else {
                assert(found[found.len() - 1] == i as usize);
            }
        }
        assert forall|a: int, b: int| 0 <= a < b < found.len() implies (#[trigger] found[a]) < (
        #[trigger] found[b]) by {
            assert(found[a] == before[a]);
            if b < before.len() {
                assert(found[b] == before[b]);
            }
        }
    }
}

/// With several phones connected every one of them is asked at once, unless a program has
/// chosen one, and but for the two requests that go to one phone: what is asked first is
/// everybody, and nobody is left to be asked after that.
pub proof fn law_every_phone_is_asked(
    devices: Seq<Seq<char>>,
    command: u8,
    last: Option<Seq<char>>,
    position: usize,
)
    requires
        devices.len() <= usize::MAX,
        command != GET_INFO,
        command != GET_NEXT_ASSERTION,
        position < devices.len(),
    ensures
        ({
            let rounds = rounds_of(devices, None, command, last);
            let course = Course { left: rounds, errors: Seq::empty() };
            &&& rounds == seq![everyone(devices)]
            &&& next_round(course.left, 0) == 0
            &&& course.left[0].contains(position)
            &&& course.taken().left.len() == 0
        }),
{
    assert(everyone(devices)[position as int] == position);
}

/// There is one round. No phone is asked twice in it, and nobody is asked who is not
/// connected.
pub proof fn law_no_phone_is_asked_twice(
    devices: Seq<Seq<char>>,
    chosen: Option<Seq<char>>,
    command: u8,
    last: Option<Seq<char>>,
)
    requires
        devices.len() <= usize::MAX,
    ensures
        ({
            let rounds = rounds_of(devices, chosen, command, last);
            &&& rounds.len() == 1
            &&& rounds[0].no_duplicates()
            &&& forall|k: int|
                0 <= k < rounds[0].len() ==> (#[trigger] rounds[0][k]) < devices.len()
        }),
{
    if let Some(device) = chosen {
        lemma_selected(devices, device);
    } else if let Some(device) = last {
        lemma_selected(devices, device);
    }
}

/// A phone that a program has chosen is the only one that is asked.
pub proof fn law_chosen_phone_is_asked_alone(
    devices: Seq<Seq<char>>,
    device: Seq<char>,
    command: u8,
    last: Option<Seq<char>>,
    position: usize,
)
    requires
        devices.len() <= usize::MAX,
    ensures
        ({
            let rounds = rounds_of(devices, Some(device), command, last);
            &&& rounds.len() == 1
            &&& rounds[0].contains(position) <==> position < devices.len()
                && devices[position as int] == device
        }),
{
    lemma_selected(devices, device);
    let rounds = rounds_of(devices, Some(device), command, last);
    if rounds[0].contains(position) {
        let k = choose|k: int| 0 <= k < rounds[0].len() && rounds[0][k] == position;
        assert(devices[rounds[0][k] as int] == device);
    }
    if position < devices.len() && devices[position as int] == device {
        assert(selected(devices, device).contains(position));
    }
}

/// A message from a phone: the phone, the number and the answer.
pub struct Said {
    /// The phone.
    pub link: usize,
    /// The number of the request.
    pub number: u32,
    /// The answer.
    pub payload: Seq<u8>,
}

impl Round {
    /// The round after messages, one after the other.
    pub open spec fn told(self, said: Seq<Said>) -> Round
        decreases said.len(),
    {
        if said.len() == 0 {
            self
        } else {
            self.told(said.drop_last()).answered(
                said.last().link,
                said.last().number,
                said.last().payload,
            )
        }
    }

    /// What holds of a round from the start: where not all answers are waited for there is
    /// one success at most, and it decides.
    pub open spec fn wf(self) -> bool {
        &&& self.done ==> !self.wait_all
        &&& !self.wait_all ==> self.wins.len() <= 1
        &&& !self.wait_all && self.wins.len() > 0 ==> self.done
    }
}

/// What holds of a round from the start holds after any messages.
pub proof fn law_rounds_stay_well_formed(round: Round, said: Seq<Said>)
    requires
        round.wf(),
    ensures
        round.told(said).wf(),
        round.told(said).wait_all == round.wait_all,
        round.told(said).number == round.number,
    decreases said.len(),
{
    if said.len() > 0 {
        law_rounds_stay_well_formed(round, said.drop_last());
    }
}

/// The first answer counts: once a round is decided no message changes it.
pub proof fn law_first_answer_counts(round: Round, said: Seq<Said>)
    requires
        round.done,
    ensures
        round.told(said) == round,
    decreases said.len(),
{
    if said.len() > 0 {
        law_first_answer_counts(round, said.drop_last());
    }
}

/// What belongs to another request changes nothing; unless it says that the link has ended.
pub proof fn law_other_requests_are_passed_over(
    round: Round,
    link: usize,
    number: u32,
    payload: Seq<u8>,
)
    requires
        number != round.number,
        number != 0 || payload.len() > 0,
    ensures
        round.answered(link, number, payload) == round,
{
}

/// A success decides a round in which not all answers are waited for, and it is the only
/// one; a user's refusal decides it with none.
pub proof fn law_success_or_refusal_decides(round: Round, link: usize, payload: Seq<u8>)
    requires
        round.wf(),
        !round.done,
        !round.wait_all,
        round.pending.contains(link),
        payload.len() > 0,
    ensures
        payload[0] == 0 ==> ({
            let after = round.answered(link, round.number, payload);
            after.done && after.wins == seq![(link, payload)]
        }),
        payload[0] == OPERATION_DENIED ==> ({
            let after = round.answered(link, round.number, payload);
            after.done && after.wins.len() == 0
        }),
        payload[0] != 0 && payload[0] != OPERATION_DENIED ==> !round.answered(
            link,
            round.number,
            payload,
        ).done,
{
    let after = round.answered(link, round.number, payload);
    if payload[0] == 0 {
        assert(after.wins =~= seq![(link, payload)]);
    }
}

/// Messages after messages.
proof fn lemma_told_add(round: Round, first: Seq<Said>, then: Seq<Said>)
    ensures
        round.told(first + then) == round.told(first).told(then),
    decreases then.len(),
{
    let all = first + then;
    if then.len() == 0 {
        assert(all =~= first);
    } else {
        lemma_told_add(round, first, then.drop_last());
        assert(all.drop_last() =~= first + then.drop_last());
    }
}

/// The first approval is what the host is told: among the messages of a round in which not
/// all answers are waited for, the first that succeeds, while nothing is decided, is its only
/// success, whatever comes after it.
pub proof fn law_first_approval_is_replied(round: Round, said: Seq<Said>, k: int)
    requires
        round.wf(),
        !round.wait_all,
        0 <= k < said.len(),
        !round.told(said.take(k)).done,
        round.told(said.take(k)).pending.contains(said[k].link),
        said[k].number == round.number,
        said[k].payload.len() > 0,
        said[k].payload[0] == 0,
    ensures
        round.told(said).wins == seq![(said[k].link, said[k].payload)],
        replied(round.told(said)) == Some(said[k].payload),
{
    let before = round.told(said.take(k));
    law_rounds_stay_well_formed(round, said.take(k));
    law_success_or_refusal_decides(before, said[k].link, said[k].payload);
    let head = said.take(k + 1);
    assert(head.drop_last() =~= said.take(k));
    assert(round.told(head) == before.answered(
        said[k].link,
        said[k].number,
        said[k].payload,
    ));
    lemma_told_add(round, head, said.skip(k + 1));
    assert(head + said.skip(k + 1) =~= said);
    law_first_answer_counts(round.told(head), said.skip(k + 1));
}

/// Who is asked without the user is waited for: no answer decides such a round.
pub proof fn law_probe_waits_for_all(round: Round, said: Seq<Said>)
    requires
        round.wait_all,
        !round.done,
    ensures
        !round.told(said).done,
        round.told(said).wait_all,
    decreases said.len(),
{
    if said.len() > 0 {
        law_probe_waits_for_all(round, said.drop_last());
    }
}

/// Phones other than one of them are one fewer.
proof fn lemma_others(pending: Seq<usize>, link: usize)
    requires
        pending.no_duplicates(),
    ensures
        others(pending, link).no_duplicates(),
        !others(pending, link).contains(link),
        forall|other: usize|
            other != link ==> (#[trigger] others(pending, link).contains(other)
                == pending.contains(other)),
        others(pending, link).len() == (if pending.contains(link) {
            pending.len() - 1
        } else {
            pending.len() as int
        }),
    decreases pending.len(),
{
    if pending.len() > 0 {
        let init = pending.drop_last();
        let last = pending.last();
        lemma_others(init, link);
        assert forall|other: usize| pending.contains(other) == (init.contains(other) || other
            == last) by {
            if pending.contains(other) {
                let k = choose|k: int| 0 <= k < pending.len() && pending[k] == other;
                if k < init.len() {
                    assert(init[k] == other);
                }
            }
            if init.contains(other) {
                let k = choose|k: int| 0 <= k < init.len() && init[k] == other;
                assert(pending[k] == other);
            }
            assert(pending[pending.len() - 1] == last);
        }
        assert(!init.contains(last)) by {
            if init.contains(last) {
                let k = choose|k: int| 0 <= k < init.len() && init[k] == last;
                assert(pending[k] == pending[pending.len() - 1]);
            }
        }
        let before = others(init, link);
        let now = others(pending, link);
        if last != link {
            assert forall|other: usize| now.contains(other) == (before.contains(other) || other
                == last) by {
                if now.contains(other) {
                    let k = choose|k: int| 0 <= k < now.len() && now[k] == other;
                    if k < before.len() {
                        assert(before[k] == other);
                    }
                }
                if before.contains(other) {
                    let k = choose|k: int| 0 <= k < before.len() && before[k] == other;
                    assert(now[k] == other);
                }
                assert(now[now.len() - 1] == last);
            }
            assert(!before.contains(last));
            assert forall|a: int, b: int| 0 <= a < b < now.len() implies now[a] != now[b] by {
                assert(now[a] == before[a]);
                if b == before.len() {
                    assert(before.contains(before[a]));
                } else {
                    assert(now[b] == before[b]);
                }
            }
        }
    }
}

/// Every phone that is asked counts once: it is waited for, or has succeeded, or has
/// failed.
pub proof fn law_every_phone_answers_once(round: Round, said: Seq<Said>)
    requires
        round.pending.no_duplicates(),
    ensures
        ({
            let after = round.told(said);
            &&& after.pending.no_duplicates()
            &&& after.pending.len() + after.wins.len() + after.errors.len() == round.pending.len()
                + round.wins.len() + round.errors.len()
        }),
    decreases said.len(),
{
    if said.len() > 0 {
        law_every_phone_answers_once(round, said.drop_last());
        let before = round.told(said.drop_last());
        lemma_others(before.pending, said.last().link);
    }
}

/// The first answer that says more than that there is no credential.
proof fn lemma_telling(errors: Seq<Seq<u8>>, from: int)
    requires
        0 <= from <= errors.len(),
    ensures
        from <= telling(errors, from) <= errors.len(),
        telling(errors, from) < errors.len() ==> tells(errors[telling(errors, from)]),
        forall|k: int| from <= k < telling(errors, from) ==> !tells(#[trigger] errors[k]),
    decreases errors.len() - from,
{
    if from < errors.len() && !tells(errors[from]) {
        lemma_telling(errors, from + 1);
    }
}

/// The host is told that there is no credential only if every phone said so.
pub proof fn law_no_credentials_means_everybody(errors: Seq<Seq<u8>>)
    requires
        !tells(final_error_of(errors)),
    ensures
        errors.len() > 0,
        forall|k: int| 0 <= k < errors.len() ==> !tells(#[trigger] errors[k]),
{
    lemma_telling(errors, 0);
}

/// After a round whose answers say more than that there is no credential nobody else is
/// asked; after any other failure the next round is.
pub proof fn law_rounds_stop_at_an_error(course: Course, errors: Seq<Seq<u8>>)
    ensures
        (exists|k: int| 0 <= k < errors.len() && tells(#[trigger] errors[k])) ==> course.after(
            errors,
        ).left.len() == 0,
        (forall|k: int| 0 <= k < errors.len() ==> !tells(#[trigger] errors[k])) ==> course.after(
            errors,
        ).left == course.left,
{
    lemma_telling(errors, 0);
}

/// A message that is about a request: it comes from a phone that is asked, and has the
/// request's number, or says that the link has ended.
pub open spec fn concerns(number: u32, asked: Seq<usize>, message: Said) -> bool {
    &&& asked.contains(message.link)
    &&& message.number == number || (message.number == 0 && message.payload.len() == 0)
}

/// The first message of a phone that is about a request.
pub open spec fn is_first_word(number: u32, asked: Seq<usize>, said: Seq<Said>, k: int) -> bool {
    &&& 0 <= k < said.len()
    &&& concerns(number, asked, said[k])
    &&& forall|j: int|
        0 <= j < k && concerns(number, asked, #[trigger] said[j]) ==> said[j].link != said[k].link
}

/// An answer with which the user approves.
pub open spec fn approves(payload: Seq<u8>) -> bool {
    payload.len() > 0 && payload[0] == 0x00
}

/// An answer with which the user approves or refuses.
pub open spec fn settles(payload: Seq<u8>) -> bool {
    payload.len() > 0 && (payload[0] == 0x00 || payload[0] == 0x27)
}

/// A message that counts: the first of its phone about the request; and where not all answers
/// are waited for, no phone's first message before it settles the request.
pub open spec fn counts(
    number: u32,
    wait_all: bool,
    asked: Seq<usize>,
    said: Seq<Said>,
    k: int,
) -> bool {
    &&& is_first_word(number, asked, said, k)
    &&& wait_all || forall|j: int|
        0 <= j < k && #[trigger] is_first_word(number, asked, said, j) ==> !settles(
            said[j].payload,
        )
}

/// The places of the messages that count, those that approve or those that do not, in the
/// order in which they came.
pub open spec fn places(
    number: u32,
    wait_all: bool,
    asked: Seq<usize>,
    said: Seq<Said>,
    approving: bool,
) -> Seq<int> {
    Seq::new(said.len(), |k: int| k).filter(
        |k: int|
            counts(number, wait_all, asked, said, k) && approves(said[k].payload) == approving,
    )
}

/// A place that is kept of a sequence stays the same where two conditions agree.
proof fn lemma_filter_agrees(s: Seq<int>, p: spec_fn(int) -> bool, q: spec_fn(int) -> bool)
    requires
        forall|i: int| 0 <= i < s.len() ==> p(#[trigger] s[i]) == q(s[i]),
    ensures
        s.filter(p) == s.filter(q),
    decreases s.len(),
{
    reveal(Seq::filter);
    if s.len() > 0 {
        let init = s.drop_last();
        assert forall|i: int| 0 <= i < init.len() implies p(#[trigger] init[i]) == q(init[i]) by {
            assert(init[i] == s[i]);
        }
        lemma_filter_agrees(init, p, q);
        assert(p(s[s.len() - 1]) == q(s[s.len() - 1]));
    }
}

/// Whether a message counts, later messages do not change.
proof fn lemma_counts_early(
    number: u32,
    wait_all: bool,
    asked: Seq<usize>,
    said: Seq<Said>,
    k: int,
)
    requires
        0 <= k < said.len() - 1,
    ensures
        is_first_word(number, asked, said.drop_last(), k) == is_first_word(number, asked, said, k),
        counts(number, wait_all, asked, said.drop_last(), k) == counts(
            number,
            wait_all,
            asked,
            said,
            k,
        ),
{
    let init = said.drop_last();
    assert forall|j: int| 0 <= j <= k implies is_first_word(number, asked, init, j)
        == #[trigger] is_first_word(number, asked, said, j) by {
        assert(init[j] == said[j]);
        assert forall|i: int| 0 <= i < j implies init[i] == said[i] by {}
        if is_first_word(number, asked, init, j) {
            assert forall|i: int| 0 <= i < j && concerns(number, asked, #[trigger] said[i]) implies said[i].link
                != said[j].link by {
                assert(init[i] == said[i]);
            }
        }
    }
    if counts(number, wait_all, asked, init, k) && !wait_all {
        assert forall|j: int| 0 <= j < k && #[trigger] is_first_word(number, asked, said, j) implies !settles(
            said[j].payload,
        ) by {
            assert(is_first_word(number, asked, init, j));
        }
    }
    if counts(number, wait_all, asked, said, k) && !wait_all {
        assert forall|j: int| 0 <= j < k && #[trigger] is_first_word(number, asked, init, j) implies !settles(
            init[j].payload,
        ) by {
            assert(is_first_word(number, asked, said, j));
        }
    }
}

/// The places with one more message.
proof fn lemma_places(
    number: u32,
    wait_all: bool,
    asked: Seq<usize>,
    said: Seq<Said>,
    approving: bool,
)
    requires
        said.len() > 0,
    ensures
        places(number, wait_all, asked, said, approving) == (if counts(
            number,
            wait_all,
            asked,
            said,
            said.len() - 1,
        ) && approves(said.last().payload) == approving {
            places(number, wait_all, asked, said.drop_last(), approving).push(said.len() - 1)
        } else {
            places(number, wait_all, asked, said.drop_last(), approving)
        }),
        forall|i: int|
            0 <= i < places(number, wait_all, asked, said.drop_last(), approving).len()
                ==> 0 <= #[trigger] places(number, wait_all, asked, said.drop_last(), approving)[i]
                < said.len() - 1,
{
    let init = said.drop_last();
    let p = |k: int|
        counts(number, wait_all, asked, said, k) && approves(said[k].payload) == approving;
    let q = |k: int|
        counts(number, wait_all, asked, init, k) && approves(init[k].payload) == approving;
    let all = Seq::new(said.len(), |k: int| k);
    let fewer = Seq::new(init.len(), |k: int| k);
    assert(all.drop_last() =~= fewer);
    assert forall|i: int| 0 <= i < fewer.len() implies p(#[trigger] fewer[i]) == q(fewer[i]) by {
        lemma_counts_early(number, wait_all, asked, said, i);
        assert(init[i] == said[i]);
    }
    lemma_filter_agrees(fewer, p, q);
    reveal(Seq::filter);
    assert(all.last() == said.len() - 1);
    let kept = fewer.filter(q);
    assert forall|i: int| 0 <= i < kept.len() implies 0 <= #[trigger] kept[i] < said.len() - 1 by {
        lemma_filter_bounds(fewer, q, init.len() as int);
    }
}

/// What is kept of a sequence is within its bounds.
proof fn lemma_filter_bounds(s: Seq<int>, p: spec_fn(int) -> bool, n: int)
    requires
        forall|i: int| 0 <= i < s.len() ==> 0 <= #[trigger] s[i] < n,
    ensures
        forall|i: int| 0 <= i < s.filter(p).len() ==> 0 <= #[trigger] s.filter(p)[i] < n,
    decreases s.len(),
{
    reveal(Seq::filter);
    if s.len() > 0 {
        let init = s.drop_last();
        assert forall|i: int| 0 <= i < init.len() implies 0 <= #[trigger] init[i] < n by {
            assert(init[i] == s[i]);
        }
        lemma_filter_bounds(init, p, n);
        assert(0 <= s[s.len() - 1] < n);
        assert forall|i: int| 0 <= i < s.filter(p).len() implies 0 <= #[trigger] s.filter(p)[i]
            < n by {
            if i < init.filter(p).len() {
                assert(s.filter(p)[i] == init.filter(p)[i]);
            }
        }
    }
}

/// Where a phone has said something about a request, it has said a first thing.
proof fn lemma_first_word(number: u32, asked: Seq<usize>, said: Seq<Said>, k: int) -> (first: int)
    requires
        0 <= k < said.len(),
        concerns(number, asked, said[k]),
    ensures
        0 <= first <= k,
        is_first_word(number, asked, said, first),
        said[first].link == said[k].link,
    decreases k,
{
    if is_first_word(number, asked, said, k) {
        k
    } else {
        let j = choose|j: int|
            0 <= j < k && concerns(number, asked, #[trigger] said[j]) && said[j].link
                == said[k].link;
        lemma_first_word(number, asked, said, j)
    }
}

/// Where a first message settles a request, one that counts does.
proof fn lemma_settled(number: u32, asked: Seq<usize>, said: Seq<Said>, k: int) -> (by: int)
    requires
        is_first_word(number, asked, said, k),
        settles(said[k].payload),
    ensures
        0 <= by <= k,
        counts(number, false, asked, said, by),
        settles(said[by].payload),
    decreases k,
{
    if counts(number, false, asked, said, k) {
        k
    } else {
        let j = choose|j: int|
            0 <= j < k && #[trigger] is_first_word(number, asked, said, j) && settles(
                said[j].payload,
            );
        lemma_settled(number, asked, said, j)
    }
}

/// The phones other than one are those other than it.
proof fn lemma_others_contain(pending: Seq<usize>, link: usize, other: usize)
    ensures
        others(pending, link).contains(other) <==> pending.contains(other) && other != link,
    decreases pending.len(),
{
    if pending.len() > 0 {
        let init = pending.drop_last();
        let now = others(pending, link);
        let before = others(init, link);
        lemma_others_contain(init, link, other);
        if pending.contains(other) {
            let k = choose|k: int| 0 <= k < pending.len() && pending[k] == other;
            if k < init.len() {
                assert(init[k] == other);
            }
        }
        if init.contains(other) {
            let k = choose|k: int| 0 <= k < init.len() && init[k] == other;
            assert(pending[k] == other);
        }
        if before.contains(other) {
            let k = choose|k: int| 0 <= k < before.len() && before[k] == other;
            assert(now[k] == other);
        }
        if now.contains(other) {
            let k = choose|k: int| 0 <= k < now.len() && now[k] == other;
            if k < before.len() {
                assert(before[k] == other);
            }
        }
        if pending.last() == other {
            assert(pending[pending.len() - 1] == other);
            if other != link {
                assert(now[now.len() - 1] == other);
            }
        }
    }
}

/// What comes of a round is told by the messages that count: those that approve are the wins,
/// as they came and with their phones; all others are the errors, unchanged, and where one is
/// empty that something failed; a phone is waited for until a message of its counts; and a
/// round in which not all answers are waited for is decided once one that counts settles it.
pub proof fn law_answers_that_count(
    number: u32,
    wait_all: bool,
    asked: Seq<usize>,
    said: Seq<Said>,
)
    ensures
        ({
            let round = Round::fresh(number, wait_all, asked).told(said);
            &&& round.wins == places(number, wait_all, asked, said, true).map_values(
                |k: int| (said[k].link, said[k].payload),
            )
            &&& round.errors == places(number, wait_all, asked, said, false).map_values(
                |k: int|
                    if said[k].payload.len() > 0 {
                        said[k].payload
                    } else {
                        seq![0x7fu8]
                    },
            )
            &&& forall|link: usize| #[trigger]
                round.pending.contains(link) <==> asked.contains(link) && !exists|k: int|
                    #[trigger] counts(number, wait_all, asked, said, k) && said[k].link == link
            &&& round.done <==> !wait_all && exists|k: int| #[trigger]
                counts(number, wait_all, asked, said, k) && settles(said[k].payload)
            &&& round.number == number
            &&& round.wait_all == wait_all
        }),
    decreases said.len(),
{
    let fresh = Round::fresh(number, wait_all, asked);
    let round = fresh.told(said);
    if said.len() == 0 {
        reveal(Seq::filter);
        assert(places(number, wait_all, asked, said, true) =~= Seq::empty());
        assert(places(number, wait_all, asked, said, false) =~= Seq::empty());
        assert(round.wins =~= places(number, wait_all, asked, said, true).map_values(
            |k: int| (said[k].link, said[k].payload),
        ));
        assert(round.errors =~= places(number, wait_all, asked, said, false).map_values(
            |k: int|
                if said[k].payload.len() > 0 {
                    said[k].payload
                } else {
                    seq![0x7fu8]
                },
        ));
    } else {
        let init = said.drop_last();
        let n = said.len() - 1;
        let last = said.last();
        let before = fresh.told(init);
        law_answers_that_count(number, wait_all, asked, init);
        lemma_places(number, wait_all, asked, said, true);
        lemma_places(number, wait_all, asked, said, false);
        assert forall|k: int| 0 <= k < n implies counts(number, wait_all, asked, init, k)
            == #[trigger] counts(number, wait_all, asked, said, k) && init[k] == said[k] by {
            lemma_counts_early(number, wait_all, asked, said, k);
        }
        lemma_last_counts(number, wait_all, asked, said);
        let counting = counts(number, wait_all, asked, said, n);
        assert(counting <==> !before.done && before.pending.contains(last.link) && (last.number
            == number || (last.number == 0 && last.payload.len() == 0)));
        let pair = |k: int| (said[k].link, said[k].payload);
        let text = |k: int|
            if said[k].payload.len() > 0 {
                said[k].payload
            } else {
                seq![0x7fu8]
            };
        let won = places(number, wait_all, asked, init, true);
        let lost = places(number, wait_all, asked, init, false);
        assert(before.wins =~= won.map_values(pair));
        assert(before.errors =~= lost.map_values(text));
        assert(won.push(n).map_values(pair) =~= won.map_values(pair).push(pair(n)));
        assert(lost.push(n).map_values(text) =~= lost.map_values(text).push(text(n)));
        assert(round.wins =~= places(number, wait_all, asked, said, true).map_values(pair));
        assert(round.errors =~= places(number, wait_all, asked, said, false).map_values(text));
        assert forall|link: usize| #[trigger]
            round.pending.contains(link) <==> asked.contains(link) && !exists|k: int| #[trigger]
                counts(number, wait_all, asked, said, k) && said[k].link == link by {
            lemma_others_contain(before.pending, last.link, link);
            if exists|k: int| #[trigger]
                counts(number, wait_all, asked, said, k) && said[k].link == link {
                let k = choose|k: int| #[trigger]
                    counts(number, wait_all, asked, said, k) && said[k].link == link;
                if k < n {
                    assert(counts(number, wait_all, asked, init, k) && init[k].link == link);
                }
            }
            if exists|k: int| #[trigger]
                counts(number, wait_all, asked, init, k) && init[k].link == link {
                let k = choose|k: int| #[trigger]
                    counts(number, wait_all, asked, init, k) && init[k].link == link;
                assert(counts(number, wait_all, asked, said, k) && said[k].link == link);
            }
        }
        if exists|k: int| #[trigger]
            counts(number, wait_all, asked, said, k) && settles(said[k].payload) {
            let k = choose|k: int| #[trigger]
                counts(number, wait_all, asked, said, k) && settles(said[k].payload);
            if k < n {
                assert(counts(number, wait_all, asked, init, k) && settles(init[k].payload));
            }
        }
        if before.done {
            let k = choose|k: int| #[trigger]
                counts(number, wait_all, asked, init, k) && settles(init[k].payload);
            assert(counts(number, wait_all, asked, said, k) && settles(said[k].payload));
        }
    }
}

/// Whether the last message counts: nothing that counts has settled the request before, and
/// nothing of its phone has counted.
proof fn lemma_last_counts(number: u32, wait_all: bool, asked: Seq<usize>, said: Seq<Said>)
    requires
        said.len() > 0,
    ensures
        counts(number, wait_all, asked, said, said.len() - 1) <==> {
            let init = said.drop_last();
            &&& concerns(number, asked, said.last())
            &&& wait_all || !exists|k: int| #[trigger]
                counts(number, wait_all, asked, init, k) && settles(init[k].payload)
            &&& !exists|k: int| #[trigger]
                counts(number, wait_all, asked, init, k) && init[k].link == said.last().link
        },
{
    let init = said.drop_last();
    let n = said.len() - 1;
    assert forall|k: int| 0 <= k < n implies is_first_word(number, asked, init, k)
        == #[trigger] is_first_word(number, asked, said, k) && counts(
        number,
        wait_all,
        asked,
        init,
        k,
    ) == counts(number, wait_all, asked, said, k) && init[k] == said[k] by {
        lemma_counts_early(number, wait_all, asked, said, k);
    }
    if counts(number, wait_all, asked, said, n) {
        assert forall|k: int| #[trigger] counts(number, wait_all, asked, init, k) implies init[k].link
            != said.last().link && (wait_all || !settles(init[k].payload)) by {
            assert(is_first_word(number, asked, said, k));
            assert(concerns(number, asked, said[k]));
        }
    } else if concerns(number, asked, said.last()) {
        if !is_first_word(number, asked, said, n) {
            let first = lemma_first_word(number, asked, said, n);
            if !counts(number, wait_all, asked, said, first) {
                let j = choose|j: int|
                    0 <= j < first && #[trigger] is_first_word(number, asked, said, j) && settles(
                        said[j].payload,
                    );
                let by = lemma_settled(number, asked, said, j);
                assert(is_first_word(number, asked, said, by));
                assert(counts(number, wait_all, asked, init, by) && settles(init[by].payload));
            } else {
                assert(counts(number, wait_all, asked, init, first));
            }
        } else {
            let j = choose|j: int|
                0 <= j < n && #[trigger] is_first_word(number, asked, said, j) && settles(
                    said[j].payload,
                );
            let by = lemma_settled(number, asked, said, j);
            assert(is_first_word(number, asked, said, by));
            assert(counts(number, wait_all, asked, init, by) && settles(init[by].payload));
        }
    }
}

/// Nobody wins who has not approved: every win is an answer that begins with zero, to this
/// request, of a phone that was asked; and no error begins with zero.
pub proof fn law_only_approvals_win(
    number: u32,
    wait_all: bool,
    asked: Seq<usize>,
    said: Seq<Said>,
)
    ensures
        ({
            let round = Round::fresh(number, wait_all, asked).told(said);
            &&& forall|i: int|
                0 <= i < round.wins.len() ==> {
                    let (link, payload) = #[trigger] round.wins[i];
                    &&& payload.len() > 0
                    &&& payload[0] == 0
                    &&& asked.contains(link)
                    &&& said.contains(Said { link, number, payload })
                }
            &&& forall|i: int|
                0 <= i < round.errors.len() ==> (#[trigger] round.errors[i]).len() > 0
                    && round.errors[i][0] != 0
        }),
    decreases said.len(),
{
    if said.len() > 0 {
        let init = said.drop_last();
        law_only_approvals_win(number, wait_all, asked, init);
        law_answers_that_count(number, wait_all, asked, init);
        law_answers_that_count(number, wait_all, asked, said);
        lemma_places(number, wait_all, asked, said, true);
        lemma_places(number, wait_all, asked, said, false);
        let before = Round::fresh(number, wait_all, asked).told(init);
        let round = Round::fresh(number, wait_all, asked).told(said);
        let last = said.last();
        assert forall|i: int| 0 <= i < round.wins.len() implies {
            let (link, payload) = #[trigger] round.wins[i];
            &&& payload.len() > 0
            &&& payload[0] == 0
            &&& asked.contains(link)
            &&& said.contains(Said { link, number, payload })
        } by {
            let (link, payload) = round.wins[i];
            if i < before.wins.len() {
                assert(round.wins[i] == before.wins[i]);
                assert(init.contains(Said { link, number, payload }));
                let k = choose|k: int|
                    0 <= k < init.len() && init[k] == (Said { link, number, payload });
                assert(said[k] == (Said { link, number, payload }));
            } else {
                assert(concerns(number, asked, said[said.len() - 1]));
                assert(said[said.len() - 1] == (Said { link, number, payload }));
            }
        }
        assert forall|i: int| 0 <= i < round.errors.len() implies (#[trigger] round.errors[i]).len()
            > 0 && round.errors[i][0] != 0 by {
            if i < before.errors.len() {
                assert(round.errors[i] == before.errors[i]);
            }
        }
    }
}

/// A round is waited for while somebody who was asked has not answered, nothing is decided,
/// there is time and the request is wanted; and not a moment longer.
pub proof fn law_round_ends(round: Round, in_time: bool, wanted: bool)
    ensures
        round.done ==> !round.waits(in_time, wanted),
        round.pending.len() == 0 ==> !round.waits(in_time, wanted),
        !round.waits(false, wanted),
        !round.waits(in_time, false),
        !round.done && round.pending.len() > 0 ==> round.waits(true, true),
{
}

/// What an authenticator is and can is asked of the first phone alone. The next assertion is
/// asked of the phone that gave the last, if it is connected, and of no other.
pub proof fn law_one_phone_is_asked(
    devices: Seq<Seq<char>>,
    last: Option<Seq<char>>,
    position: usize,
)
    requires
        devices.len() <= usize::MAX,
    ensures
        rounds_of(devices, None, 0x04, last).len() == 1,
        rounds_of(devices, None, 0x04, last)[0].contains(position) <==> position == 0
            && devices.len() > 0,
        rounds_of(devices, None, 0x08, last).len() == 1,
        rounds_of(devices, None, 0x08, last)[0].contains(position) <==> position < devices.len()
            && last == Some(devices[position as int]),
{
    if devices.len() > 0 {
        assert(seq![0usize][0] == 0);
    }
    if let Some(device) = last {
        law_chosen_phone_is_asked_alone(devices, device, 0x08, last, position);
    }
}

/// Everybody is asked once, in the order of the phones.
pub proof fn law_everybody_is_asked_in_order(
    devices: Seq<Seq<char>>,
    command: u8,
    last: Option<Seq<char>>,
)
    requires
        devices.len() <= usize::MAX,
        command != 0x04,
        command != 0x08,
    ensures
        ({
            let rounds = rounds_of(devices, None, command, last);
            &&& rounds.len() == 1
            &&& rounds[0].len() == devices.len()
            &&& forall|i: int| 0 <= i < devices.len() ==> #[trigger] rounds[0][i] == i
        }),
{
}

/// The rounds are asked one after the other, none is left out but those that ask nobody, and
/// after the last the host is told what failed.
pub proof fn law_rounds_come_in_turn(first: Seq<usize>, then: Seq<Seq<usize>>, errors: Seq<Seq<u8>>)
    ensures
        ({
            let course = Course { left: seq![first] + then, errors };
            &&& first.len() > 0 ==> next_round(course.left, 0) == 0 && course.taken() == (Course {
                left: then,
                errors,
            })
            &&& first.len() == 0 ==> course.taken() == (Course { left: then, errors }).taken()
        }),
        next_round(Seq::<Seq<usize>>::empty(), 0) == 0,
{
    let all = seq![first] + then;
    let course = Course { left: all, errors };
    assert(all[0] == first);
    assert(all.skip(1) =~= then);
    if first.len() == 0 {
        lemma_next_round(first, then, 0);
        let at = next_round(then, 0);
        lemma_next_round_bounds(then, 0);
        if at < then.len() {
            assert(all.skip(at + 2) =~= then.skip(at + 1));
        }
    }
}

/// Where the next round is, it stays within the rounds.
proof fn lemma_next_round_bounds(rounds: Seq<Seq<usize>>, from: int)
    requires
        0 <= from <= rounds.len(),
    ensures
        from <= next_round(rounds, from) <= rounds.len(),
    decreases rounds.len() - from,
{
    if from < rounds.len() && rounds[from].len() == 0 {
        lemma_next_round_bounds(rounds, from + 1);
    }
}

/// The next round with one more round before.
proof fn lemma_next_round(first: Seq<usize>, then: Seq<Seq<usize>>, from: int)
    requires
        0 <= from <= then.len(),
    ensures
        next_round(seq![first] + then, from + 1) == next_round(then, from) + 1,
    decreases then.len() - from,
{
    let all = seq![first] + then;
    if from < then.len() {
        assert(all[from + 1] == then[from]);
        if then[from].len() == 0 {
            lemma_next_round(first, then, from + 1);
        }
    }
}

/// The host is told the first answer that says more than that there is no credential; where
/// none does the first answer; and where there is none that something failed.
pub proof fn law_failure_that_is_told(errors: Seq<Seq<u8>>, k: int)
    ensures
        errors.len() == 0 ==> final_error_of(errors) == seq![0x7fu8],
        0 <= k < errors.len() && (errors[k].len() == 0 || errors[k][0] != 0x2e) && (forall|j: int|
            0 <= j < k ==> (#[trigger] errors[j]).len() > 0 && errors[j][0] == 0x2e)
            ==> final_error_of(errors) == errors[k],
        errors.len() > 0 && (forall|j: int|
            0 <= j < errors.len() ==> (#[trigger] errors[j]).len() > 0 && errors[j][0] == 0x2e)
            ==> final_error_of(errors) == errors[0],
{
    lemma_telling(errors, 0);
    let at = telling(errors, 0);
    if at < errors.len() {
        assert(tells(errors[at]));
    }
    if 0 <= k < errors.len() && k < at {
        assert(!tells(errors[k]));
    }
}

/// After a round without approval, what it brought is kept behind what was there; and nobody
/// else is asked where any of it says more than that there is no credential.
pub proof fn law_failures_are_kept(course: Course, errors: Seq<Seq<u8>>)
    ensures
        course.after(errors).errors == course.errors + errors,
        (exists|k: int|
            0 <= k < errors.len() && ((#[trigger] errors[k]).len() == 0 || errors[k][0] != 0x2e))
            ==> course.after(errors).left.len() == 0,
        (forall|k: int|
            0 <= k < errors.len() ==> (#[trigger] errors[k]).len() > 0 && errors[k][0] == 0x2e)
            ==> course.after(errors).left == course.left,
{
    lemma_telling(errors, 0);
    let at = telling(errors, 0);
    if at < errors.len() {
        assert(tells(errors[at]));
    }
    if exists|k: int|
        0 <= k < errors.len() && ((#[trigger] errors[k]).len() == 0 || errors[k][0] != 0x2e) {
        let k = choose|k: int|
            0 <= k < errors.len() && ((#[trigger] errors[k]).len() == 0 || errors[k][0] != 0x2e);
        assert(tells(errors[k]));
    }
}

/// What the host is told of a round is its first win, whole.
pub proof fn law_first_win_is_told(round: Round)
    ensures
        round.wins.len() == 0 ==> replied(round) is None,
        round.wins.len() > 0 ==> replied(round) == Some(round.wins.first().1),
{
}

/// The numbers of requests and of answers that count here.
pub proof fn law_numbers_of_requests_and_answers()
    ensures
        GET_INFO == 0x04,
        GET_NEXT_ASSERTION == 0x08,
        OPERATION_DENIED == 0x27,
        NO_CREDENTIALS == 0x2e,
        BEAT == 100,
{
}

} // verus!
