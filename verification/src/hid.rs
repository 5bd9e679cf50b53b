//! The CTAPHID side of the device: packets, channels, and the one request at a time.

use std::collections::HashMap;

use vstd::prelude::*;
use vstd::slice::*;

use crate::bytes::{
    append_bytes, be16, be32, be_bytes, be_value, bytes_between, lemma_be_bytes_2_wraps,
    lemma_be_value_2, lemma_be_value_4, lemma_be_value_of_bytes, read_be16, read_be32,
};

verus! {

broadcast use vstd::std_specs::hash::group_hash_axioms;

/// Echoes what it is sent.
pub const PING_CMD: u8 = 0x81;

/// Opens a channel, or starts one over.
pub const INIT: u8 = 0x86;

/// Asks the device to show itself.
pub const WINK: u8 = 0x88;

/// Carries a CTAP request or answer.
pub const CBOR: u8 = 0x90;

/// Withdraws the request of a channel.
pub const CANCEL_CMD: u8 = 0x91;

/// The device is still at work.
pub const KEEPALIVE: u8 = 0xbb;

/// Something went wrong.
pub const ERROR: u8 = 0xbf;

pub const ERR_INVALID_CMD: u8 = 0x01;

pub const ERR_INVALID_LEN: u8 = 0x03;

pub const ERR_INVALID_SEQ: u8 = 0x04;

pub const ERR_CHANNEL_BUSY: u8 = 0x06;

pub const ERR_INVALID_CHANNEL: u8 = 0x0b;

/// The CTAP answer when nothing better is known.
pub const CTAP2_ERR_OTHER: u8 = 0x7f;

/// The channel that everyone may use to open one.
pub const BROADCAST: u32 = 0xffff_ffff;

/// The longest message: what one initial packet and one hundred and twenty-eight
/// continuation packets hold.
pub const MAX_MESSAGE: usize = 7609;

/// How many bytes of a message an initial packet holds.
pub const INITIAL_ROOM: usize = 57;

/// How many bytes of a message a continuation packet holds.
pub const CONTINUATION_ROOM: usize = 59;

// ---------------------------------------------------------------------------
// Packets of an answer
// ---------------------------------------------------------------------------

/// The smaller of two numbers.
pub open spec fn least(a: int, b: int) -> int {
    if a <= b {
        a
    } else {
        b
    }
}

/// How many continuation packets a message of a length takes.
pub open spec fn continuations(length: nat) -> nat {
    if length <= INITIAL_ROOM {
        0
    } else {
        ((length - INITIAL_ROOM + CONTINUATION_ROOM - 1) / (CONTINUATION_ROOM as int)) as nat
    }
}

/// The first packet of a message: the channel, the command, the length, and as much of
/// the data as fits.
pub open spec fn initial_packet(channel: u32, command: u8, data: Seq<u8>) -> Seq<u8> {
    be_bytes(channel as nat, 4).push(command) + be_bytes(data.len(), 2) + data.take(
        least(data.len() as int, INITIAL_ROOM as int),
    )
}

/// Where the data of a continuation packet starts.
pub open spec fn continuation_start(k: int) -> int {
    INITIAL_ROOM + CONTINUATION_ROOM * k
}

/// The continuation packet number `k`: the channel, the number, and the data's next bytes.
pub open spec fn continuation_packet(channel: u32, k: int, data: Seq<u8>) -> Seq<u8> {
    be_bytes(channel as nat, 4).push((k % 256) as u8) + data.subrange(
        continuation_start(k),
        least(continuation_start(k + 1), data.len() as int),
    )
}

/// The packets of a message.
pub open spec fn packets_of(channel: u32, command: u8, data: Seq<u8>) -> Seq<Seq<u8>> {
    seq![initial_packet(channel, command, data)] + Seq::new(
        continuations(data.len()),
        |k: int| continuation_packet(channel, k, data),
    )
}

/// Vectors of bytes as sequences of bytes.
pub open spec fn byte_views(v: Seq<Vec<u8>>) -> Seq<Seq<u8>> {
    v.map_values(|bytes: Vec<u8>| bytes@)
}

/// The packets of a message.
pub fn reply(channel: u32, command: u8, data: &[u8]) -> (packets: Vec<Vec<u8>>)
    ensures
        byte_views(packets@) == packets_of(channel, command, data@),
{
    let mut packets: Vec<Vec<u8>> = Vec::new();
    let mut first = be32(channel);
    first.push(command);
    let length: u16 = (data.len() as u64 % 0x1_0000) as u16;
    proof {
        lemma_be_bytes_2_wraps(data@.len());
    }
    append_bytes(&mut first, be16(length).as_slice());
    let mut done: usize = if data.len() <= INITIAL_ROOM {
        data.len()
    } else {
        INITIAL_ROOM
    };
    append_bytes(&mut first, slice_subrange(data, 0, done));
    assert(first@ =~= initial_packet(channel, command, data@));
    packets.push(first);
    let mut sequence: u8 = 0;
    let ghost mut k: int = 0;
    proof {
        assert(byte_views(packets@) =~= packets_of(channel, command, data@).take(1));
    }
    while done < data.len()
        invariant
            done <= data@.len(),
            0 <= k <= continuations(data@.len()),
            done == least(continuation_start(k), data@.len() as int),
            sequence == k % 256,
            byte_views(packets@) == packets_of(channel, command, data@).take(k + 1),
        decreases data@.len() - done,
    {
        let count: usize = if data.len() - done <= CONTINUATION_ROOM {
            data.len() - done
        } else {
            CONTINUATION_ROOM
        };
        let mut packet = be32(channel);
        packet.push(sequence);
        append_bytes(&mut packet, slice_subrange(data, done, done + count));
        proof {
            assert(k < continuations(data@.len()));
            assert(packet@ =~= continuation_packet(channel, k, data@));
        }
        let ghost before = packets@;
        packets.push(packet);
        proof {
            assert(byte_views(packets@) =~= byte_views(before).push(packet@));
            assert(packets_of(channel, command, data@).take(k + 2) =~= packets_of(
                channel,
                command,
                data@,
            ).take(k + 1).push(packets_of(channel, command, data@)[k + 1]));
            k = k + 1;
        }
        done = done + count;
        sequence = sequence.wrapping_add(1);
    }
    proof {
        assert(k == continuations(data@.len()));
        assert(packets_of(channel, command, data@).take(k + 1) =~= packets_of(
            channel,
            command,
            data@,
        ));
    }
    packets
}

// ---------------------------------------------------------------------------
// Channels and requests
// ---------------------------------------------------------------------------

/// A message of which packets are still to come.
#[derive(Debug)]
pub struct Partial {
    /// What the message asks for.
    pub command: u8,
    /// How many bytes of data it has.
    pub total: usize,
    /// The data that is there.
    pub data: Vec<u8>,
    /// The number of the next packet.
    pub next_sequence: u8,
}

/// A message of which packets are still to come, as a value.
pub struct Assembly {
    pub command: u8,
    pub total: nat,
    pub data: Seq<u8>,
    pub next_sequence: u8,
}

impl View for Partial {
    type V = Assembly;

    open spec fn view(&self) -> Assembly {
        Assembly {
            command: self.command,
            total: self.total as nat,
            data: self.data@,
            next_sequence: self.next_sequence,
        }
    }
}

/// A CTAP request that the phones work on: the channel it came from, and its number, which
/// tells it from other requests.
#[derive(Clone, Copy, Debug, PartialEq, Eq, Structural)]
pub struct Request {
    /// The channel.
    pub channel: u32,
    /// The number.
    pub number: u32,
}

/// What the device remembers between packets.
#[derive(Debug)]
pub struct HidState {
    /// The messages under way, by their channels.
    pub partial: HashMap<u32, Partial>,
    /// The request that the device waits for.
    pub busy: Option<Request>,
    /// The number of the next request.
    pub next_request: u32,
    /// The number of the next channel.
    pub next_channel: u32,
}

/// What the device remembers between packets, as a value.
#[verifier::ext_equal]
pub struct Hid {
    pub partial: Map<u32, Assembly>,
    pub busy: Option<Request>,
    pub next_request: u32,
    pub next_channel: u32,
}

/// What the device does in answer to a packet.
#[derive(Debug, PartialEq, Eq)]
pub enum Action {
    /// Send a message on a channel.
    Reply { channel: u32, command: u8, data: Vec<u8> },
    /// Tell the phones that still work on a request that it is withdrawn.
    Withdraw { number: u32 },
    /// Put a request to the phones.
    Start { request: Request, data: Vec<u8> },
}

/// What the device does, as a value.
pub enum Act {
    Reply { channel: u32, command: u8, data: Seq<u8> },
    Withdraw { number: u32 },
    Start { request: Request, data: Seq<u8> },
}

impl View for Action {
    type V = Act;

    open spec fn view(&self) -> Act {
        match self {
            Action::Reply { channel, command, data } => Act::Reply {
                channel: *channel,
                command: *command,
                data: data@,
            },
            Action::Withdraw { number } => Act::Withdraw { number: *number },
            Action::Start { request, data } => Act::Start { request: *request, data: data@ },
        }
    }
}

/// Actions as values.
pub open spec fn acts(actions: Seq<Action>) -> Seq<Act> {
    actions.map_values(|action: Action| action@)
}

/// The answer that something is wrong.
pub open spec fn error_act(channel: u32, code: u8) -> Act {
    Act::Reply { channel, command: ERROR, data: seq![code] }
}

/// The channel that the next opening gets: neither zero nor the broadcast channel.
pub open spec fn free_channel(next: u32) -> u32 {
    if next == 0 || next == BROADCAST {
        1
    } else {
        next
    }
}

/// Withdraws the request, if there is one and it is on the channel (or no channel is
/// named); with `abandon`, the device no longer waits for it.
pub open spec fn cancelled(hid: Hid, channel: Option<u32>, abandon: bool) -> (Hid, Seq<Act>) {
    match hid.busy {
        None => (hid, Seq::empty()),
        Some(request) => {
            let busy = if abandon && channel == Some(request.channel) {
                None
            } else {
                hid.busy
            };
            let deeds = if channel is None || channel == Some(request.channel) {
                seq![Act::Withdraw { number: request.number }]
            } else {
                Seq::empty()
            };
            (Hid { busy, ..hid }, deeds)
        },
    }
}

/// Acts on a whole message.
pub open spec fn dispatched(
    hid: Hid,
    channel: u32,
    command: u8,
    data: Seq<u8>,
    connected: bool,
) -> (Hid, Seq<Act>) {
    if command == INIT {
        if data.len() != 8 {
            (hid, seq![error_act(channel, ERR_INVALID_LEN)])
        } else if channel == BROADCAST {
            let assigned = free_channel(hid.next_channel);
            (
                Hid { next_channel: (assigned + 1) as u32, ..hid },
                seq![opened(channel, assigned, data)],
            )
        } else {
            (hid, seq![opened(channel, channel, data)])
        }
    } else if channel == 0 || channel == BROADCAST {
        (hid, seq![error_act(channel, ERR_INVALID_CHANNEL)])
    } else if command == PING_CMD {
        (hid, seq![Act::Reply { channel, command: PING_CMD, data }])
    } else if command == WINK {
        (hid, seq![Act::Reply { channel, command: WINK, data: Seq::empty() }])
    } else if command != CBOR {
        (hid, seq![error_act(channel, ERR_INVALID_CMD)])
    } else if data.len() == 0 || !connected {
        (hid, seq![Act::Reply { channel, command: CBOR, data: seq![CTAP2_ERR_OTHER] }])
    } else {
        let counted = Hid { next_request: after(hid.next_request), ..hid };
        if hid.busy is Some {
            (counted, seq![error_act(channel, ERR_CHANNEL_BUSY)])
        } else {
            let request = Request { channel, number: hid.next_request };
            (Hid { busy: Some(request), ..counted }, seq![Act::Start { request, data }])
        }
    }
}

/// The number after a number; zero is after the last.
pub open spec fn after(n: u32) -> u32 {
    if n == u32::MAX {
        0
    } else {
        (n + 1) as u32
    }
}

/// The answer to an opening: what was sent, the channel, and what the device is and can.
pub open spec fn opened(channel: u32, assigned: u32, nonce: Seq<u8>) -> Act {
    Act::Reply {
        channel,
        command: INIT,
        data: nonce + be_bytes(assigned as nat, 4) + seq![2u8, 1u8, 0u8, 0u8, 0x0du8],
    }
}

/// Acts on the message of a channel if it is whole.
pub open spec fn completed(hid: Hid, channel: u32, connected: bool) -> (Hid, Seq<Act>) {
    if hid.partial.contains_key(channel) && hid.partial[channel].data.len()
        >= hid.partial[channel].total {
        let message = hid.partial[channel];
        dispatched(
            Hid { partial: hid.partial.remove(channel), ..hid },
            channel,
            message.command,
            message.data,
            connected,
        )
    } else {
        (hid, Seq::empty())
    }
}

/// The channel of a packet.
pub open spec fn channel_of(packet: Seq<u8>) -> u32 {
    be_value(packet.take(4)) as u32
}

/// The length that an initial packet gives to its message.
pub open spec fn total_of(packet: Seq<u8>) -> nat {
    be_value(packet.subrange(5, 7))
}

/// Begins a message on a channel.
pub open spec fn begun(hid: Hid, channel: u32, command: u8, total: nat, data: Seq<u8>) -> Hid {
    Hid {
        partial: hid.partial.insert(
            channel,
            Assembly { command, total, data, next_sequence: 0 },
        ),
        ..hid
    }
}

/// Acts on the beginning of a message. A message that is too long, and one on another
/// channel than that of the request the device is busy with, are refused; an opening is
/// never refused for that, and it starts its channel over.
pub open spec fn initial_received(
    hid: Hid,
    channel: u32,
    command: u8,
    total: nat,
    data: Seq<u8>,
    connected: bool,
) -> (Hid, Seq<Act>) {
    if total > MAX_MESSAGE {
        (hid, seq![error_act(channel, ERR_INVALID_LEN)])
    } else if command == CANCEL_CMD {
        cancelled(hid, Some(channel), false)
    } else if command == INIT {
        let (free, withdrawn) = cancelled(hid, Some(channel), true);
        let (next, answered) = completed(
            begun(free, channel, command, total, data),
            channel,
            connected,
        );
        (next, withdrawn + answered)
    } else if hid.busy is Some && hid.busy->0.channel != channel {
        (hid, seq![error_act(channel, ERR_CHANNEL_BUSY)])
    } else {
        completed(begun(hid, channel, command, total, data), channel, connected)
    }
}

/// A message with more of its data: no more than it lacks.
pub open spec fn lengthened(message: Assembly, data: Seq<u8>) -> Assembly {
    Assembly {
        data: message.data + data.take(
            least(message.total - message.data.len(), data.len() as int),
        ),
        next_sequence: if message.next_sequence == 255 {
            0
        } else {
            (message.next_sequence + 1) as u8
        },
        ..message
    }
}

/// Acts on the continuation of a message. One that nobody waits for is passed over; one
/// out of order ends its message.
pub open spec fn continuation_received(
    hid: Hid,
    channel: u32,
    sequence: u8,
    data: Seq<u8>,
    connected: bool,
) -> (Hid, Seq<Act>) {
    if !hid.partial.contains_key(channel) {
        (hid, Seq::empty())
    } else if sequence != hid.partial[channel].next_sequence {
        (
            Hid { partial: hid.partial.remove(channel), ..hid },
            seq![error_act(channel, ERR_INVALID_SEQ)],
        )
    } else {
        completed(
            Hid {
                partial: hid.partial.insert(channel, lengthened(hid.partial[channel], data)),
                ..hid
            },
            channel,
            connected,
        )
    }
}

/// Acts on a packet. One that is too short is passed over.
pub open spec fn received(hid: Hid, packet: Seq<u8>, connected: bool) -> (Hid, Seq<Act>) {
    if packet.len() < 5 {
        (hid, Seq::empty())
    } else if packet[4] >= 128 {
        if packet.len() < 7 {
            (hid, Seq::empty())
        } else {
            let total = total_of(packet);
            initial_received(
                hid,
                channel_of(packet),
                packet[4],
                total,
                packet.subrange(7, least(packet.len() as int, 7 + total as int)),
                connected,
            )
        }
    } else {
        continuation_received(hid, channel_of(packet), packet[4], packet.skip(5), connected)
    }
}

/// The answer that something is wrong.
fn error(channel: u32, code: u8) -> (actions: Vec<Action>)
    ensures
        acts(actions@) == seq![error_act(channel, code)],
{
    let data: Vec<u8> = vec![code];
    let actions: Vec<Action> = vec![Action::Reply { channel, command: ERROR, data }];
    proof {
        assert(data@ =~= seq![code]);
        assert(acts(actions@) =~= seq![error_act(channel, code)]);
    }
    actions
}

/// One answer.
fn answer(channel: u32, command: u8, data: Vec<u8>) -> (actions: Vec<Action>)
    ensures
        acts(actions@) == seq![Act::Reply { channel, command, data: data@ }],
{
    let actions: Vec<Action> = vec![Action::Reply { channel, command, data }];
    assert(acts(actions@) =~= seq![Act::Reply { channel, command, data: data@ }]);
    actions
}

/// Nothing.
fn nothing() -> (actions: Vec<Action>)
    ensures
        acts(actions@) == Seq::<Act>::empty(),
{
    let actions: Vec<Action> = Vec::new();
    assert(acts(actions@) =~= Seq::<Act>::empty());
    actions
}

impl View for HidState {
    type V = Hid;

    open spec fn view(&self) -> Hid {
        Hid {
            partial: self.partial@.map_values(|message: Partial| message@),
            busy: self.busy,
            next_request: self.next_request,
            next_channel: self.next_channel,
        }
    }
}

impl Hid {
    /// No message that is under way holds more than it should, or is too long.
    pub open spec fn wf(self) -> bool {
        forall|channel: u32| #[trigger]
            self.partial.contains_key(channel) ==> self.partial[channel].data.len()
                <= self.partial[channel].total <= MAX_MESSAGE
    }
}

impl HidState {
    /// A device that has seen nothing yet; its first channel is the given number, or one.
    pub fn new(first_channel: u32) -> (state: HidState)
        ensures
            state@.wf(),
            state@ == (Hid {
                partial: Map::empty(),
                busy: None,
                next_request: 1,
                next_channel: if first_channel == 0 {
                    1
                } else {
                    first_channel
                },
            }),
    {
        let state = HidState {
            partial: HashMap::new(),
            busy: None,
            next_request: 1,
            next_channel: if first_channel == 0 {
                1
            } else {
                first_channel
            },
        };
        assert(state@.partial =~= Map::empty());
        state
    }

    /// Withdraws the request, if there is one and it is on the channel (or no channel is
    /// named); with `abandon`, the device no longer waits for it.
    pub fn cancel(&mut self, channel: Option<u32>, abandon: bool) -> (actions: Vec<Action>)
        ensures
            final(self)@ == cancelled(old(self)@, channel, abandon).0,
            acts(actions@) == cancelled(old(self)@, channel, abandon).1,
    {
        match self.busy {
            None => nothing(),
            Some(request) => {
                let named = match channel {
                    Some(channel) => channel == request.channel,
                    None => false,
                };
                if abandon && named {
                    self.busy = None;
                }
                if channel.is_none() || named {
                    let actions: Vec<Action> = vec![Action::Withdraw { number: request.number }];
                    assert(acts(actions@) =~= seq![Act::Withdraw { number: request.number }]);
                    actions
                } else {
                    nothing()
                }
            },
        }
    }

    /// The number of a channel that nobody has been given yet.
    fn open_channel(&mut self) -> (channel: u32)
        ensures
            channel == free_channel(old(self)@.next_channel),
            final(self)@ == (Hid { next_channel: (channel + 1) as u32, ..old(self)@ }),
    {
        let channel: u32 = if self.next_channel == 0 || self.next_channel == BROADCAST {
            1
        } else {
            self.next_channel
        };
        self.next_channel = channel + 1;
        channel
    }

    /// Acts on a whole message.
    pub fn dispatch(&mut self, channel: u32, command: u8, data: Vec<u8>, connected: bool) -> (actions:
        Vec<Action>)
        ensures
            final(self)@ == dispatched(old(self)@, channel, command, data@, connected).0,
            acts(actions@) == dispatched(old(self)@, channel, command, data@, connected).1,
    {
        if command == INIT {
            if data.len() != 8 {
                return error(channel, ERR_INVALID_LEN);
            }
            let assigned: u32 = if channel == BROADCAST {
                self.open_channel()
            } else {
                channel
            };
            let ghost nonce = data@;
            let mut reply = data;
            append_bytes(&mut reply, be32(assigned).as_slice());
            let capabilities: Vec<u8> = vec![2, 1, 0, 0, 0x0d];
            assert(capabilities@ =~= seq![2u8, 1u8, 0u8, 0u8, 0x0du8]);
            append_bytes(&mut reply, capabilities.as_slice());
            return answer(channel, INIT, reply);
        }
        if channel == 0 || channel == BROADCAST {
            return error(channel, ERR_INVALID_CHANNEL);
        }
        if command == PING_CMD {
            return answer(channel, PING_CMD, data);
        }
        if command == WINK {
            return answer(channel, WINK, Vec::new());
        }
        if command != CBOR {
            return error(channel, ERR_INVALID_CMD);
        }
        if data.len() == 0 || !connected {
            let other: Vec<u8> = vec![CTAP2_ERR_OTHER];
            assert(other@ =~= seq![CTAP2_ERR_OTHER]);
            return answer(channel, CBOR, other);
        }
        let request = Request { channel, number: self.next_request };
        self.next_request = self.next_request.wrapping_add(1);
        if self.busy.is_some() {
            return error(channel, ERR_CHANNEL_BUSY);
        }
        self.busy = Some(request);
        let actions: Vec<Action> = vec![Action::Start { request, data }];
        assert(acts(actions@) =~= seq![Act::Start { request, data: data@ }]);
        actions
    }

    /// Acts on the message of a channel if it is whole.
    fn complete(&mut self, channel: u32, connected: bool) -> (actions: Vec<Action>)
        requires
            old(self)@.wf(),
        ensures
            final(self)@.wf(),
            final(self)@ == completed(old(self)@, channel, connected).0,
            acts(actions@) == completed(old(self)@, channel, connected).1,
    {
        let whole = match self.partial.get(&channel) {
            Some(message) => message.data.len() >= message.total,
            None => false,
        };
        if whole {
            let ghost before = self@;
            match self.partial.remove(&channel) {
                Some(message) => {
                    assert(self@.partial =~= before.partial.remove(channel));
                    self.dispatch(channel, message.command, message.data, connected)
                },
                None => nothing(),
            }
        } else {
            nothing()
        }
    }

    /// Acts on a packet.
    pub fn packet(&mut self, packet: &[u8], connected: bool) -> (actions: Vec<Action>)
        requires
            old(self)@.wf(),
        ensures
            final(self)@.wf(),
            final(self)@ == received(old(self)@, packet@, connected).0,
            acts(actions@) == received(old(self)@, packet@, connected).1,
    {
        if packet.len() < 5 {
            return nothing();
        }
        let channel: u32 = read_be32(packet, 0);
        assert(packet@.subrange(0, 4) =~= packet@.take(4));
        let byte: u8 = packet[4];
        assert((byte & 0x80 != 0) == (byte >= 128)) by (bit_vector);
        if byte & 0x80 != 0 {
            if packet.len() < 7 {
                return nothing();
            }
            let total: usize = read_be16(packet, 5) as usize;
            if total > MAX_MESSAGE {
                return error(channel, ERR_INVALID_LEN);
            }
            if byte == CANCEL_CMD {
                return self.cancel(Some(channel), false);
            }
            let mut actions = nothing();
            if byte == INIT {
                actions = self.cancel(Some(channel), true);
            } else if let Some(request) = self.busy {
                if request.channel != channel {
                    return error(channel, ERR_CHANNEL_BUSY);
                }
            }
            let end: usize = if packet.len() <= 7 + total {
                packet.len()
            } else {
                7 + total
            };
            let message = Partial {
                command: byte,
                total,
                data: bytes_between(packet, 7, end),
                next_sequence: 0,
            };
            let ghost before = self@;
            self.partial.insert(channel, message);
            assert(self@ =~= begun(before, channel, byte, total as nat, message.data@));
            let ghost withdrawn = acts(actions@);
            let mut answered = self.complete(channel, connected);
            assert(acts(actions@ + answered@) =~= withdrawn + acts(answered@));
            actions.append(&mut answered);
            assert(withdrawn.len() == 0 ==> acts(actions@) =~= completed(
                begun(before, channel, byte, total as nat, message.data@),
                channel,
                connected,
            ).1);
            actions
        } else {
            let ghost before = self@;
            match self.partial.remove(&channel) {
                None => {
                    assert(self@.partial =~= before.partial);
                    nothing()
                },
                Some(old_message) => {
                    assert(self@.partial =~= before.partial.remove(channel));
                    assert(before.partial.contains_key(channel) && before.partial[channel]
                        == old_message@);
                    let mut message = old_message;
                    if byte != message.next_sequence {
                        return error(channel, ERR_INVALID_SEQ);
                    }
                    let missing: usize = message.total - message.data.len();
                    let count: usize = if missing <= packet.len() - 5 {
                        missing
                    } else {
                        packet.len() - 5
                    };
                    append_bytes(&mut message.data, slice_subrange(packet, 5, 5 + count));
                    assert(packet@.subrange(5, 5 + count) =~= packet@.skip(5).take(count as int));
                    message.next_sequence = message.next_sequence.wrapping_add(1);
                    self.partial.insert(channel, message);
                    assert(self@.partial =~= before.partial.insert(channel, message@));
                    self.complete(channel, connected)
                },
            }
        }
    }

    /// Whether the device still waits for a request.
    pub fn request_is_current(&self, number: u32) -> (current: bool)
        ensures
            current == (self@.busy is Some && self@.busy->0.number == number),
    {
        match self.busy {
            Some(request) => request.number == number,
            None => false,
        }
    }

    /// The device no longer waits for a request, if it did.
    pub fn finish_request(&mut self, number: u32)
        ensures
            final(self)@ == (if old(self)@.busy is Some && old(self)@.busy->0.number == number {
                Hid { busy: None, ..old(self)@ }
            } else {
                old(self)@
            }),
    {
        if self.request_is_current(number) {
            self.busy = None;
        }
    }
}

// ---------------------------------------------------------------------------
// Laws
// ---------------------------------------------------------------------------

/// A packet as it travels: sixty-four bytes, zeros after its own.
pub open spec fn padded(packet: Seq<u8>) -> Seq<u8> {
    packet + Seq::new((64 - packet.len()) as nat, |i: int| 0u8)
}

/// The packets of a message as they travel.
pub open spec fn reports_of(channel: u32, command: u8, data: Seq<u8>) -> Seq<Seq<u8>> {
    packets_of(channel, command, data).map_values(|packet: Seq<u8>| padded(packet))
}

/// Acts on packets, one after the other.
pub open spec fn fed(hid: Hid, packets: Seq<Seq<u8>>, connected: bool) -> (Hid, Seq<Act>)
    decreases packets.len(),
{
    if packets.len() == 0 {
        (hid, Seq::empty())
    } else {
        let (before, deeds) = fed(hid, packets.drop_last(), connected);
        let (next, more) = received(before, packets.last(), connected);
        (next, deeds + more)
    }
}

/// What the first packet of a message does before its data counts: an opening starts its
/// channel over.
pub open spec fn admitted(hid: Hid, channel: u32, command: u8) -> (Hid, Seq<Act>) {
    if command == INIT {
        cancelled(hid, Some(channel), true)
    } else {
        (hid, Seq::empty())
    }
}

/// The message of a channel after the initial packet and `k` continuation packets.
spec fn partway(hid: Hid, channel: u32, command: u8, data: Seq<u8>, k: int) -> Hid {
    let assembly = Assembly {
        command,
        total: data.len(),
        data: data.take(least(continuation_start(k), data.len() as int)),
        next_sequence: k as u8,
    };
    Hid { partial: hid.partial.insert(channel, assembly), ..hid }
}

/// What is read of an initial packet.
proof fn lemma_initial_packet(channel: u32, command: u8, data: Seq<u8>)
    requires
        data.len() <= MAX_MESSAGE,
    ensures
        ({
            let packet = padded(initial_packet(channel, command, data));
            &&& packet.len() == 64
            &&& channel_of(packet) == channel
            &&& packet[4] == command
            &&& total_of(packet) == data.len()
            &&& packet.subrange(7, least(64, 7 + data.len() as int)) == data.take(
                least(data.len() as int, INITIAL_ROOM as int),
            )
        }),
{
    let packet = padded(initial_packet(channel, command, data));
    lemma_be_value_of_bytes(channel as nat);
    lemma_be_value_of_bytes(data.len());
    assert(packet.take(4) =~= be_bytes(channel as nat, 4));
    assert(packet.subrange(5, 7) =~= be_bytes(data.len(), 2));
    assert(packet.subrange(7, least(64, 7 + data.len() as int)) =~= data.take(
        least(data.len() as int, INITIAL_ROOM as int),
    ));
}

/// What is read of a continuation packet.
proof fn lemma_continuation_packet(channel: u32, k: int, data: Seq<u8>)
    requires
        0 <= k < 128,
        continuation_start(k) < data.len(),
    ensures
        ({
            let packet = padded(continuation_packet(channel, k, data));
            let count = least(data.len() - continuation_start(k), CONTINUATION_ROOM as int);
            &&& packet.len() == 64
            &&& channel_of(packet) == channel
            &&& packet[4] == k
            &&& packet.subrange(5, 5 + count) == data.subrange(
                continuation_start(k),
                continuation_start(k) + count,
            )
        }),
{
    let packet = padded(continuation_packet(channel, k, data));
    let count = least(data.len() - continuation_start(k), CONTINUATION_ROOM as int);
    lemma_be_value_of_bytes(channel as nat);
    assert(packet.take(4) =~= be_bytes(channel as nat, 4));
    assert(packet.subrange(5, 5 + count) =~= data.subrange(
        continuation_start(k),
        continuation_start(k) + count,
    ));
}

/// A message begins as it stands after its initial packet.
proof fn lemma_begun(start: Hid, channel: u32, command: u8, data: Seq<u8>)
    ensures
        begun(
            start,
            channel,
            command,
            data.len(),
            data.take(least(data.len() as int, INITIAL_ROOM as int)),
        ) == partway(start, channel, command, data, 0),
{
    let now = partway(start, channel, command, data, 0);
    let begin = begun(
        start,
        channel,
        command,
        data.len(),
        data.take(least(data.len() as int, INITIAL_ROOM as int)),
    );
    assert(begin.partial =~= now.partial);
}

/// What the device does with the initial packet of a message.
proof fn lemma_first_packet(
    hid: Hid,
    channel: u32,
    command: u8,
    data: Seq<u8>,
    connected: bool,
)
    requires
        data.len() <= MAX_MESSAGE,
        command >= 128,
        command != CANCEL_CMD,
        command == INIT || hid.busy is None || hid.busy->0.channel == channel,
    ensures
        received(hid, padded(initial_packet(channel, command, data)), connected) == ({
            let (start, withdrawn) = admitted(hid, channel, command);
            let (next, answered) = completed(
                partway(start, channel, command, data, 0),
                channel,
                connected,
            );
            (next, withdrawn + answered)
        }),
{
    let packet = padded(initial_packet(channel, command, data));
    let chunk = data.take(least(data.len() as int, INITIAL_ROOM as int));
    assert(received(hid, packet, connected) == initial_received(
        hid,
        channel,
        command,
        data.len(),
        chunk,
        connected,
    )) by {
        lemma_initial_packet(channel, command, data);
    }
    let (start, withdrawn) = admitted(hid, channel, command);
    lemma_begun(start, channel, command, data);
    let answered = completed(partway(start, channel, command, data, 0), channel, connected).1;
    assert(Seq::<Act>::empty() + answered =~= answered);
}

/// A message after the continuation packet number `k`.
#[verifier::spinoff_prover]
#[verifier::rlimit(60)]
proof fn lemma_lengthened(start: Hid, channel: u32, command: u8, data: Seq<u8>, k: int)
    requires
        data.len() <= MAX_MESSAGE,
        0 <= k < continuations(data.len()),
    ensures
        lengthened(
            partway(start, channel, command, data, k).partial[channel],
            padded(continuation_packet(channel, k, data)).skip(5),
        ) == partway(start, channel, command, data, k + 1).partial[channel],
{
    let packet = padded(continuation_packet(channel, k, data));
    let have = continuation_start(k);
    assert(have < data.len());
    let count = least(data.len() - have, CONTINUATION_ROOM as int);
    assert(packet.skip(5).take(count) == data.subrange(have, have + count)) by {
        lemma_continuation_packet(channel, k, data);
        assert(packet.skip(5).take(count) =~= packet.subrange(5, 5 + count));
    }
    assert(packet.skip(5).len() == 59) by {
        lemma_continuation_packet(channel, k, data);
    }
    assert(data.take(have) + data.subrange(have, have + count) =~= data.take(
        least(continuation_start(k + 1), data.len() as int),
    ));
}

/// What the device does with the continuation packet number `k` of a message.
proof fn lemma_next_packet(
    start: Hid,
    channel: u32,
    command: u8,
    data: Seq<u8>,
    connected: bool,
    k: int,
)
    requires
        data.len() <= MAX_MESSAGE,
        0 <= k < continuations(data.len()),
    ensures
        completed(partway(start, channel, command, data, k), channel, connected) == (
            partway(start, channel, command, data, k),
            Seq::<Act>::empty(),
        ),
        received(
            partway(start, channel, command, data, k),
            padded(continuation_packet(channel, k, data)),
            connected,
        ) == completed(partway(start, channel, command, data, k + 1), channel, connected),
{
    let before = partway(start, channel, command, data, k);
    let now = partway(start, channel, command, data, k + 1);
    let packet = padded(continuation_packet(channel, k, data));
    assert(continuation_start(k) < data.len());
    assert(received(before, packet, connected) == continuation_received(
        before,
        channel,
        k as u8,
        packet.skip(5),
        connected,
    )) by {
        lemma_continuation_packet(channel, k, data);
    }
    lemma_lengthened(start, channel, command, data, k);
    assert(before.partial.insert(channel, now.partial[channel]) =~= now.partial);
}

/// The state and the actions after the initial packet and `k` continuation packets.
proof fn lemma_fed(hid: Hid, channel: u32, command: u8, data: Seq<u8>, connected: bool, k: int)
    requires
        data.len() <= MAX_MESSAGE,
        command >= 128,
        command != CANCEL_CMD,
        command == INIT || hid.busy is None || hid.busy->0.channel == channel,
        0 <= k <= continuations(data.len()),
    ensures
        fed(hid, reports_of(channel, command, data).take(k + 1), connected) == ({
            let (start, withdrawn) = admitted(hid, channel, command);
            let (next, answered) = completed(
                partway(start, channel, command, data, k),
                channel,
                connected,
            );
            (next, withdrawn + answered)
        }),
    decreases k,
{
    let reports = reports_of(channel, command, data);
    let withdrawn = admitted(hid, channel, command).1;
    let start = admitted(hid, channel, command).0;
    assert(reports.take(k + 1).drop_last() =~= reports.take(k));
    assert(reports.take(k + 1).last() == reports[k]);
    if k == 0 {
        let packet = padded(initial_packet(channel, command, data));
        assert(reports[0] == packet);
        lemma_first_packet(hid, channel, command, data, connected);
        assert(fed(hid, reports.take(0), connected) == (hid, Seq::<Act>::empty()));
        assert(Seq::<Act>::empty() + received(hid, packet, connected).1 =~= received(
            hid,
            packet,
            connected,
        ).1);
    } else {
        lemma_fed(hid, channel, command, data, connected, k - 1);
        lemma_next_packet(start, channel, command, data, connected, k - 1);
        assert(reports[k] == padded(continuation_packet(channel, k - 1, data)));
        let answered = completed(partway(start, channel, command, data, k), channel, connected).1;
        assert(withdrawn + Seq::<Act>::empty() =~= withdrawn);
    }
}

/// The packets of a message, fed to a device that does not refuse it, make the device act
/// on exactly that message: not before the last packet, and then once, on the data that was
/// cut up. All that happens before the last packet is that an opening withdraws a request on
/// its channel.
pub proof fn law_message_is_put_together_again(
    hid: Hid,
    channel: u32,
    command: u8,
    data: Seq<u8>,
    connected: bool,
)
    requires
        data.len() <= MAX_MESSAGE,
        command >= 128,
        command != CANCEL_CMD,
        command == INIT || hid.busy is None || hid.busy->0.channel == channel,
    ensures
        ({
            let (start, withdrawn) = admitted(hid, channel, command);
            let (next, answered) = dispatched(
                Hid { partial: start.partial.remove(channel), ..start },
                channel,
                command,
                data,
                connected,
            );
            let reports = reports_of(channel, command, data);
            &&& fed(hid, reports, connected) == (next, withdrawn + answered)
            &&& fed(hid, reports.take(0), connected) == (hid, Seq::<Act>::empty())
            &&& forall|m: int|
                1 <= m < reports.len() ==> fed(hid, #[trigger] reports.take(m), connected).1
                    == withdrawn
        }),
{
    let reports = reports_of(channel, command, data);
    let k = continuations(data.len()) as int;
    assert forall|m: int| 1 <= m < reports.len() implies fed(
        hid,
        #[trigger] reports.take(m),
        connected,
    ).1 == admitted(hid, channel, command).1 by {
        let (start, withdrawn) = admitted(hid, channel, command);
        lemma_fed(hid, channel, command, data, connected, m - 1);
        lemma_next_packet(start, channel, command, data, connected, m - 1);
        assert(withdrawn + Seq::<Act>::empty() =~= withdrawn);
    }
    lemma_fed(hid, channel, command, data, connected, k);
    assert(reports.take(k + 1) =~= reports);
    let (start, withdrawn) = admitted(hid, channel, command);
    let now = partway(start, channel, command, data, k);
    assert(data.take(data.len() as int) =~= data);
    assert(now.partial.remove(channel) =~= start.partial.remove(channel));
}

/// A message on another channel than that of the request the device is busy with is
/// answered that the channel is busy, and nothing changes.
pub proof fn law_busy_device_refuses(hid: Hid, packet: Seq<u8>, connected: bool)
    requires
        hid.busy is Some,
        packet.len() >= 7,
        packet[4] >= 128,
        packet[4] != INIT,
        packet[4] != CANCEL_CMD,
        channel_of(packet) != hid.busy->0.channel,
        total_of(packet) <= MAX_MESSAGE,
    ensures
        received(hid, packet, connected) == (
            hid,
            seq![error_act(channel_of(packet), ERR_CHANNEL_BUSY)],
        ),
{
}

/// Whatever the packet: messages under way stay within bounds; a request is started only
/// when the device was busy with none, and the device is busy with it then.
pub proof fn law_one_request_at_a_time(hid: Hid, packet: Seq<u8>, connected: bool)
    requires
        hid.wf(),
    ensures
        received(hid, packet, connected).0.wf(),
        forall|i: int|
            0 <= i < received(hid, packet, connected).1.len() ==> (
            #[trigger] received(hid, packet, connected).1[i] matches Act::Start { request, data }
                ==> {
                &&& hid.busy is None
                &&& received(hid, packet, connected).0.busy == Some(request)
                &&& request.number == hid.next_request
                &&& request.channel == channel_of(packet)
                &&& connected
                &&& data.len() > 0
            }),
{
}

/// A channel that is assigned is neither zero nor the broadcast channel, and the next one
/// assigned is another.
pub proof fn law_assigned_channels_are_usable(next: u32)
    ensures
        free_channel(next) != 0,
        free_channel(next) != BROADCAST,
        free_channel((free_channel(next) + 1) as u32) != free_channel(next),
{
}

/// Withdrawing without abandoning changes nothing; abandoning ends only the request of the
/// channel named; and only the request that the device was busy with is withdrawn.
pub proof fn law_cancel_touches_one_request(hid: Hid, channel: Option<u32>, abandon: bool)
    ensures
        cancelled(hid, channel, abandon).0 == (Hid {
            busy: cancelled(hid, channel, abandon).0.busy,
            ..hid
        }),
        cancelled(hid, channel, abandon).0.busy == hid.busy || (abandon && hid.busy is Some
            && channel == Some(hid.busy->0.channel) && cancelled(hid, channel, abandon).0.busy
            is None),
        cancelled(hid, channel, abandon).1.len() <= 1,
        cancelled(hid, channel, abandon).1.len() == 1 ==> hid.busy is Some && cancelled(
            hid,
            channel,
            abandon,
        ).1[0] == (Act::Withdraw { number: hid.busy->0.number }),
{
}

/// The packets of a request, fed to a device that is connected and not busy, make it put
/// exactly one request to the phones, with the data that was cut into the packets; and the
/// device is then busy with it.
pub proof fn law_request_reaches_the_phones(hid: Hid, channel: u32, data: Seq<u8>)
    requires
        channel != 0,
        channel != 0xffff_ffff,
        0 < data.len() <= 7609,
        hid.busy is None,
    ensures
        ({
            let (next, deeds) = fed(hid, reports_of(channel, 0x90, data), true);
            let request = Request { channel, number: hid.next_request };
            &&& deeds == seq![Act::Start { request, data }]
            &&& next.busy == Some(request)
            &&& next.next_request == (if hid.next_request == 0xffff_ffff {
                0
            } else {
                hid.next_request + 1
            })
            &&& next.next_channel == hid.next_channel
            &&& next.partial == hid.partial.remove(channel)
        }),
{
    law_message_is_put_together_again(hid, channel, 0x90, data, true);
    let start = Act::Start { request: Request { channel, number: hid.next_request }, data };
    assert(Seq::<Act>::empty() + seq![start] =~= seq![start]);
}

/// A request that one packet holds is put to the phones with the bytes that the packet says
/// are its own, whatever follows them.
pub proof fn law_short_request_reaches_the_phones(hid: Hid, packet: Seq<u8>)
    requires
        packet.len() >= 7,
        packet[4] == 0x90,
        0 < packet[5] * 256 + packet[6] <= packet.len() - 7,
        packet[5] * 256 + packet[6] <= 7609,
        !(packet[0] == 0 && packet[1] == 0 && packet[2] == 0 && packet[3] == 0),
        !(packet[0] == 255 && packet[1] == 255 && packet[2] == 255 && packet[3] == 255),
        hid.busy is None,
    ensures
        ({
            let channel = packet[0] * 0x100_0000 + packet[1] * 0x1_0000 + packet[2] * 0x100
                + packet[3];
            let deeds = received(hid, packet, true).1;
            &&& deeds.len() == 1
            &&& deeds[0] matches Act::Start { request, data } && request.channel == channel
                && request.number == hid.next_request && data == packet.subrange(
                7,
                7 + packet[5] * 256 + packet[6],
            )
        }),
{
    lemma_be_value_4(packet.take(4));
    lemma_be_value_2(packet.subrange(5, 7));
}

/// The bytes of the packets of a message: four of the channel and one of the command, two of
/// the length, and then the data; in every further packet four of the channel, the number of
/// the packet, and the data that follows. Each number has its most significant byte first, and
/// no packet has more than sixty-four bytes.
pub proof fn law_packets_are_laid_out(channel: u32, command: u8, data: Seq<u8>, k: int, i: int)
    requires
        0 <= k < continuations(data.len()),
    ensures
        ({
            let packets = packets_of(channel, command, data);
            let first = packets[0];
            let more = packets[k + 1];
            &&& first.len() == 64
            &&& first[0] * 0x100_0000 + first[1] * 0x1_0000 + first[2] * 0x100 + first[3] == channel
            &&& first[4] == command
            &&& first[5] * 256 + first[6] == data.len() % 0x1_0000
            &&& 0 <= i < 57 ==> first[7 + i] == data[i]
            &&& more[0] * 0x100_0000 + more[1] * 0x1_0000 + more[2] * 0x100 + more[3] == channel
            &&& more[4] == k % 256
            &&& 5 < more.len() <= 64
            &&& k + 1 < continuations(data.len()) ==> more.len() == 64
            &&& k + 1 == continuations(data.len()) ==> 57 + 59 * k + more.len() - 5 == data.len()
            &&& 0 <= i < more.len() - 5 ==> more[5 + i] == data[57 + 59 * k + i]
            &&& packets.len() == continuations(data.len()) + 1
        }),
{
    let packets = packets_of(channel, command, data);
    let first = packets[0];
    let more = packets[k + 1];
    lemma_be_value_of_bytes(channel as nat);
    lemma_be_bytes_2_wraps(data.len());
    lemma_be_value_of_bytes(data.len() % 0x1_0000);
    assert(first == initial_packet(channel, command, data));
    assert(more == continuation_packet(channel, k, data));
    assert(first.take(4) =~= be_bytes(channel as nat, 4));
    assert(first.subrange(5, 7) =~= be_bytes(data.len(), 2));
    assert(more.take(4) =~= be_bytes(channel as nat, 4));
    lemma_be_value_4(first.take(4));
    lemma_be_value_2(first.subrange(5, 7));
    lemma_be_value_4(more.take(4));
}

/// A message that one packet holds is one packet.
pub proof fn law_short_message_is_one_packet(channel: u32, command: u8, data: Seq<u8>, i: int)
    requires
        data.len() <= 57,
    ensures
        ({
            let packets = packets_of(channel, command, data);
            let first = packets[0];
            &&& packets.len() == 1
            &&& first.len() == 7 + data.len()
            &&& first[0] * 0x100_0000 + first[1] * 0x1_0000 + first[2] * 0x100 + first[3] == channel
            &&& first[4] == command
            &&& first[5] * 256 + first[6] == data.len()
            &&& 0 <= i < data.len() ==> first[7 + i] == data[i]
        }),
{
    let first = packets_of(channel, command, data)[0];
    lemma_be_value_of_bytes(channel as nat);
    lemma_be_value_of_bytes(data.len());
    assert(first.take(4) =~= be_bytes(channel as nat, 4));
    assert(first.subrange(5, 7) =~= be_bytes(data.len(), 2));
    lemma_be_value_4(first.take(4));
    lemma_be_value_2(first.subrange(5, 7));
}

/// What a message that asks nothing of a phone is answered: a ping with its own data, a wink
/// with nothing, an unknown command and a channel that nobody was given with an error. None of
/// them changes what the device waits for.
pub proof fn law_messages_are_answered(
    hid: Hid,
    channel: u32,
    command: u8,
    data: Seq<u8>,
    connected: bool,
)
    requires
        data.len() <= 7609,
        command >= 128,
        command != 0x86,
        command != 0x91,
        hid.busy is None || hid.busy->0.channel == channel,
        command != 0x90 || channel == 0 || channel == 0xffff_ffff,
    ensures
        ({
            let (next, deeds) = fed(hid, reports_of(channel, command, data), connected);
            &&& next == (Hid { partial: hid.partial.remove(channel), ..hid })
            &&& deeds.len() == 1
            &&& deeds[0] == (if channel == 0 || channel == 0xffff_ffff {
                Act::Reply { channel, command: 0xbf, data: seq![0x0bu8] }
            } else if command == 0x81 {
                Act::Reply { channel, command: 0x81, data }
            } else if command == 0x88 {
                Act::Reply { channel, command: 0x88, data: Seq::empty() }
            } else {
                Act::Reply { channel, command: 0xbf, data: seq![0x01u8] }
            })
        }),
{
    law_message_is_put_together_again(hid, channel, command, data, connected);
}

/// A request that is empty, and one while no phone is connected, is answered that something
/// failed, and the device does not wait for it. One more request on the channel of the request
/// that the device is busy with is answered that the channel is busy.
pub proof fn law_requests_that_are_not_put(
    hid: Hid,
    channel: u32,
    data: Seq<u8>,
    connected: bool,
)
    requires
        channel != 0,
        channel != 0xffff_ffff,
        data.len() <= 7609,
        hid.busy is None || hid.busy->0.channel == channel,
        hid.busy is Some || data.len() == 0 || !connected,
    ensures
        ({
            let (next, deeds) = fed(hid, reports_of(channel, 0x90, data), connected);
            &&& next.busy == hid.busy
            &&& deeds.len() == 1
            &&& deeds[0] == (if data.len() == 0 || !connected {
                Act::Reply { channel, command: 0x90, data: seq![0x7fu8] }
            } else {
                Act::Reply { channel, command: 0xbf, data: seq![0x06u8] }
            })
        }),
{
    law_message_is_put_together_again(hid, channel, 0x90, data, connected);
}

/// An opening is answered with what was sent, the channel, and what the device is and can. On
/// the channel that everyone may use it gets a channel of its own, neither zero nor that one;
/// on another it starts that one over, and withdraws its request.
pub proof fn law_openings_are_answered(hid: Hid, channel: u32, nonce: Seq<u8>, connected: bool)
    requires
        nonce.len() == 8,
        hid.busy is None || hid.busy->0.channel != 0xffff_ffff,
    ensures
        ({
            let (next, deeds) = fed(hid, reports_of(channel, 0x86, nonce), connected);
            let withdraws = hid.busy is Some && hid.busy->0.channel == channel;
            let reply = deeds.last();
            &&& deeds.len() == (if withdraws {
                2int
            } else {
                1int
            })
            &&& withdraws ==> deeds[0] == (Act::Withdraw { number: hid.busy->0.number })
            &&& next.busy == (if withdraws {
                None
            } else {
                hid.busy
            })
            &&& reply matches Act::Reply { channel: to, command, data } && {
                let assigned = data[8] * 0x100_0000 + data[9] * 0x1_0000 + data[10] * 0x100
                    + data[11];
                &&& to == channel
                &&& command == 0x86
                &&& data.len() == 17
                &&& data.take(8) == nonce
                &&& data.skip(12) == seq![2u8, 1u8, 0u8, 0u8, 0x0du8]
                &&& channel != 0xffff_ffff ==> assigned == channel && next.next_channel
                    == hid.next_channel
                &&& channel == 0xffff_ffff ==> {
                    &&& assigned == (if hid.next_channel == 0 || hid.next_channel == 0xffff_ffff {
                        1int
                    } else {
                        hid.next_channel as int
                    })
                    &&& next.next_channel == assigned + 1
                }
            }
        }),
{
    law_message_is_put_together_again(hid, channel, 0x86, nonce, connected);
    let assigned = if channel == 0xffff_ffff {
        free_channel(hid.next_channel)
    } else {
        channel
    };
    let data = nonce + be_bytes(assigned as nat, 4) + seq![2u8, 1u8, 0u8, 0u8, 0x0du8];
    lemma_be_value_of_bytes(assigned as nat);
    assert(data.take(8) =~= nonce);
    assert(data.subrange(8, 12) =~= be_bytes(assigned as nat, 4));
    assert(data.skip(12) =~= seq![2u8, 1u8, 0u8, 0u8, 0x0du8]);
    lemma_be_value_4(data.subrange(8, 12));
    assert(opened(channel, assigned, nonce) == (Act::Reply { channel, command: 0x86, data }));
}

/// An opening with other than eight bytes is answered that its length is wrong.
pub proof fn law_wrong_openings_are_refused(
    hid: Hid,
    channel: u32,
    nonce: Seq<u8>,
    connected: bool,
)
    requires
        nonce.len() != 8,
        nonce.len() <= 7609,
    ensures
        fed(hid, reports_of(channel, 0x86, nonce), connected).1.last() == (Act::Reply {
            channel,
            command: 0xbf,
            data: seq![0x03u8],
        }),
        fed(hid, reports_of(channel, 0x86, nonce), connected).0.next_channel == hid.next_channel,
{
    law_message_is_put_together_again(hid, channel, 0x86, nonce, connected);
}

/// What the first packet of a message brings about by itself: nothing where it is too short, an
/// error where the message is too long or another channel has the device, and a withdrawal
/// where that is asked for by the channel whose request it is.
pub proof fn law_first_packets(hid: Hid, packet: Seq<u8>, connected: bool)
    ensures
        packet.len() < 5 ==> received(hid, packet, connected) == (hid, Seq::<Act>::empty()),
        packet.len() < 7 && packet.len() >= 5 && packet[4] >= 128 ==> received(
            hid,
            packet,
            connected,
        ) == (hid, Seq::<Act>::empty()),
        packet.len() >= 7 && packet[4] >= 128 ==> {
            let channel = (packet[0] * 0x100_0000 + packet[1] * 0x1_0000 + packet[2] * 0x100
                + packet[3]) as u32;
            let total = packet[5] * 256 + packet[6];
            let (next, deeds) = received(hid, packet, connected);
            &&& total > 7609 ==> next == hid && deeds == seq![
                Act::Reply { channel, command: 0xbf, data: seq![0x03u8] },
            ]
            &&& total <= 7609 && packet[4] == 0x91 ==> next == hid && deeds == (if hid.busy is Some
                && hid.busy->0.channel == channel {
                seq![Act::Withdraw { number: hid.busy->0.number }]
            } else {
                Seq::empty()
            })
            &&& total <= 7609 && packet[4] != 0x91 && packet[4] != 0x86 && hid.busy is Some
                && hid.busy->0.channel != channel ==> next == hid && deeds == seq![
                Act::Reply { channel, command: 0xbf, data: seq![0x06u8] },
            ]
        },
{
    if packet.len() >= 7 {
        lemma_be_value_4(packet.take(4));
        lemma_be_value_2(packet.subrange(5, 7));
    }
}

/// A further packet of a message that nobody has begun is passed over; one out of turn ends the
/// message with an error; and neither touches the messages of other channels.
pub proof fn law_further_packets(hid: Hid, packet: Seq<u8>, connected: bool)
    requires
        packet.len() >= 5,
        packet[4] < 128,
    ensures
        ({
            let channel = (packet[0] * 0x100_0000 + packet[1] * 0x1_0000 + packet[2] * 0x100
                + packet[3]) as u32;
            let (next, deeds) = received(hid, packet, connected);
            &&& !hid.partial.contains_key(channel) ==> next == hid && deeds.len() == 0
            &&& hid.partial.contains_key(channel) && hid.partial[channel].next_sequence != packet[4]
                ==> next == (Hid { partial: hid.partial.remove(channel), ..hid }) && deeds == seq![
                Act::Reply { channel, command: 0xbf, data: seq![0x04u8] },
            ]
        }),
{
    lemma_be_value_4(packet.take(4));
}

/// The messages of different channels do not mix: a packet changes nothing of a message that is
/// under way on another channel.
pub proof fn law_channels_are_apart(hid: Hid, packet: Seq<u8>, connected: bool, other: u32)
    requires
        packet.len() >= 4,
        other != packet[0] * 0x100_0000 + packet[1] * 0x1_0000 + packet[2] * 0x100 + packet[3],
    ensures
        received(hid, packet, connected).0.partial.contains_key(other)
            == hid.partial.contains_key(other),
        hid.partial.contains_key(other) ==> received(hid, packet, connected).0.partial[other]
            == hid.partial[other],
{
    lemma_be_value_4(packet.take(4));
}

/// A request is withdrawn where it is on the channel that is named, or none is named; it stays
/// the one that the device waits for, unless it is given up with its channel.
pub proof fn law_requests_are_withdrawn(hid: Hid, channel: Option<u32>, abandon: bool)
    ensures
        ({
            let (next, deeds) = cancelled(hid, channel, abandon);
            let named = hid.busy is Some && channel == Some(hid.busy->0.channel);
            &&& deeds == (if hid.busy is Some && (named || channel is None) {
                seq![Act::Withdraw { number: hid.busy->0.number }]
            } else {
                Seq::empty()
            })
            &&& next.busy == (if abandon && named {
                None
            } else {
                hid.busy
            })
        }),
{
}

/// A message of which packets are still to come keeps what has come: the first packet begins it
/// with all that the packet holds behind its first seven bytes, and each further one, in turn,
/// adds all behind its first five.
pub proof fn law_message_grows(hid: Hid, packet: Seq<u8>, connected: bool)
    requires
        hid.wf(),
    ensures
        packet.len() >= 7 && packet[4] >= 128 && packet[4] != 0x86 && packet[4] != 0x91
            && hid.busy is None && packet.len() - 7 < packet[5] * 256 + packet[6] <= 7609 ==> {
            let channel = (packet[0] * 0x100_0000 + packet[1] * 0x1_0000 + packet[2] * 0x100
                + packet[3]) as u32;
            let (next, deeds) = received(hid, packet, connected);
            &&& deeds.len() == 0
            &&& next.busy == hid.busy
            &&& next.partial.contains_key(channel)
            &&& next.partial[channel] == (Assembly {
                command: packet[4],
                total: (packet[5] * 256 + packet[6]) as nat,
                data: packet.skip(7),
                next_sequence: 0,
            })
        },
        packet.len() >= 5 && packet[4] < 128 ==> {
            let channel = (packet[0] * 0x100_0000 + packet[1] * 0x1_0000 + packet[2] * 0x100
                + packet[3]) as u32;
            let message = hid.partial[channel];
            let (next, deeds) = received(hid, packet, connected);
            hid.partial.contains_key(channel) && message.next_sequence == packet[4]
                && message.data.len() + packet.len() - 5 < message.total ==> {
                &&& deeds.len() == 0
                &&& next.busy == hid.busy
                &&& next.partial.contains_key(channel)
                &&& next.partial[channel] == (Assembly {
                    data: message.data + packet.skip(5),
                    next_sequence: (packet[4] + 1) as u8,
                    ..message
                })
            }
        },
{
    if packet.len() >= 5 {
        lemma_be_value_4(packet.take(4));
    }
    if packet.len() >= 7 {
        lemma_be_value_2(packet.subrange(5, 7));
        assert(packet.subrange(7, packet.len() as int) =~= packet.skip(7));
    }
    if packet.len() >= 5 {
        assert(packet.skip(5).take(packet.len() - 5) =~= packet.skip(5));
    }
}

/// The further packet that completes a request has it put to the phones, with what had come and
/// as much of the packet as was lacking.
pub proof fn law_last_packet_completes(hid: Hid, packet: Seq<u8>)
    requires
        hid.wf(),
        hid.busy is None,
        packet.len() >= 5,
        packet[4] < 128,
        !(packet[0] == 0 && packet[1] == 0 && packet[2] == 0 && packet[3] == 0),
        !(packet[0] == 255 && packet[1] == 255 && packet[2] == 255 && packet[3] == 255),
    ensures
        ({
            let channel = (packet[0] * 0x100_0000 + packet[1] * 0x1_0000 + packet[2] * 0x100
                + packet[3]) as u32;
            let message = hid.partial[channel];
            let deeds = received(hid, packet, true).1;
            hid.partial.contains_key(channel) && message.next_sequence == packet[4]
                && message.command == 0x90 && 0 < message.total && message.total
                <= message.data.len() + packet.len() - 5 ==> deeds == seq![
                Act::Start {
                    request: Request { channel, number: hid.next_request },
                    data: message.data + packet.subrange(
                        5,
                        5 + message.total - message.data.len(),
                    ),
                },
            ]
        }),
{
    lemma_be_value_4(packet.take(4));
    let channel = (packet[0] * 0x100_0000 + packet[1] * 0x1_0000 + packet[2] * 0x100
        + packet[3]) as u32;
    let message = hid.partial[channel];
    if hid.partial.contains_key(channel) && message.total <= message.data.len() + packet.len() - 5 {
        let lacking = message.total - message.data.len();
        assert(packet.skip(5).take(lacking) =~= packet.subrange(5, 5 + lacking));
    }
}

/// The numbers that programs and security keys have agreed on.
pub proof fn law_numbers_of_commands_and_errors()
    ensures
        PING_CMD == 0x81,
        INIT == 0x86,
        WINK == 0x88,
        CBOR == 0x90,
        CANCEL_CMD == 0x91,
        KEEPALIVE == 0xbb,
        ERROR == 0xbf,
        ERR_INVALID_CMD == 0x01,
        ERR_INVALID_LEN == 0x03,
        ERR_INVALID_SEQ == 0x04,
        ERR_CHANNEL_BUSY == 0x06,
        ERR_INVALID_CHANNEL == 0x0b,
        CTAP2_ERR_OTHER == 0x7f,
        BROADCAST == 0xffff_ffff,
        MAX_MESSAGE == 57 + 128 * 59,
        INITIAL_ROOM == 64 - 7,
        CONTINUATION_ROOM == 64 - 5,
{
}

} // verus!
