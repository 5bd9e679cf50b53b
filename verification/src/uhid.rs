//! Events of the kernel's user-space HID device, `/dev/uhid`.

use vstd::prelude::*;
use vstd::slice::*;

use crate::bytes::{
    bytes_between, le_bytes, le_value, lemma_le_bytes_2, lemma_le_bytes_4, lemma_le_value_2,
    lemma_le_value_4, put_bytes, put_u16_le, put_u32_le, read_le16, read_le32, spliced, zeros,
};

verus! {

/// The device goes away.
pub const UHID_DESTROY: u32 = 1;

/// The last program that had the device open closed it.
pub const UHID_CLOSE: u32 = 5;

/// A program sent a report to the device.
pub const UHID_OUTPUT: u32 = 6;

/// A program asks the device for a report.
pub const UHID_GET_REPORT: u32 = 9;

/// The answer to that.
pub const UHID_GET_REPORT_REPLY: u32 = 10;

/// A device is made.
pub const UHID_CREATE2: u32 = 11;

/// The device sends a report.
pub const UHID_INPUT2: u32 = 12;

/// A program sets a report of the device.
pub const UHID_SET_REPORT: u32 = 13;

/// The answer to that.
pub const UHID_SET_REPORT_REPLY: u32 = 14;

/// How many bytes an event has: its kind, and room for the longest of them.
pub const UHID_EVENT_SIZE: usize = 4376;

/// How many bytes of a report count.
pub const REPORT_SIZE: usize = 64;

/// The HID report descriptor of a FIDO device: one input and one output report of
/// sixty-four bytes each.
pub open spec fn report_descriptor() -> Seq<u8> {
    seq![
        0x06u8, 0xd0u8, 0xf1u8, 0x09u8, 0x01u8, 0xa1u8, 0x01u8, 0x09u8, 0x20u8, 0x15u8, 0x00u8, 0x26u8,
        0xffu8, 0x00u8, 0x75u8, 0x08u8, 0x95u8, 0x40u8, 0x81u8, 0x02u8, 0x09u8, 0x21u8, 0x15u8, 0x00u8,
        0x26u8, 0xffu8, 0x00u8, 0x75u8, 0x08u8, 0x95u8, 0x40u8, 0x91u8, 0x02u8, 0xc0u8,
    ]
}

/// The bytes of the word `passkey`.
pub open spec fn device_name() -> Seq<u8> {
    seq![0x70u8, 0x61u8, 0x73u8, 0x73u8, 0x6bu8, 0x65u8, 0x79u8]
}

/// An event of a kind, all else zero.
pub open spec fn empty_event(kind: u32) -> Seq<u8> {
    spliced(Seq::new(UHID_EVENT_SIZE as nat, |i: int| 0u8), 0, le_bytes(kind as nat, 4))
}

/// An event of a kind, all else zero.
fn event_of(kind: u32) -> (event: Vec<u8>)
    ensures
        event@ == empty_event(kind),
        event@.len() == UHID_EVENT_SIZE,
{
    let mut event = zeros(UHID_EVENT_SIZE);
    put_u32_le(event.as_mut_slice(), 0, kind);
    proof {
        lemma_le_bytes_4(kind as nat);
    }
    event
}

/// The event that makes the device: its name, the size of its report descriptor, the USB
/// bus, the vendor, the product, the version, and the report descriptor.
pub open spec fn creation() -> Seq<u8> {
    let named = spliced(empty_event(UHID_CREATE2), 4, device_name());
    let sized = spliced(named, 260, le_bytes(report_descriptor().len(), 2));
    let on_bus = spliced(sized, 262, le_bytes(3, 2));
    let with_vendor = spliced(on_bus, 264, le_bytes(0x1209, 4));
    let with_product = spliced(with_vendor, 268, le_bytes(0x7ab1, 4));
    let with_version = spliced(with_product, 272, le_bytes(1, 4));
    spliced(with_version, 280, report_descriptor())
}

/// The event that makes the device.
pub fn create_event() -> (event: Vec<u8>)
    ensures
        event@ == creation(),
{
    let name: Vec<u8> = vec![0x70, 0x61, 0x73, 0x73, 0x6b, 0x65, 0x79];
    let descriptor: Vec<u8> = vec![
        0x06, 0xd0, 0xf1, 0x09, 0x01, 0xa1, 0x01, 0x09, 0x20, 0x15, 0x00, 0x26, 0xff, 0x00, 0x75, 0x08,
        0x95, 0x40, 0x81, 0x02, 0x09, 0x21, 0x15, 0x00, 0x26, 0xff, 0x00, 0x75, 0x08, 0x95, 0x40, 0x91,
        0x02, 0xc0,
    ];
    assert(name@ =~= device_name());
    assert(descriptor@ =~= report_descriptor());
    let mut event = event_of(UHID_CREATE2);
    proof {
        lemma_le_bytes_2(34);
        lemma_le_bytes_2(3);
        lemma_le_bytes_4(0x1209);
        lemma_le_bytes_4(0x7ab1);
        lemma_le_bytes_4(1);
    }
    put_bytes(event.as_mut_slice(), 4, name.as_slice());
    put_u16_le(event.as_mut_slice(), 260, 34);
    put_u16_le(event.as_mut_slice(), 262, 3);
    put_u32_le(event.as_mut_slice(), 264, 0x1209);
    put_u32_le(event.as_mut_slice(), 268, 0x7ab1);
    put_u32_le(event.as_mut_slice(), 272, 1);
    put_bytes(event.as_mut_slice(), 280, descriptor.as_slice());
    event
}

/// The event that takes the device away.
pub fn destroy_event() -> (event: Vec<u8>)
    ensures
        event@ == empty_event(UHID_DESTROY),
{
    event_of(UHID_DESTROY)
}

/// The event with which the device sends a report: sixty-four bytes, of which those that
/// the report lacks are zero and those beyond are left out.
pub open spec fn input(report: Seq<u8>) -> Seq<u8> {
    let kept = if report.len() <= REPORT_SIZE {
        report
    } else {
        report.take(REPORT_SIZE as int)
    };
    spliced(
        spliced(empty_event(UHID_INPUT2), 4, le_bytes(REPORT_SIZE as nat, 2)),
        6,
        kept,
    )
}

/// The event with which the device sends a report.
pub fn input_event(report: &[u8]) -> (event: Vec<u8>)
    ensures
        event@ == input(report@),
{
    let mut event = event_of(UHID_INPUT2);
    proof {
        lemma_le_bytes_2(64);
    }
    put_u16_le(event.as_mut_slice(), 4, 64);
    let count: usize = if report.len() <= REPORT_SIZE {
        report.len()
    } else {
        REPORT_SIZE
    };
    let kept = bytes_between(report, 0, count);
    proof {
        assert(kept@ =~= if report@.len() <= REPORT_SIZE {
            report@
        } else {
            report@.take(REPORT_SIZE as int)
        });
    }
    put_bytes(event.as_mut_slice(), 6, kept.as_slice());
    event
}

/// What the kernel says.
#[derive(Debug, PartialEq, Eq)]
pub enum Event {
    /// A packet for the device.
    Packet(Vec<u8>),
    /// Nobody has the device open any more.
    Close,
    /// A question about reports, and the event that answers it.
    Answer(Vec<u8>),
    /// Something that is of no concern, or cut short.
    Other,
}

/// The kind of an event.
pub open spec fn kind_of(event: Seq<u8>) -> nat {
    le_value(event.take(4))
}

/// The event brings a packet.
pub open spec fn brings_packet(event: Seq<u8>) -> bool {
    event.len() >= 4102 && kind_of(event) == UHID_OUTPUT
}

/// The event asks something about reports.
pub open spec fn asks(event: Seq<u8>) -> bool {
    event.len() >= 8 && (kind_of(event) == UHID_GET_REPORT || kind_of(event) == UHID_SET_REPORT)
}

/// The packet that an event brings: its report, without the report number that a report of
/// sixty-five bytes begins with, and no more than sixty-four bytes of it.
pub open spec fn packet_of(event: Seq<u8>) -> Seq<u8> {
    let stated = le_value(event.subrange(4100, 4102));
    let count = if stated <= 4096 {
        stated
    } else {
        4096
    };
    let report = event.subrange(4, 4 + count as int);
    let packet = if report.len() == 65 {
        report.skip(1)
    } else {
        report
    };
    if packet.len() <= REPORT_SIZE {
        packet
    } else {
        packet.take(REPORT_SIZE as int)
    }
}

/// The answer to a question about reports: there is an error, with the question's number.
pub open spec fn answer_to(event: Seq<u8>) -> Seq<u8> {
    let kind = if kind_of(event) == UHID_GET_REPORT {
        UHID_GET_REPORT_REPLY
    } else {
        UHID_SET_REPORT_REPLY
    };
    let numbered = spliced(empty_event(kind), 4, event.subrange(4, 8));
    spliced(numbered, 8, le_bytes(5, 2))
}

/// Reads an event.
pub fn read_event(event: &[u8]) -> (read: Event)
    ensures
        read is Packet <==> brings_packet(event@),
        read is Packet ==> read->Packet_0@ == packet_of(event@),
        read is Close <==> event@.len() >= 4 && kind_of(event@) == UHID_CLOSE,
        read is Answer <==> asks(event@),
        read is Answer ==> read->Answer_0@ == answer_to(event@),
{
    if event.len() < 4 {
        return Event::Other;
    }
    let kind: u32 = read_le32(event, 0);
    assert(event@.subrange(0, 4) =~= event@.take(4));
    if kind == UHID_OUTPUT && event.len() >= 4102 {
        let stated: usize = read_le16(event, 4100) as usize;
        let count: usize = if stated <= 4096 {
            stated
        } else {
            4096
        };
        let start: usize = if count == 65 {
            5
        } else {
            4
        };
        let length: usize = 4 + count - start;
        let kept: usize = if length <= REPORT_SIZE {
            length
        } else {
            REPORT_SIZE
        };
        let packet = bytes_between(event, start, start + kept);
        assert(packet@ =~= packet_of(event@));
        return Event::Packet(packet);
    }
    if kind == UHID_CLOSE {
        return Event::Close;
    }
    if (kind == UHID_GET_REPORT || kind == UHID_SET_REPORT) && event.len() >= 8 {
        let mut answer = event_of(
            if kind == UHID_GET_REPORT {
                UHID_GET_REPORT_REPLY
            } else {
                UHID_SET_REPORT_REPLY
            },
        );
        put_bytes(answer.as_mut_slice(), 4, bytes_between(event, 4, 8).as_slice());
        proof {
            lemma_le_bytes_2(5);
        }
        put_u16_le(answer.as_mut_slice(), 8, 5);
        return Event::Answer(answer);
    }
    Event::Other
}

// ---------------------------------------------------------------------------
// When the device is there
// ---------------------------------------------------------------------------

/// Whether the device is there. Each time that it is made it gets a number, so that whoever
/// reads of it knows when it is another one.
#[derive(Debug, Clone, Copy, PartialEq, Eq, Structural)]
pub struct Presence {
    /// The number of the device that is there.
    pub generation: Option<u64>,
    /// The number of the next one.
    pub next: u64,
}

/// What has to be done with the device.
#[derive(Debug, Clone, Copy, PartialEq, Eq, Structural)]
pub enum Change {
    /// Nothing.
    Keep,
    /// Make it.
    Create,
    /// Have it go away.
    Destroy,
}

/// The number after a number; zero is after the last.
pub open spec fn following(n: u64) -> u64 {
    if n == u64::MAX {
        0
    } else {
        (n + 1) as u64
    }
}

impl Presence {
    /// There is no device.
    pub fn new() -> (presence: Presence)
        ensures
            presence == (Presence { generation: None, next: 1 }),
    {
        Presence { generation: None, next: 1 }
    }

    /// What has to be done with the device, by whether a phone is connected: it is there
    /// exactly while one is.
    pub fn change(&self, connected: bool) -> (change: Change)
        ensures
            change == (if connected && self.generation is None {
                Change::Create
            } else if !connected && self.generation is Some {
                Change::Destroy
            } else {
                Change::Keep
            }),
    {
        if connected && self.generation.is_none() {
            Change::Create
        } else if !connected && self.generation.is_some() {
            Change::Destroy
        } else {
            Change::Keep
        }
    }

    /// The device was made; its number.
    pub fn created(&mut self) -> (generation: u64)
        ensures
            generation == old(self).next,
            *final(self) == (Presence {
                generation: Some(generation),
                next: following(old(self).next),
            }),
    {
        let generation: u64 = self.next;
        self.generation = Some(generation);
        self.next = generation.wrapping_add(1);
        generation
    }

    /// The device has gone away.
    pub fn destroyed(&mut self)
        ensures
            *final(self) == (Presence { generation: None, ..*old(self) }),
    {
        self.generation = None;
    }

    /// Whether a device is still the one that is there.
    pub fn is_current(&self, generation: u64) -> (current: bool)
        ensures
            current == (self.generation == Some(generation)),
    {
        match self.generation {
            Some(current) => current == generation,
            None => false,
        }
    }

    /// A device can no longer be read. Whether it was the one that was there: only then has
    /// it gone away.
    pub fn ended(&mut self, generation: u64) -> (was_current: bool)
        ensures
            was_current == (old(self).generation == Some(generation)),
            *final(self) == (if was_current {
                Presence { generation: None, ..*old(self) }
            } else {
                *old(self)
            }),
    {
        if self.is_current(generation) {
            self.generation = None;
            true
        } else {
            false
        }
    }
}

// ---------------------------------------------------------------------------
// Laws
// ---------------------------------------------------------------------------

/// The fields of the event that makes the device stand where the kernel looks for them,
/// and no later field is written over an earlier one.
pub proof fn law_creation_fields()
    ensures
        creation().len() == UHID_EVENT_SIZE,
        kind_of(creation()) == UHID_CREATE2,
        creation().subrange(4, 11) == device_name(),
        forall|i: int| 11 <= i < 260 ==> creation()[i] == 0,
        le_value(creation().subrange(260, 262)) == report_descriptor().len(),
        le_value(creation().subrange(262, 264)) == 3,
        le_value(creation().subrange(264, 268)) == 0x1209,
        le_value(creation().subrange(268, 272)) == 0x7ab1,
        le_value(creation().subrange(272, 276)) == 1,
        creation().subrange(280, 280 + report_descriptor().len() as int) == report_descriptor(),
{
    let event = creation();
    lemma_le_bytes_4(UHID_CREATE2 as nat);
    lemma_le_bytes_2(34);
    lemma_le_bytes_2(3);
    lemma_le_bytes_4(0x1209);
    lemma_le_bytes_4(0x7ab1);
    lemma_le_bytes_4(1);
    lemma_le_value_4(event.take(4));
    lemma_le_value_2(event.subrange(260, 262));
    lemma_le_value_2(event.subrange(262, 264));
    lemma_le_value_4(event.subrange(264, 268));
    lemma_le_value_4(event.subrange(268, 272));
    lemma_le_value_4(event.subrange(272, 276));
    assert(event.subrange(4, 11) =~= device_name());
    assert(event.subrange(280, 280 + report_descriptor().len() as int) =~= report_descriptor());
}

/// A report that is sent arrives as sixty-four bytes, zeros after its own; and a packet of
/// sixty-four bytes that a program sends is handed on as it is.
pub proof fn law_reports_travel_whole(report: Seq<u8>, event: Seq<u8>)
    requires
        report.len() <= REPORT_SIZE,
        brings_packet(event),
        le_value(event.subrange(4100, 4102)) == 64,
    ensures
        input(report).subrange(6, 70) == report + Seq::new(
            (64 - report.len()) as nat,
            |i: int| 0u8,
        ),
        le_value(input(report).subrange(4, 6)) == 64,
        packet_of(event) == event.subrange(4, 68),
{
    lemma_le_bytes_4(UHID_INPUT2 as nat);
    lemma_le_bytes_2(64);
    assert(input(report).subrange(6, 70) =~= report + Seq::new(
        (64 - report.len()) as nat,
        |i: int| 0u8,
    ));
    lemma_le_value_2(input(report).subrange(4, 6));
}

/// The kinds and sizes by which the kernel knows events: what is nine is answered by ten, and what
/// is thirteen by fourteen.
pub proof fn law_kinds_of_events()
    ensures
        UHID_DESTROY == 1,
        UHID_CLOSE == 5,
        UHID_OUTPUT == 6,
        UHID_GET_REPORT == 9,
        UHID_GET_REPORT_REPLY == 10,
        UHID_CREATE2 == 11,
        UHID_INPUT2 == 12,
        UHID_SET_REPORT == 13,
        UHID_SET_REPORT_REPLY == 14,
        UHID_EVENT_SIZE == 4376,
        REPORT_SIZE == 64,
{
}

/// An event says its kind in its first four bytes, the least first, and all its other bytes are
/// zero.
pub proof fn law_empty_events(kind: u32, i: int)
    requires
        4 <= i < 4376,
    ensures
        empty_event(kind).len() == 4376,
        kind_of(empty_event(kind)) == kind,
        empty_event(kind)[i] == 0,
{
    lemma_le_bytes_4(kind as nat);
    lemma_le_value_4(empty_event(kind).take(4));
}

/// What is to be read in four bytes at the start of an event.
pub proof fn law_kind_of_an_event(event: Seq<u8>)
    requires
        event.len() >= 4,
    ensures
        kind_of(event) == event[0] + event[1] * 0x100 + event[2] * 0x1_0000 + event[3] * 0x100_0000,
{
    lemma_le_value_4(event.take(4));
}

/// The packet that an event brings, byte by byte. The event says at its end how long its report is,
/// which begins at the fifth byte. Of a report of sixty-five bytes the first is left out, and of
/// any other none; what is beyond the sixty-fourth byte then is left out.
pub proof fn law_packets_are_read(event: Seq<u8>, i: int)
    requires
        event.len() >= 4102,
    ensures
        brings_packet(event) <==> event[0] == 6 && event[1] == 0 && event[2] == 0 && event[3] == 0,
        ({
            let stated = event[4100] + event[4101] * 0x100;
            let packet = packet_of(event);
            &&& packet.len() == (if stated < 64 {
                stated
            } else {
                64
            })
            &&& 0 <= i < packet.len() ==> packet[i] == event[if stated == 65 {
                i + 5
            } else {
                i + 4
            }]
        }),
{
    law_kind_of_an_event(event);
    lemma_le_value_2(event.subrange(4100, 4102));
}

/// What is shorter than a whole report event brings no packet.
pub proof fn law_short_events_bring_nothing(event: Seq<u8>)
    ensures
        event.len() < 4102 ==> !brings_packet(event),
        event.len() < 8 ==> !asks(event),
{
}

/// A question about reports is of kind nine or thirteen. Its answer is of the kind after it, and
/// has the question's number and the error five in it, and nothing else.
pub proof fn law_questions_are_answered(event: Seq<u8>, i: int)
    requires
        event.len() >= 8,
        0 <= i < 4376,
    ensures
        asks(event) <==> (event[0] == 9 || event[0] == 13) && event[1] == 0 && event[2] == 0
            && event[3] == 0,
        asks(event) ==> {
            let answer = answer_to(event);
            &&& answer.len() == 4376
            &&& answer[i] == (if i == 0 {
                event[0] + 1
            } else if 4 <= i < 8 {
                event[i] as int
            } else if i == 8 {
                5
            } else {
                0
            })
        },
{
    law_kind_of_an_event(event);
    lemma_le_bytes_4(10);
    lemma_le_bytes_4(14);
    lemma_le_bytes_2(5);
}

/// The event with which the device sends a report, byte by byte: its kind, which is twelve, the
/// length sixty-four, and the first sixty-four bytes of the report, with zeros behind them.
pub proof fn law_reports_are_sent(report: Seq<u8>, i: int)
    requires
        0 <= i < 4376,
    ensures
        input(report).len() == 4376,
        input(report)[i] == (if i == 0 {
            12
        } else if i == 4 {
            64
        } else if 6 <= i < 70 && i - 6 < report.len() {
            report[i - 6]
        } else {
            0
        }),
{
    lemma_le_bytes_4(12);
    lemma_le_bytes_2(64);
}

/// The device has the name `passkey`, and its descriptor has thirty-four bytes: a report of
/// sixty-four bytes in, and one out.
pub proof fn law_device_is_described(i: int)
    requires
        276 <= i < 4376,
    ensures
        device_name().len() == 7,
        forall|k: int| 0 <= k < 7 ==> #[trigger] device_name()[k] as u32 == "passkey"@[k] as u32,
        report_descriptor().len() == 34,
        creation().len() == 4376,
        kind_of(creation()) == 11,
        creation()[i] == (if 280 <= i < 314 {
            report_descriptor()[i - 280]
        } else {
            0
        }),
{
    reveal_strlit("passkey");
    law_creation_fields();
    lemma_le_bytes_4(UHID_CREATE2 as nat);
    lemma_le_bytes_2(34);
    lemma_le_bytes_2(3);
    lemma_le_bytes_4(0x1209);
    lemma_le_bytes_4(0x7ab1);
    lemma_le_bytes_4(1);
}

} // verus!
