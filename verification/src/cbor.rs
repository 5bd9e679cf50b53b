//! The part of CBOR that requests use, and what a request asks for.

use vstd::prelude::*;
use vstd::slice::*;
use vstd::utf8::*;

use crate::bytes::{be_value, bytes_between};
use crate::text::same;

verus! {

/// A decoded CBOR item.
#[derive(Debug)]
pub enum Cbor {
    Integer(i64),
    Bytes(Vec<u8>),
    Text(String),
    Array(Vec<Cbor>),
    Mapping(Vec<(Cbor, Cbor)>),
    Bool(bool),
    Null,
}

/// A CBOR item as a mathematical value.
pub enum Item {
    Integer(int),
    Bytes(Seq<u8>),
    Text(Seq<char>),
    Array(Seq<Item>),
    Mapping(Seq<(Item, Item)>),
    Bool(bool),
    Null,
}

impl View for Cbor {
    type V = Item;

    open spec fn view(&self) -> Item
        decreases self,
    {
        match self {
            Cbor::Integer(i) => Item::Integer(*i as int),
            Cbor::Bytes(b) => Item::Bytes(b@),
            Cbor::Text(t) => Item::Text(t@),
            Cbor::Array(items) => Item::Array(
                Seq::new(
                    items@.len(),
                    |i: int|
                        if 0 <= i < items@.len() {
                            items@[i].view()
                        } else {
                            arbitrary()
                        },
                ),
            ),
            Cbor::Mapping(items) => Item::Mapping(
                Seq::new(
                    items@.len(),
                    |i: int|
                        if 0 <= i < items@.len() {
                            (items@[i].0.view(), items@[i].1.view())
                        } else {
                            arbitrary()
                        },
                ),
            ),
            Cbor::Bool(b) => Item::Bool(*b),
            Cbor::Null => Item::Null,
        }
    }
}

/// How many bytes of argument follow an initial byte.
pub open spec fn argument_width(info: u8) -> nat {
    if info == 24 {
        1
    } else if info == 25 {
        2
    } else if info == 26 {
        4
    } else if info == 27 {
        8
    } else {
        0
    }
}

/// The argument of an initial byte with the given additional information, and where the
/// bytes after it start. What is read ends where it fails.
pub open spec fn argument(input: Seq<u8>, at: int, info: u8) -> (Option<nat>, int) {
    let width = argument_width(info);
    if info <= 23 {
        (Some(info as nat), at)
    } else if info <= 27 && at + width <= input.len() {
        (Some(be_value(input.subrange(at, at + width))), at + width)
    } else {
        (None, at)
    }
}

/// How many levels of nesting are left at a depth: items may stand at depths up to eight.
pub open spec fn room(depth: nat) -> nat {
    if depth <= 9 {
        (9 - depth) as nat
    } else {
        0
    }
}

/// The item that stands in the input at a position, at a depth of nesting, and where
/// reading ended. There is none where the input does not hold a whole item, the item is
/// nested too deeply, an integer does not fit 64 bits with sign, a text is not UTF-8, or
/// its kind is not known.
pub open spec fn decoded(input: Seq<u8>, at: int, depth: nat) -> (Option<Item>, int)
    decreases 2 * room(depth), 0nat,
{
    if depth > 8 || at >= input.len() {
        (None, at)
    } else {
        let major = input[at] / 32;
        let info = input[at] % 32;
        if major == 7 {
            let item = if info == 20 {
                Some(Item::Bool(false))
            } else if info == 21 {
                Some(Item::Bool(true))
            } else if info == 22 {
                Some(Item::Null)
            } else {
                None
            };
            (item, at + 1)
        } else {
            match argument(input, at + 1, info) {
                (None, end) => (None, end),
                (Some(n), start) => if major == 0 {
                    (integer(n as int, n), start)
                } else if major == 1 {
                    (integer(-1 - n, n), start)
                } else if major == 2 || major == 3 {
                    if start + n > input.len() {
                        (None, start)
                    } else {
                        let bytes = input.subrange(start, start + n);
                        let item = if major == 2 {
                            Some(Item::Bytes(bytes))
                        } else if valid_utf8(bytes) {
                            Some(Item::Text(decode_utf8(bytes)))
                        } else {
                            None
                        };
                        (item, start + n)
                    }
                } else if major == 4 {
                    let (items, end) = decoded_items(input, start, depth + 1, n);
                    (
                        match items {
                            Some(items) => Some(Item::Array(items)),
                            None => None,
                        },
                        end,
                    )
                } else if major == 5 {
                    let (items, end) = decoded_pairs(input, start, depth + 1, n);
                    (
                        match items {
                            Some(items) => Some(Item::Mapping(items)),
                            None => None,
                        },
                        end,
                    )
                } else {
                    decoded(input, start, depth + 1)
                },
            }
        }
    }
}

/// An integer whose argument is `n`, where it fits.
pub open spec fn integer(value: int, n: nat) -> Option<Item> {
    if n <= i64::MAX {
        Some(Item::Integer(value))
    } else {
        None
    }
}

/// `count` items, one after the other.
pub open spec fn decoded_items(input: Seq<u8>, at: int, depth: nat, count: nat) -> (
    Option<Seq<Item>>,
    int,
)
    decreases 2 * room(depth) + 1, count,
{
    if count == 0 {
        (Some(Seq::empty()), at)
    } else {
        match decoded_items(input, at, depth, (count - 1) as nat) {
            (None, end) => (None, end),
            (Some(items), middle) => match decoded(input, middle, depth) {
                (None, end) => (None, end),
                (Some(item), end) => (Some(items.push(item)), end),
            },
        }
    }
}

/// `count` pairs of a key and a value, one after the other.
pub open spec fn decoded_pairs(input: Seq<u8>, at: int, depth: nat, count: nat) -> (
    Option<Seq<(Item, Item)>>,
    int,
)
    decreases 2 * room(depth) + 1, count,
{
    if count == 0 {
        (Some(Seq::empty()), at)
    } else {
        match decoded_pairs(input, at, depth, (count - 1) as nat) {
            (None, end) => (None, end),
            (Some(items), middle) => match decoded(input, middle, depth) {
                (None, end) => (None, end),
                (Some(key), between) => match decoded(input, between, depth) {
                    (None, end) => (None, end),
                    (Some(value), end) => (Some(items.push((key, value))), end),
                },
            },
        }
    }
}

/// Reads the value of `count` bytes, most significant first; only the low 64 bits of it
/// are kept.
pub fn read_uint(input: &[u8], offset: &mut usize, count: usize) -> (value: Result<u64, ()>)
    ensures
        value is Ok <==> *old(offset) + count <= input@.len(),
        value is Ok ==> {
            &&& *final(offset) == *old(offset) + count
            &&& value->Ok_0 == be_value(
                input@.subrange(*old(offset) as int, *old(offset) + count),
            ) % 0x1_0000_0000_0000_0000
        },
        value is Err ==> *final(offset) == *old(offset),
{
    let start: usize = *offset;
    if start > input.len() || count > input.len() - start {
        return Err(());
    }
    let mut value: u64 = 0;
    let mut i: usize = 0;
    while i < count
        invariant
            start + count <= input@.len(),
            start + count <= usize::MAX,
            i <= count,
            value == be_value(input@.subrange(start as int, start + i)) % 0x1_0000_0000_0000_0000,
        decreases count - i,
    {
        let byte: u8 = input[start + i];
        let ghost before = be_value(input@.subrange(start as int, start + i));
        proof {
            let part = input@.subrange(start as int, start + i + 1);
            assert(part.drop_last() =~= input@.subrange(start as int, start + i));
            assert(((value << 8) | byte as u64) == (value % 0x100_0000_0000_0000) * 256 + byte)
                by (bit_vector);
            assert(before % 0x1_0000_0000_0000_0000 % 0x100_0000_0000_0000 == before
                % 0x100_0000_0000_0000);
            assert((before % 0x100_0000_0000_0000) * 256 == (before * 256)
                % 0x1_0000_0000_0000_0000);
        }
        value = (value << 8) | byte as u64;
        i = i + 1;
    }
    *offset = start + count;
    Ok(value)
}

/// Up to eight bytes are worth less than two to the sixty-fourth.
proof fn lemma_be_value_fits(bytes: Seq<u8>)
    requires
        bytes.len() <= 8,
    ensures
        be_value(bytes) < 0x1_0000_0000_0000_0000,
{
    reveal_with_fuel(be_value, 9);
}

/// Where reading items has failed, reading more of them fails in the same place.
proof fn lemma_items_failed(input: Seq<u8>, at: int, depth: nat, count: nat, more: nat)
    requires
        count <= more,
        decoded_items(input, at, depth, count).0 is None,
    ensures
        decoded_items(input, at, depth, more) == decoded_items(input, at, depth, count),
    decreases more,
{
    if count < more {
        lemma_items_failed(input, at, depth, count, (more - 1) as nat);
    }
}

/// Where reading pairs has failed, reading more of them fails in the same place.
proof fn lemma_pairs_failed(input: Seq<u8>, at: int, depth: nat, count: nat, more: nat)
    requires
        count <= more,
        decoded_pairs(input, at, depth, count).0 is None,
    ensures
        decoded_pairs(input, at, depth, more) == decoded_pairs(input, at, depth, count),
    decreases more,
{
    if count < more {
        lemma_pairs_failed(input, at, depth, count, (more - 1) as nat);
    }
}

/// The values of decoded items.
spec fn values_of(items: Seq<Cbor>) -> Seq<Item> {
    Seq::new(items.len(), |i: int| items[i]@)
}

/// The values of decoded pairs.
spec fn pairs_of(items: Seq<(Cbor, Cbor)>) -> Seq<(Item, Item)> {
    Seq::new(items.len(), |i: int| (items[i].0@, items[i].1@))
}

/// What a mapping is worth.
proof fn lemma_mapping(items: Vec<(Cbor, Cbor)>)
    ensures
        Cbor::Mapping(items)@ == Item::Mapping(pairs_of(items@)),
{
    reveal_with_fuel(<Cbor as View>::view, 2);
    assert(Cbor::Mapping(items)@->Mapping_0 =~= pairs_of(items@));
}

/// Decodes the item at `offset`, and leaves `offset` where reading ended.
pub fn decode_cbor(input: &[u8], offset: &mut usize, depth: usize) -> (item: Result<Cbor, ()>)
    ensures
        item is Ok <==> decoded(input@, *old(offset) as int, depth as nat).0 is Some,
        item is Ok ==> item->Ok_0@ == decoded(input@, *old(offset) as int, depth as nat).0->0,
        *final(offset) == decoded(input@, *old(offset) as int, depth as nat).1,
    decreases room(depth as nat),
{
    if depth > 8 || *offset >= input.len() {
        return Err(());
    }
    let ghost start = *offset as int;
    let first: u8 = input[*offset];
    *offset = *offset + 1;
    let major: u8 = first >> 5;
    let info: u8 = first & 31;
    assert(first >> 5 == first / 32 && first & 31 == first % 32) by (bit_vector);
    if major == 7 {
        return match info {
            20 => Ok(Cbor::Bool(false)),
            21 => Ok(Cbor::Bool(true)),
            22 => Ok(Cbor::Null),
            _ => Err(()),
        };
    }
    let value: u64 = if info <= 23 {
        info as u64
    } else if info <= 27 {
        let width: usize = if info == 24 {
            1
        } else if info == 25 {
            2
        } else if info == 26 {
            4
        } else {
            8
        };
        let read = read_uint(input, offset, width);
        match read {
            Ok(value) => {
                proof {
                    lemma_be_value_fits(input@.subrange(start + 1, start + 1 + width));
                }
                value
            },
            Err(()) => {
                return Err(());
            },
        }
    } else {
        return Err(());
    };
    let ghost n = value as nat;
    let ghost body = *offset as int;
    assert(argument(input@, start + 1, info) == (Some(n), body));
    if major == 0 {
        if value <= 0x7fff_ffff_ffff_ffff {
            return Ok(Cbor::Integer(value as i64));
        }
        return Err(());
    }
    if major == 1 {
        if value <= 0x7fff_ffff_ffff_ffff {
            return Ok(Cbor::Integer(-1 - value as i64));
        }
        return Err(());
    }
    if major == 2 || major == 3 {
        if value > (input.len() - *offset) as u64 {
            return Err(());
        }
        let end: usize = *offset + value as usize;
        let bytes = bytes_between(input, *offset, end);
        *offset = end;
        if major == 2 {
            return Ok(Cbor::Bytes(bytes));
        }
        return match String::from_utf8(bytes) {
            Ok(text) => Ok(Cbor::Text(text)),
            Err(_) => Err(()),
        };
    }
    if major == 4 {
        let mut values: Vec<Cbor> = Vec::new();
        let mut k: u64 = 0;
        assert(values_of(values@) =~= Seq::empty());
        while k < value
            invariant
                depth <= 8,
                k <= value,
                decoded_items(input@, body, (depth + 1) as nat, k as nat) == (
                    Some(values_of(values@)),
                    *offset as int,
                ),
                n == value,
                decoded(input@, start, depth as nat).0 is Some <==> decoded_items(
                    input@,
                    body,
                    (depth + 1) as nat,
                    n,
                ).0 is Some,
                decoded(input@, start, depth as nat).1 == decoded_items(
                    input@,
                    body,
                    (depth + 1) as nat,
                    n,
                ).1,
                start == *old(offset),
            decreases value - k,
        {
            let ghost before = values_of(values@);
            match decode_cbor(input, offset, depth + 1) {
                Ok(item) => {
                    values.push(item);
                    assert(values_of(values@) =~= before.push(item@));
                },
                Err(()) => {
                    proof {
                        lemma_items_failed(input@, body, (depth + 1) as nat, (k + 1) as nat, n);
                    }
                    return Err(());
                },
            }
            k = k + 1;
        }
        let item = Cbor::Array(values);
        assert(item@ == Item::Array(values_of(values@))) by {
            reveal_with_fuel(<Cbor as View>::view, 2);
            assert(item@->Array_0 =~= values_of(values@));
        }
        return Ok(item);
    }
    if major == 5 {
        let mut values: Vec<(Cbor, Cbor)> = Vec::new();
        let mut k: u64 = 0;
        assert(pairs_of(values@) =~= Seq::empty());
        while k < value
            invariant
                depth <= 8,
                k <= value,
                decoded_pairs(input@, body, (depth + 1) as nat, k as nat) == (
                    Some(pairs_of(values@)),
                    *offset as int,
                ),
                n == value,
                decoded(input@, start, depth as nat).0 is Some <==> decoded_pairs(
                    input@,
                    body,
                    (depth + 1) as nat,
                    n,
                ).0 is Some,
                decoded(input@, start, depth as nat).1 == decoded_pairs(
                    input@,
                    body,
                    (depth + 1) as nat,
                    n,
                ).1,
                start == *old(offset),
            decreases value - k,
        {
            let ghost before = pairs_of(values@);
            let key = match decode_cbor(input, offset, depth + 1) {
                Ok(item) => item,
                Err(()) => {
                    proof {
                        lemma_pairs_failed(input@, body, (depth + 1) as nat, (k + 1) as nat, n);
                    }
                    return Err(());
                },
            };
            match decode_cbor(input, offset, depth + 1) {
                Ok(item) => {
                    values.push((key, item));
                    assert(pairs_of(values@) =~= before.push((key@, item@)));
                },
                Err(()) => {
                    proof {
                        lemma_pairs_failed(input@, body, (depth + 1) as nat, (k + 1) as nat, n);
                    }
                    return Err(());
                },
            }
            k = k + 1;
        }
        let item = Cbor::Mapping(values);
        proof {
            lemma_mapping(values);
        }
        return Ok(item);
    }
    assert(major == 6);
    decode_cbor(input, offset, depth + 1)
}

/// The command of a request for an assertion.
pub const GET_ASSERTION: u8 = 0x02;

/// The options of a mapping say that the presence of a person is not asked for.
pub open spec fn presence_waived(options: Item) -> bool {
    options matches Item::Mapping(options) && exists|j: int|
        0 <= j < options.len() && #[trigger] options[j] == (
            Item::Text("up"@),
            Item::Bool(false),
        )
}

/// The request is for an assertion without a person present: its options, under the key
/// five, hold `up: false`.
pub open spec fn is_silent(data: Seq<u8>) -> bool {
    &&& data.len() > 0
    &&& data[0] == GET_ASSERTION
    &&& decoded(data, 1, 0).0 matches Some(Item::Mapping(root))
    &&& exists|i: int|
        0 <= i < root.len() && (#[trigger] root[i]).0 == Item::Integer(5) && presence_waived(
            root[i].1,
        )
}

/// Whether the options of a request waive presence.
fn waives_presence(options: &Cbor) -> (waived: bool)
    ensures
        waived == presence_waived(options@),
{
    match options {
        Cbor::Mapping(items) => {
            proof {
                lemma_mapping(*items);
            }
            let mut j: usize = 0;
            while j < items.len()
                invariant
                    options@ == Item::Mapping(pairs_of(items@)),
                    j <= items@.len(),
                    forall|k: int|
                        0 <= k < j ==> #[trigger] pairs_of(items@)[k] != (
                            Item::Text("up"@),
                            Item::Bool(false),
                        ),
                decreases items@.len() - j,
            {
                let up = match &items[j].0 {
                    Cbor::Text(key) => same(key.as_str(), "up"),
                    _ => false,
                };
                let refused = match &items[j].1 {
                    Cbor::Bool(value) => !*value,
                    _ => false,
                };
                if up && refused {
                    assert(options@->Mapping_0[j as int] == (Item::Text("up"@), Item::Bool(false)));
                    return true;
                }
                j = j + 1;
            }
            false
        },
        _ => false,
    }
}

/// Whether a request asks for an assertion without a person present.
pub fn silent(data: &[u8]) -> (found: bool)
    ensures
        found == is_silent(data@),
{
    if data.len() == 0 || data[0] != GET_ASSERTION {
        return false;
    }
    let mut offset: usize = 1;
    match decode_cbor(data, &mut offset, 0) {
        Ok(Cbor::Mapping(root)) => {
            proof {
                lemma_mapping(root);
            }
            let mut i: usize = 0;
            while i < root.len()
                invariant
                    data@.len() > 0 && data@[0] == GET_ASSERTION,
                    decoded(data@, 1, 0).0 == Some(Item::Mapping(pairs_of(root@))),
                    i <= root@.len(),
                    forall|k: int|
                        0 <= k < i ==> (#[trigger] pairs_of(root@)[k]).0 != Item::Integer(5)
                            || !presence_waived(pairs_of(root@)[k].1),
                decreases root@.len() - i,
            {
                let options_key = match &root[i].0 {
                    Cbor::Integer(key) => *key == 5,
                    _ => false,
                };
                if options_key && waives_presence(&root[i].1) {
                    assert(pairs_of(root@)[i as int].0 == Item::Integer(5));
                    return true;
                }
                i = i + 1;
            }
            false
        },
        _ => false,
    }
}

/// A whole item ends after it starts, within the input, and is decoded alike from any
/// input that holds the same bytes there, at the same depth of nesting or a lesser one.
pub proof fn law_decoding_reads_only_the_item(
    a: Seq<u8>,
    b: Seq<u8>,
    at: int,
    depth: nat,
    lesser: nat,
)
    requires
        0 <= at,
        lesser <= depth,
        decoded(a, at, depth).0 is Some,
        decoded(a, at, depth).1 <= b.len(),
        forall|i: int| at <= i < decoded(a, at, depth).1 ==> a[i] == #[trigger] b[i],
    ensures
        at < decoded(a, at, depth).1 <= a.len(),
        decoded(b, at, lesser) == decoded(a, at, depth),
    decreases 2 * room(depth), 0nat,
{
    let end = decoded(a, at, depth).1;
    let major = a[at] / 32;
    let info = a[at] % 32;
    lemma_decoded_ends(a, at, depth);
    assert(a[at] == b[at]);
    if major != 7 {
        let (n, start) = argument(a, at + 1, info);
        let n = n->0;
        if major == 4 {
            lemma_items_end(a, start, depth + 1, n);
            lemma_items_alike(a, b, start, depth + 1, lesser + 1, n);
        } else if major == 5 {
            lemma_pairs_end(a, start, depth + 1, n);
            lemma_pairs_alike(a, b, start, depth + 1, lesser + 1, n);
        } else if major == 6 {
            lemma_decoded_ends(a, start, depth + 1);
            law_decoding_reads_only_the_item(a, b, start, depth + 1, lesser + 1);
        } else if major == 2 || major == 3 {
            assert(a.subrange(start, start + n) =~= b.subrange(start, start + n));
        }
        let width = argument_width(info);
        assert(start <= end);
        assert(info > 23 ==> a.subrange(at + 1, at + 1 + width) =~= b.subrange(
            at + 1,
            at + 1 + width,
        ));
        assert(argument(b, at + 1, info) == argument(a, at + 1, info));
    }
}

/// Reading goes forward and stays within the input.
proof fn lemma_decoded_ends(input: Seq<u8>, at: int, depth: nat)
    requires
        0 <= at,
    ensures
        at <= decoded(input, at, depth).1,
        at <= input.len() ==> decoded(input, at, depth).1 <= input.len(),
        decoded(input, at, depth).0 is Some ==> at < decoded(input, at, depth).1,
    decreases 2 * room(depth), 0nat,
{
    if depth <= 8 && at < input.len() && input[at] / 32 != 7 {
        let major = input[at] / 32;
        let (n, start) = argument(input, at + 1, input[at] % 32);
        if n is Some {
            if major == 4 {
                lemma_items_end(input, start, depth + 1, n->0);
            } else if major == 5 {
                lemma_pairs_end(input, start, depth + 1, n->0);
            } else if major == 6 {
                lemma_decoded_ends(input, start, depth + 1);
            }
        }
    }
}

proof fn lemma_items_end(input: Seq<u8>, at: int, depth: nat, count: nat)
    requires
        0 <= at,
    ensures
        at <= decoded_items(input, at, depth, count).1,
        at <= input.len() ==> decoded_items(input, at, depth, count).1 <= input.len(),
    decreases 2 * room(depth) + 1, count,
{
    if count > 0 {
        lemma_items_end(input, at, depth, (count - 1) as nat);
        lemma_decoded_ends(input, decoded_items(input, at, depth, (count - 1) as nat).1, depth);
    }
}

proof fn lemma_pairs_end(input: Seq<u8>, at: int, depth: nat, count: nat)
    requires
        0 <= at,
    ensures
        at <= decoded_pairs(input, at, depth, count).1,
        at <= input.len() ==> decoded_pairs(input, at, depth, count).1 <= input.len(),
    decreases 2 * room(depth) + 1, count,
{
    if count > 0 {
        lemma_pairs_end(input, at, depth, (count - 1) as nat);
        let middle = decoded_pairs(input, at, depth, (count - 1) as nat).1;
        lemma_decoded_ends(input, middle, depth);
        lemma_decoded_ends(input, decoded(input, middle, depth).1, depth);
    }
}

proof fn lemma_items_alike(a: Seq<u8>, b: Seq<u8>, at: int, depth: nat, lesser: nat, count: nat)
    requires
        0 <= at,
        lesser <= depth,
        decoded_items(a, at, depth, count).0 is Some,
        decoded_items(a, at, depth, count).1 <= b.len(),
        forall|i: int|
            at <= i < decoded_items(a, at, depth, count).1 ==> a[i] == #[trigger] b[i],
    ensures
        decoded_items(b, at, lesser, count) == decoded_items(a, at, depth, count),
    decreases 2 * room(depth) + 1, count,
{
    if count > 0 {
        let middle = decoded_items(a, at, depth, (count - 1) as nat).1;
        lemma_items_end(a, at, depth, (count - 1) as nat);
        lemma_decoded_ends(a, middle, depth);
        lemma_items_alike(a, b, at, depth, lesser, (count - 1) as nat);
        law_decoding_reads_only_the_item(a, b, middle, depth, lesser);
    }
}

proof fn lemma_pairs_alike(a: Seq<u8>, b: Seq<u8>, at: int, depth: nat, lesser: nat, count: nat)
    requires
        0 <= at,
        lesser <= depth,
        decoded_pairs(a, at, depth, count).0 is Some,
        decoded_pairs(a, at, depth, count).1 <= b.len(),
        forall|i: int|
            at <= i < decoded_pairs(a, at, depth, count).1 ==> a[i] == #[trigger] b[i],
    ensures
        decoded_pairs(b, at, lesser, count) == decoded_pairs(a, at, depth, count),
    decreases 2 * room(depth) + 1, count,
{
    if count > 0 {
        let middle = decoded_pairs(a, at, depth, (count - 1) as nat).1;
        let between = decoded(a, middle, depth).1;
        lemma_pairs_end(a, at, depth, (count - 1) as nat);
        lemma_decoded_ends(a, middle, depth);
        lemma_decoded_ends(a, between, depth);
        lemma_pairs_alike(a, b, at, depth, lesser, (count - 1) as nat);
        law_decoding_reads_only_the_item(a, b, middle, depth, lesser);
        law_decoding_reads_only_the_item(a, b, between, depth, lesser);
    }
}

// ---------------------------------------------------------------------------
// Encoding, which decoding undoes
// ---------------------------------------------------------------------------

/// A number can stand behind an initial byte in so many bytes; in none where it is in the
/// initial byte itself.
pub open spec fn is_width(n: nat, width: nat) -> bool {
    ||| width == 0 && n < 24
    ||| width == 1 && n < 0x100
    ||| width == 2 && n < 0x1_0000
    ||| width == 4 && n < 0x1_0000_0000
    ||| width == 8 && n < 0x1_0000_0000_0000_0000
}

/// A byte of a number: the one that counts so many units.
pub open spec fn byte_of(n: nat, unit: nat) -> u8 {
    (n / unit % 256) as u8
}

/// The head of an item: its kind, and a number in a width, most significant byte first.
pub open spec fn head(major: u8, n: nat, width: nat) -> Seq<u8> {
    if width == 0 {
        seq![(major * 32 + n) as u8]
    } else if width == 1 {
        seq![(major * 32 + 24) as u8, byte_of(n, 1)]
    } else if width == 2 {
        seq![(major * 32 + 25) as u8, byte_of(n, 0x100), byte_of(n, 1)]
    } else if width == 4 {
        seq![
            (major * 32 + 26) as u8,
            byte_of(n, 0x100_0000),
            byte_of(n, 0x1_0000),
            byte_of(n, 0x100),
            byte_of(n, 1),
        ]
    } else {
        seq![
            (major * 32 + 27) as u8,
            byte_of(n, 0x100_0000_0000_0000),
            byte_of(n, 0x1_0000_0000_0000),
            byte_of(n, 0x100_0000_0000),
            byte_of(n, 0x1_0000_0000),
            byte_of(n, 0x100_0000),
            byte_of(n, 0x1_0000),
            byte_of(n, 0x100),
            byte_of(n, 1),
        ]
    }
}

/// The bytes of an item, where a number stands in as many bytes as `widths` says.
pub open spec fn encoded(item: Item, widths: spec_fn(nat) -> nat) -> Seq<u8>
    decreases item,
{
    match item {
        Item::Integer(i) => if i >= 0 {
            head(0, i as nat, widths(i as nat))
        } else {
            head(1, (-1 - i) as nat, widths((-1 - i) as nat))
        },
        Item::Bytes(bytes) => head(2, bytes.len(), widths(bytes.len())) + bytes,
        Item::Text(text) => head(3, encode_utf8(text).len(), widths(encode_utf8(text).len()))
            + encode_utf8(text),
        Item::Array(items) => head(4, items.len(), widths(items.len())) + encoded_items(
            items,
            widths,
        ),
        Item::Mapping(items) => head(5, items.len(), widths(items.len())) + encoded_pairs(
            items,
            widths,
        ),
        Item::Bool(true) => seq![0xf5u8],
        Item::Bool(false) => seq![0xf4u8],
        Item::Null => seq![0xf6u8],
    }
}

/// The bytes of items, one after the other.
pub open spec fn encoded_items(items: Seq<Item>, widths: spec_fn(nat) -> nat) -> Seq<u8>
    decreases items,
{
    if items.len() == 0 {
        Seq::empty()
    } else {
        encoded_items(items.drop_last(), widths) + encoded(items[items.len() - 1], widths)
    }
}

/// The bytes of pairs, one after the other, each key before its value.
pub open spec fn encoded_pairs(items: Seq<(Item, Item)>, widths: spec_fn(nat) -> nat) -> Seq<u8>
    decreases items,
{
    if items.len() == 0 {
        Seq::empty()
    } else {
        encoded_pairs(items.drop_last(), widths) + encoded(items[items.len() - 1].0, widths)
            + encoded(items[items.len() - 1].1, widths)
    }
}

/// An item that may stand at a depth: it is not nested too deeply, its integers fit 64 bits with
/// sign, and its lengths 64 bits.
pub open spec fn fits(item: Item, depth: nat) -> bool
    decreases item,
{
    &&& depth <= 8
    &&& match item {
        Item::Integer(i) => -0x8000_0000_0000_0000 <= i < 0x8000_0000_0000_0000,
        Item::Bytes(bytes) => bytes.len() < 0x1_0000_0000_0000_0000,
        Item::Text(text) => encode_utf8(text).len() < 0x1_0000_0000_0000_0000,
        Item::Array(items) => items.len() < 0x1_0000_0000_0000_0000 && items_fit(items, depth + 1),
        Item::Mapping(items) => items.len() < 0x1_0000_0000_0000_0000 && pairs_fit(
            items,
            depth + 1,
        ),
        _ => true,
    }
}

/// Items that may stand at a depth.
pub open spec fn items_fit(items: Seq<Item>, depth: nat) -> bool
    decreases items,
{
    items.len() == 0 || (items_fit(items.drop_last(), depth) && fits(
        items[items.len() - 1],
        depth,
    ))
}

/// Pairs that may stand at a depth.
pub open spec fn pairs_fit(items: Seq<(Item, Item)>, depth: nat) -> bool
    decreases items,
{
    items.len() == 0 || (pairs_fit(items.drop_last(), depth) && fits(
        items[items.len() - 1].0,
        depth,
    ) && fits(items[items.len() - 1].1, depth))
}

/// The input has bytes at a position.
pub open spec fn holds(input: Seq<u8>, at: int, bytes: Seq<u8>) -> bool {
    0 <= at && at + bytes.len() <= input.len() && input.subrange(at, at + bytes.len()) == bytes
}

/// Numbers stand in bytes that can hold them.
pub open spec fn are_widths(widths: spec_fn(nat) -> nat) -> bool {
    forall|n: nat| n < 0x1_0000_0000_0000_0000 ==> is_width(n, #[trigger] widths(n))
}

/// The input has two parts, one behind the other.
proof fn lemma_holds_add(input: Seq<u8>, at: int, a: Seq<u8>, b: Seq<u8>)
    requires
        holds(input, at, a + b),
    ensures
        holds(input, at, a),
        holds(input, at + a.len(), b),
{
    let whole = input.subrange(at, at + (a + b).len());
    assert(input.subrange(at, at + a.len()) =~= a) by {
        assert(whole.take(a.len() as int) =~= a);
        assert(whole.take(a.len() as int) =~= input.subrange(at, at + a.len()));
    }
    assert(input.subrange(at + a.len(), at + a.len() + b.len()) =~= b) by {
        assert(whole.skip(a.len() as int) =~= b);
        assert(whole.skip(a.len() as int) =~= input.subrange(
            at + a.len(),
            at + a.len() + b.len(),
        ));
    }
}

/// The value of eight bytes is that of their two halves.
proof fn lemma_be_value_8(b: Seq<u8>)
    requires
        b.len() == 8,
    ensures
        be_value(b) == (b[0] * 16777216 + b[1] * 65536 + b[2] * 256 + b[3]) * 0x1_0000_0000 + b[4]
            * 16777216 + b[5] * 65536 + b[6] * 256 + b[7],
{
    reveal_with_fuel(be_value, 9);
}

/// A number that four bytes hold is the sum of its bytes.
proof fn lemma_four_bytes(n: nat)
    requires
        n < 0x1_0000_0000,
    ensures
        byte_of(n, 0x100_0000) * 16777216 + byte_of(n, 0x1_0000) * 65536 + byte_of(n, 0x100) * 256
            + byte_of(n, 1) == n,
{
    let a = n / 256;
    let b = a / 256;
    let c = b / 256;
    assert(n / 0x1_0000 == b);
    assert(n / 0x100_0000 == c);
    assert(n == a * 256 + n % 256);
    assert(a == b * 256 + a % 256);
    assert(b == c * 256 + b % 256);
    assert(c < 256);
}

/// The lower four bytes of a number are those of its lower half.
proof fn lemma_lower_half(n: nat)
    ensures
        byte_of(n, 1) == byte_of(n % 0x1_0000_0000, 1),
        byte_of(n, 0x100) == byte_of(n % 0x1_0000_0000, 0x100),
        byte_of(n, 0x1_0000) == byte_of(n % 0x1_0000_0000, 0x1_0000),
        byte_of(n, 0x100_0000) == byte_of(n % 0x1_0000_0000, 0x100_0000),
{
    let high = n / 0x1_0000_0000;
    let low = n % 0x1_0000_0000;
    assert(n % 256 == low % 256);
    assert(n / 0x100 % 256 == low / 0x100 % 256) by {
        assert(n / 0x100 == high * 0x100_0000 + low / 0x100);
    }
    assert(n / 0x1_0000 % 256 == low / 0x1_0000 % 256) by {
        assert(n / 0x1_0000 == high * 0x1_0000 + low / 0x1_0000);
    }
    assert(n / 0x100_0000 % 256 == low / 0x100_0000 % 256) by {
        assert(n / 0x100_0000 == high * 0x100 + low / 0x100_0000);
    }
}

/// The upper four bytes of a number are those of its upper half.
proof fn lemma_upper_half(n: nat)
    ensures
        byte_of(n, 0x1_0000_0000) == byte_of(n / 0x1_0000_0000, 1),
        byte_of(n, 0x100_0000_0000) == byte_of(n / 0x1_0000_0000, 0x100),
        byte_of(n, 0x1_0000_0000_0000) == byte_of(n / 0x1_0000_0000, 0x1_0000),
        byte_of(n, 0x100_0000_0000_0000) == byte_of(n / 0x1_0000_0000, 0x100_0000),
{
    assert(n / 0x100_0000_0000 == n / 0x1_0000_0000 / 0x100);
    assert(n / 0x1_0000_0000_0000 == n / 0x1_0000_0000 / 0x1_0000);
    assert(n / 0x100_0000_0000_0000 == n / 0x1_0000_0000 / 0x100_0000);
}

/// A number that fits is the sum of its bytes.
proof fn lemma_byte_of(n: nat)
    ensures
        n < 0x1_0000 ==> byte_of(n, 0x100) * 256 + byte_of(n, 1) == n,
        n < 0x1_0000_0000 ==> byte_of(n, 0x100_0000) * 16777216 + byte_of(n, 0x1_0000) * 65536
            + byte_of(n, 0x100) * 256 + byte_of(n, 1) == n,
        n < 0x1_0000_0000_0000_0000 ==> byte_of(n, 0x100_0000_0000_0000) * 16777216 + byte_of(
            n,
            0x1_0000_0000_0000,
        ) * 65536 + byte_of(n, 0x100_0000_0000) * 256 + byte_of(n, 0x1_0000_0000) == n
            / 0x1_0000_0000,
        n < 0x1_0000_0000_0000_0000 ==> byte_of(n, 0x100_0000) * 16777216 + byte_of(n, 0x1_0000)
            * 65536 + byte_of(n, 0x100) * 256 + byte_of(n, 1) == n % 0x1_0000_0000,
{
    lemma_lower_half(n);
    lemma_upper_half(n);
    lemma_four_bytes(n % 0x1_0000_0000);
    if n < 0x1_0000_0000_0000_0000 {
        lemma_four_bytes(n / 0x1_0000_0000);
    }
}

/// What is read of a head.
proof fn lemma_head(input: Seq<u8>, at: int, major: u8, n: nat, width: nat)
    requires
        major < 7,
        is_width(n, width),
        holds(input, at, head(major, n, width)),
    ensures
        head(major, n, width).len() == 1 + width,
        at < input.len(),
        input[at] / 32 == major,
        argument(input, at + 1, input[at] % 32) == (Some(n), at + 1 + width),
{
    let bytes = head(major, n, width);
    let part = input.subrange(at, at + bytes.len());
    assert(part[0] == input[at]);
    assert(input.subrange(at + 1, at + 1 + width) =~= bytes.skip(1)) by {
        assert(part.skip(1) =~= input.subrange(at + 1, at + 1 + width));
    }
    let number = bytes.skip(1);
    lemma_byte_of(n);
    if width == 1 {
        reveal_with_fuel(be_value, 2);
        assert(number.drop_last() =~= Seq::empty());
        assert(be_value(number.drop_last()) == 0);
    } else if width == 2 {
        crate::bytes::lemma_be_value_2(number);
    } else if width == 4 {
        crate::bytes::lemma_be_value_4(number);
    } else if width == 8 {
        lemma_be_value_8(number);
    }
}

/// Decoding undoes encoding: an item that may stand at a depth is decoded from its bytes,
/// wherever they stand in the input and however long its numbers are written, and reading ends
/// behind them.
pub proof fn law_decoding_undoes_encoding(
    item: Item,
    widths: spec_fn(nat) -> nat,
    input: Seq<u8>,
    at: int,
    depth: nat,
)
    requires
        are_widths(widths),
        fits(item, depth),
        holds(input, at, encoded(item, widths)),
    ensures
        decoded(input, at, depth) == (Some(item), at + encoded(item, widths).len()),
        encoded(item, widths).len() > 0,
    decreases item,
{
    let bytes = encoded(item, widths);
    match item {
        Item::Integer(i) => {
            let n: nat = if i >= 0 {
                i as nat
            } else {
                (-1 - i) as nat
            };
            let major: u8 = if i >= 0 {
                0
            } else {
                1
            };
            assert(is_width(n, widths(n)));
            lemma_head(input, at, major, n, widths(n));
        },
        Item::Bytes(data) => {
            let n = data.len();
            assert(is_width(n, widths(n)));
            lemma_holds_add(input, at, head(2, n, widths(n)), data);
            lemma_head(input, at, 2, n, widths(n));
        },
        Item::Text(text) => {
            let data = encode_utf8(text);
            let n = data.len();
            assert(is_width(n, widths(n)));
            lemma_holds_add(input, at, head(3, n, widths(n)), data);
            lemma_head(input, at, 3, n, widths(n));
            encode_utf8_valid_utf8(text);
            encode_utf8_decode_utf8(text);
        },
        Item::Array(items) => {
            let n = items.len();
            assert(is_width(n, widths(n)));
            lemma_holds_add(input, at, head(4, n, widths(n)), encoded_items(items, widths));
            lemma_head(input, at, 4, n, widths(n));
            lemma_items_decoded(items, widths, input, at + 1 + widths(n), depth + 1);
        },
        Item::Mapping(items) => {
            let n = items.len();
            assert(is_width(n, widths(n)));
            lemma_holds_add(input, at, head(5, n, widths(n)), encoded_pairs(items, widths));
            lemma_head(input, at, 5, n, widths(n));
            lemma_pairs_decoded(items, widths, input, at + 1 + widths(n), depth + 1);
        },
        _ => {
            assert(input.subrange(at, at + 1)[0] == input[at]);
        },
    }
}

/// Items are decoded from their bytes.
proof fn lemma_items_decoded(
    items: Seq<Item>,
    widths: spec_fn(nat) -> nat,
    input: Seq<u8>,
    at: int,
    depth: nat,
)
    requires
        are_widths(widths),
        items_fit(items, depth),
        holds(input, at, encoded_items(items, widths)),
    ensures
        decoded_items(input, at, depth, items.len()) == (
            Some(items),
            at + encoded_items(items, widths).len(),
        ),
    decreases items,
{
    if items.len() > 0 {
        let init = items.drop_last();
        let last = items[items.len() - 1];
        lemma_holds_add(input, at, encoded_items(init, widths), encoded(last, widths));
        lemma_items_decoded(init, widths, input, at, depth);
        law_decoding_undoes_encoding(
            last,
            widths,
            input,
            at + encoded_items(init, widths).len(),
            depth,
        );
        assert(init.push(last) =~= items);
    } else {
        assert(items =~= Seq::empty());
    }
}

/// Pairs are decoded from their bytes.
proof fn lemma_pairs_decoded(
    items: Seq<(Item, Item)>,
    widths: spec_fn(nat) -> nat,
    input: Seq<u8>,
    at: int,
    depth: nat,
)
    requires
        are_widths(widths),
        pairs_fit(items, depth),
        holds(input, at, encoded_pairs(items, widths)),
    ensures
        decoded_pairs(input, at, depth, items.len()) == (
            Some(items),
            at + encoded_pairs(items, widths).len(),
        ),
    decreases items,
{
    if items.len() > 0 {
        let init = items.drop_last();
        let last = items[items.len() - 1];
        let before = encoded_pairs(init, widths);
        let key = encoded(last.0, widths);
        lemma_holds_add(input, at, before + key, encoded(last.1, widths));
        lemma_holds_add(input, at, before, key);
        lemma_pairs_decoded(init, widths, input, at, depth);
        law_decoding_undoes_encoding(last.0, widths, input, at + before.len(), depth);
        law_decoding_undoes_encoding(last.1, widths, input, at + before.len() + key.len(), depth);
        assert(init.push(last) =~= items);
    } else {
        assert(items =~= Seq::empty());
    }
}

/// A tag before an item is passed over; it counts as a level of nesting.
pub proof fn law_tags_are_passed_over(
    item: Item,
    widths: spec_fn(nat) -> nat,
    tag: nat,
    width: nat,
    input: Seq<u8>,
    at: int,
    depth: nat,
)
    requires
        are_widths(widths),
        is_width(tag, width),
        depth < 8,
        fits(item, depth + 1),
        holds(input, at, head(6, tag, width) + encoded(item, widths)),
    ensures
        decoded(input, at, depth) == (
            Some(item),
            at + 1 + width + encoded(item, widths).len(),
        ),
{
    lemma_holds_add(input, at, head(6, tag, width), encoded(item, widths));
    lemma_head(input, at, 6, tag, width);
    law_decoding_undoes_encoding(item, widths, input, at + 1 + width, depth + 1);
}

/// There is no item where the input ends, nor nine levels deep; none with a number that is
/// missing, or is of no known width; no integer that does not fit 64 bits with sign; no string
/// that is longer than what is left, and no text that is not UTF-8; and no simple value but
/// false, true and null.
pub proof fn law_what_is_no_item(input: Seq<u8>, at: int, depth: nat)
    requires
        0 <= at,
    ensures
        depth > 8 || at >= input.len() ==> decoded(input, at, depth).0 is None,
        at < input.len() && input[at] >= 0xe0 && input[at] != 0xf4 && input[at] != 0xf5
            && input[at] != 0xf6 ==> decoded(input, at, depth).0 is None,
        at < input.len() && input[at] % 32 >= 28 ==> decoded(input, at, depth).0 is None,
        at < input.len() && input[at] < 0xe0 && (input[at] % 32 == 24 && at + 2 > input.len()
            || input[at] % 32 == 25 && at + 3 > input.len() || input[at] % 32 == 26 && at + 5
            > input.len() || input[at] % 32 == 27 && at + 9 > input.len()) ==> decoded(
            input,
            at,
            depth,
        ).0 is None,
        at + 9 <= input.len() && (input[at] == 0x1b || input[at] == 0x3b) && input[at + 1] >= 0x80
            ==> decoded(input, at, depth).0 is None,
{
    if at + 9 <= input.len() && input[at] % 32 == 27 {
        lemma_be_value_8(input.subrange(at + 1, at + 9));
    }
}

/// A string that is longer than what is left is none, and neither is a text that is not UTF-8.
pub proof fn law_broken_strings_are_none(
    input: Seq<u8>,
    at: int,
    depth: nat,
    n: nat,
    width: nat,
)
    requires
        is_width(n, width),
        holds(input, at, head(2, n, width)) || holds(input, at, head(3, n, width)),
    ensures
        at + 1 + width + n > input.len() ==> decoded(input, at, depth).0 is None,
        at + 1 + width + n <= input.len() && holds(input, at, head(3, n, width)) && !valid_utf8(
            input.subrange(at + 1 + width, at + 1 + width + n),
        ) ==> decoded(input, at, depth).0 is None,
{
    if holds(input, at, head(2, n, width)) {
        lemma_head(input, at, 2, n, width);
    }
    if holds(input, at, head(3, n, width)) {
        lemma_head(input, at, 3, n, width);
    }
}

/// An item is decoded only where all of it is there.
pub proof fn law_part_of_an_item_is_none(input: Seq<u8>, at: int, depth: nat, length: int)
    requires
        0 <= at,
        decoded(input, at, depth).0 is Some,
        0 <= length < decoded(input, at, depth).1,
        length <= input.len(),
    ensures
        decoded(input.take(length), at, depth).0 is None,
{
    let part = input.take(length);
    if decoded(part, at, depth).0 is Some {
        lemma_decoded_ends(part, at, depth);
        if at < length {
            law_decoding_reads_only_the_item(part, input, at, depth, depth);
        }
    }
}

/// A request for an assertion waives the presence of a person exactly if it has, under the
/// number five, options in which `up` is false; whatever else it has, and whatever follows it.
/// No other command does, nor does one that is not a mapping.
pub proof fn law_silent_requests(
    item: Item,
    widths: spec_fn(nat) -> nat,
    behind: Seq<u8>,
    command: u8,
)
    requires
        are_widths(widths),
        fits(item, 0),
    ensures
        is_silent(seq![0x02u8] + encoded(item, widths) + behind) <==> item is Mapping && exists|
            i: int,
        |
            0 <= i < item->Mapping_0.len() && (#[trigger] item->Mapping_0[i]).0 == Item::Integer(5)
                && item->Mapping_0[i].1 is Mapping && item->Mapping_0[i].1->Mapping_0.contains(
                (Item::Text("up"@), Item::Bool(false)),
            ),
        command != 0x02 ==> !is_silent(seq![command] + behind),
        !is_silent(Seq::empty()),
{
    let bytes = encoded(item, widths);
    let data = seq![0x02u8] + bytes + behind;
    assert(data.subrange(1, 1 + bytes.len() as int) =~= bytes);
    law_decoding_undoes_encoding(item, widths, data, 1, 0);
    assert(data[0] == 0x02);
    assert((seq![command] + behind)[0] == command);
    if let Item::Mapping(root) = item {
        let up = (Item::Text("up"@), Item::Bool(false));
        assert forall|i: int| 0 <= i < root.len() implies presence_waived(
            (#[trigger] root[i]).1,
        ) == (root[i].1 is Mapping && root[i].1->Mapping_0.contains(up)) by {
            if root[i].1 is Mapping && root[i].1->Mapping_0.contains(up) {
                let options = root[i].1->Mapping_0;
                let j = choose|j: int| 0 <= j < options.len() && options[j] == up;
                assert(options[j] == up);
            }
        }
    }
}

/// The probe that a program sends before it asks a person is silent: an assertion for any
/// party, of any hash, with `up` false.
pub proof fn law_probe_is_silent(party: Seq<char>, hash: Seq<u8>, widths: spec_fn(nat) -> nat)
    requires
        are_widths(widths),
        encode_utf8(party).len() < 0x1_0000_0000_0000_0000,
        hash.len() < 0x1_0000_0000_0000_0000,
    ensures
        is_silent(
            seq![0x02u8] + encoded(
                Item::Mapping(
                    seq![
                        (Item::Integer(1), Item::Text(party)),
                        (Item::Integer(2), Item::Bytes(hash)),
                        (
                            Item::Integer(5),
                            Item::Mapping(seq![(Item::Text("up"@), Item::Bool(false))]),
                        ),
                    ],
                ),
                widths,
            ),
        ),
{
    let options = seq![(Item::Text("up"@), Item::Bool(false))];
    let root = seq![
        (Item::Integer(1), Item::Text(party)),
        (Item::Integer(2), Item::Bytes(hash)),
        (Item::Integer(5), Item::Mapping(options)),
    ];
    let item = Item::Mapping(root);
    reveal_strlit("up");
    is_ascii_chars_encode_utf8("up"@);
    reveal_with_fuel(fits, 4);
    reveal_with_fuel(pairs_fit, 5);
    assert(pairs_fit(options, 2)) by {
        assert(options.drop_last() =~= Seq::empty());
    }
    assert(fits(Item::Mapping(options), 1));
    let first = seq![root[0]];
    let second = seq![root[0], root[1]];
    assert(root.drop_last() =~= second);
    assert(second.drop_last() =~= first);
    assert(first.drop_last() =~= Seq::empty());
    assert(pairs_fit(first, 1));
    assert(pairs_fit(second, 1));
    assert(pairs_fit(root, 1));
    assert(fits(item, 0));
    law_silent_requests(item, widths, Seq::empty(), 0x02);
    let bytes = encoded(item, widths);
    assert(seq![0x02u8] + bytes + Seq::<u8>::empty() =~= seq![0x02u8] + bytes);
    assert(root[2].0 == Item::Integer(5));
    assert(options[0] == (Item::Text("up"@), Item::Bool(false)));
}

/// A list is broken where an item in it is: whatever stands before, there is no list, and reading
/// ends where it does in the broken item.
pub proof fn law_broken_items_break_lists(
    items: Seq<Item>,
    widths: spec_fn(nat) -> nat,
    n: nat,
    width: nat,
    input: Seq<u8>,
    at: int,
    depth: nat,
)
    requires
        depth <= 8,
        are_widths(widths),
        items_fit(items, depth + 1),
        items.len() < n,
        is_width(n, width),
        holds(input, at, head(4, n, width) + encoded_items(items, widths)),
    ensures
        ({
            let next = decoded(input, at + 1 + width + encoded_items(items, widths).len(), depth + 1);
            next.0 is None ==> decoded(input, at, depth) == (None::<Item>, next.1)
        }),
{
    let start = at + 1 + width;
    lemma_holds_add(input, at, head(4, n, width), encoded_items(items, widths));
    lemma_head(input, at, 4, n, width);
    lemma_items_decoded(items, widths, input, start, depth + 1);
    if decoded(input, start + encoded_items(items, widths).len(), depth + 1).0 is None {
        assert(decoded_items(input, start, depth + 1, items.len() + 1).0 is None);
        lemma_items_failed(input, start, depth + 1, items.len() + 1, n);
    }
}

/// A mapping is broken where a key or a value in it is: whatever stands before, there is no mapping,
/// and reading ends where it does in the broken item.
pub proof fn law_broken_items_break_mappings(
    items: Seq<(Item, Item)>,
    key: Item,
    widths: spec_fn(nat) -> nat,
    n: nat,
    width: nat,
    input: Seq<u8>,
    at: int,
    depth: nat,
)
    requires
        depth <= 8,
        are_widths(widths),
        pairs_fit(items, depth + 1),
        fits(key, depth + 1),
        items.len() < n,
        is_width(n, width),
        holds(input, at, head(5, n, width) + encoded_pairs(items, widths)),
    ensures
        ({
            let place = at + 1 + width + encoded_pairs(items, widths).len();
            let next = decoded(input, place, depth + 1);
            let value = decoded(input, place + encoded(key, widths).len(), depth + 1);
            &&& next.0 is None ==> decoded(input, at, depth) == (None::<Item>, next.1)
            &&& holds(input, place, encoded(key, widths)) && value.0 is None ==> decoded(
                input,
                at,
                depth,
            ) == (None::<Item>, value.1)
        }),
{
    let start = at + 1 + width;
    let place = start + encoded_pairs(items, widths).len();
    lemma_holds_add(input, at, head(5, n, width), encoded_pairs(items, widths));
    lemma_head(input, at, 5, n, width);
    lemma_pairs_decoded(items, widths, input, start, depth + 1);
    if holds(input, place, encoded(key, widths)) {
        law_decoding_undoes_encoding(key, widths, input, place, depth + 1);
    }
    if decoded_pairs(input, start, depth + 1, items.len() + 1).0 is None {
        lemma_pairs_failed(input, start, depth + 1, items.len() + 1, n);
    }
}

/// What a tag stands before is read one level deeper, and is what is read of it.
pub proof fn law_tags_are_levels(tag: nat, width: nat, input: Seq<u8>, at: int, depth: nat)
    requires
        depth <= 8,
        is_width(tag, width),
        holds(input, at, head(6, tag, width)),
    ensures
        decoded(input, at, depth) == decoded(input, at + 1 + width, depth + 1),
{
    lemma_head(input, at, 6, tag, width);
}

/// A request that is not to be decoded waives nothing, and neither does one that is no mapping.
pub proof fn law_broken_requests_are_not_silent(data: Seq<u8>)
    ensures
        decoded(data, 1, 0).0 is None ==> !is_silent(data),
        decoded(data, 1, 0).0 is Some && !(decoded(data, 1, 0).0->0 is Mapping) ==> !is_silent(data),
        is_silent(data) ==> data.len() > 1 && data[0] == 0x02 && data[1] / 32 >= 5,
{
    if is_silent(data) {
        assert(decoded(data, 1, 0).0 is Some);
        assert(data[1] / 32 == 5 || data[1] / 32 == 6);
    }
}

/// Where reading ends when there is no item: at once where nothing is left or all levels are used,
/// behind a simple value that is none, behind the first byte where its number is missing, behind a
/// number that is too large, and before a string of which not all is there.
pub proof fn law_where_reading_ends(input: Seq<u8>, at: int, depth: nat, n: nat, width: nat)
    requires
        0 <= at,
    ensures
        depth > 8 || at >= input.len() ==> decoded(input, at, depth).1 == at,
        depth <= 8 && at < input.len() && input[at] >= 0xe0 ==> decoded(input, at, depth).1 == at + 1,
        depth <= 8 && at < input.len() && input[at] < 0xe0 && (input[at] % 32 >= 28 || input[at] % 32
            == 24 && at + 2 > input.len() || input[at] % 32 == 25 && at + 3 > input.len()
            || input[at] % 32 == 26 && at + 5 > input.len() || input[at] % 32 == 27 && at + 9
            > input.len()) ==> decoded(input, at, depth).1 == at + 1,
        depth <= 8 && is_width(n, width) && (holds(input, at, head(0, n, width)) || holds(
            input,
            at,
            head(1, n, width),
        )) ==> decoded(input, at, depth).1 == at + 1 + width,
        depth <= 8 && is_width(n, width) && (holds(input, at, head(2, n, width)) || holds(
            input,
            at,
            head(3, n, width),
        )) ==> decoded(input, at, depth).1 == (if at + 1 + width + n > input.len() {
            at + 1 + width
        } else {
            at + 1 + width + n
        }),
{
    if is_width(n, width) {
        if holds(input, at, head(0, n, width)) {
            lemma_head(input, at, 0, n, width);
        }
        if holds(input, at, head(1, n, width)) {
            lemma_head(input, at, 1, n, width);
        }
        if holds(input, at, head(2, n, width)) {
            lemma_head(input, at, 2, n, width);
        }
        if holds(input, at, head(3, n, width)) {
            lemma_head(input, at, 3, n, width);
        }
    }
}

} // verus!
