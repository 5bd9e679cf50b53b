//! Phones on Bluetooth: which one it is, by the path that BlueZ gives it.

use vstd::prelude::*;
use vstd::string::*;

use crate::adb::{device_id_of, is_address, is_octet};
use crate::number::digit_value;
use crate::text::{
    chars_of, join_of, lemma_join_of_split, matches_at, occurs, occurs_at, opt_view, replace, replaced,
    same, split_of, string_of,
};

verus! {

/// The service that a phone finds, and where.
pub const BT_UUID: &'static str = "7a1b6b65-7900-4e6f-9d2a-6d6168697273";

/// The channel of the service.
pub const BT_CHANNEL: u16 = 27;

/// What stands before the address in a path.
pub const DEVICE: &'static str = "dev_";

/// The last position at or before `from` where a pattern occurs, or -1.
pub open spec fn last_position(s: Seq<char>, from: int, pattern: Seq<char>) -> int
    decreases from + 1,
{
    if from < 0 {
        -1
    } else if occurs_at(s, from, pattern) {
        from
    } else {
        last_position(s, from - 1, pattern)
    }
}

/// The address in a path: what follows the last `dev_`, with colons for underscores.
pub open spec fn address_in(path: Seq<char>) -> Option<Seq<char>> {
    let at = last_position(path, path.len() as int, DEVICE@);
    if at < 0 {
        None
    } else {
        Some(replaced(path.skip(at + DEVICE@.len()), seq!['_'], ':'))
    }
}

/// The address in a path, or the path where there is none.
pub open spec fn address_of(path: Seq<char>) -> Seq<char> {
    match address_in(path) {
        Some(address) => address,
        None => path,
    }
}

/// What a phone on Bluetooth is called by its link.
pub open spec fn bluetooth_name_of(address: Seq<char>) -> Seq<char> {
    "bt:"@ + address
}

/// The address in a path.
pub fn path_address(path: &str) -> (address: Option<String>)
    ensures
        opt_view(address) == address_in(path@),
{
    let chars = chars_of(path);
    let pattern = chars_of(DEVICE);
    let underscore: Vec<char> = vec!['_'];
    assert(underscore@ =~= seq!['_']);
    let mut i: usize = chars.len();
    loop
        invariant
            chars@ == path@,
            pattern@ == DEVICE@,
            underscore@ == seq!['_'],
            i <= chars@.len(),
            last_position(path@, path@.len() as int, DEVICE@) == last_position(
                path@,
                i as int,
                DEVICE@,
            ),
        decreases i,
    {
        if matches_at(chars.as_slice(), i, pattern.as_slice()) {
            assert(chars@.len() == chars.len() && pattern@.len() == pattern.len());
            let rest = string_of(chars.as_slice(), i + pattern.len(), chars.len());
            assert(rest@ =~= path@.skip(i + DEVICE@.len()));
            return Some(replace(rest.as_str(), underscore.as_slice(), ':'));
        }
        if i == 0 {
            assert(last_position(path@, -1, DEVICE@) == -1);
            return None;
        }
        i = i - 1;
    }
}

/// Which phone a path is about: its address, or the path where there is none.
pub fn bluetooth_address(path: &str) -> (address: String)
    ensures
        address@ == address_of(path@),
{
    match path_address(path) {
        Some(address) => address,
        None => path.to_string(),
    }
}

/// What a phone on Bluetooth is called by its link.
pub fn bluetooth_name(address: &str) -> (name: String)
    ensures
        name@ == bluetooth_name_of(address@),
{
    let mut name = "bt:".to_string();
    name.append(address);
    name
}

/// Whether a link is the one that ends with the phone of a path.
pub fn ends_with_path(name: &str, path: &str) -> (ends: bool)
    ensures
        ends == (address_in(path@) is Some && name@ == bluetooth_name_of(address_in(path@)->0)),
{
    match path_address(path) {
        Some(address) => same(name, bluetooth_name(address.as_str()).as_str()),
        None => false,
    }
}

/// A path of the kind that BlueZ gives to a phone.
pub open spec fn path_of(adapter: Seq<char>, address: Seq<char>) -> Seq<char> {
    adapter + DEVICE@ + replaced(address, seq![':'], '_')
}

/// The characters of an address are hexadecimal digits and colons.
proof fn lemma_address_chars(fields: Seq<Seq<char>>)
    requires
        forall|i: int| 0 <= i < fields.len() ==> is_octet(#[trigger] fields[i]),
    ensures
        ({
            let joined = join_of(fields, seq![':']);
            forall|k: int|
                0 <= k < joined.len() ==> (#[trigger] joined[k]) == ':' || digit_value(
                    joined[k],
                    16,
                ) is Some
        }),
    decreases fields.len(),
{
    let joined = join_of(fields, seq![':']);
    if fields.len() > 0 {
        let init = fields.drop_last();
        assert forall|i: int| 0 <= i < init.len() implies is_octet(#[trigger] init[i]) by {
            assert(init[i] == fields[i]);
        }
        lemma_address_chars(init);
        let before = join_of(init, seq![':']);
        let last = fields[fields.len() - 1];
        assert(is_octet(last));
        assert forall|k: int| 0 <= k < joined.len() implies (#[trigger] joined[k]) == ':'
            || digit_value(joined[k], 16) is Some by {
            if fields.len() == 1 {
                assert(joined == last);
            } else {
                assert(joined == before + seq![':'] + last);
                if k < before.len() {
                    assert(joined[k] == before[k]);
                } else if k > before.len() {
                    assert(joined[k] == last[k - before.len() - 1]);
                }
            }
        }
    }
}

/// A phone that tells its address on USB, and whose path on Bluetooth holds the same
/// address, is one phone either way.
pub proof fn law_both_ways_name_one_phone(
    adapter: Seq<char>,
    address: Seq<char>,
    serial: Seq<char>,
)
    requires
        is_address(address),
    ensures
        address_of(path_of(adapter, address)) == address,
        device_id_of(address, serial) == address,
{
    reveal_strlit("dev_");
    let path = path_of(adapter, address);
    let rest = replaced(address, seq![':'], '_');
    let at = adapter.len() as int;
    lemma_join_of_split(address, ':');
    lemma_address_chars(split_of(address, ':'));
    assert forall|k: int| 0 <= k < address.len() implies (#[trigger] rest[k]) != 'v' && (rest[k]
        == '_' <==> address[k] == ':') by {
        assert(address[k] == ':' || digit_value(address[k], 16) is Some);
        lemma_no_sign(address[k]);
        if address[k] == ':' {
            assert(seq![':'][0] == ':');
            assert(seq![':'].contains(':'));
        }
    }
    assert(path.subrange(at, at + 4) =~= DEVICE@);
    assert forall|p: int| at < p <= path.len() implies !occurs_at(path, p, DEVICE@) by {
        if occurs_at(path, p, DEVICE@) {
            assert(path.subrange(p, p + 4)[2] == 'v');
            assert(path[p + 2] == 'v');
            if p + 2 >= at + 4 {
                assert(path[p + 2] == rest[p + 2 - at - 4]);
            } else {
                assert(path[p + 2] == '_');
            }
        }
    }
    lemma_last_position(path, path.len() as int, DEVICE@, at);
    assert(path.skip(at + 4) =~= rest);
    let back = replaced(rest, seq!['_'], ':');
    assert forall|k: int| 0 <= k < address.len() implies back[k] == #[trigger] address[k] by {
        assert(rest[k] == '_' <==> address[k] == ':');
        assert(seq!['_'][0] == '_');
        assert(seq!['_'].contains(rest[k]) <==> rest[k] == '_');
        assert(seq![':'][0] == ':');
        assert(seq![':'].contains(address[k]) <==> address[k] == ':');
    }
    assert(back =~= address);
}

/// No hexadecimal digit is a `v` or an underscore.
proof fn lemma_no_sign(c: char)
    ensures
        digit_value(c, 16) is Some ==> c != 'v' && c != '_' && c != ':',
{
}

/// The last position of a pattern is the only one of its kind.
proof fn lemma_last_position(s: Seq<char>, from: int, pattern: Seq<char>, at: int)
    requires
        0 <= at <= from,
        occurs_at(s, at, pattern),
        forall|p: int| at < p <= from ==> !occurs_at(s, p, pattern),
    ensures
        last_position(s, from, pattern) == at,
    decreases from - at,
{
    if at < from {
        lemma_last_position(s, from - 1, pattern, at);
    }
}

/// What follows the last `dev_` of a path is the address in it, with colons for underscores; a path
/// without `dev_` has none, and stands for itself.
pub proof fn law_addresses_in_paths(before: Seq<char>, rest: Seq<char>, other: Seq<char>)
    requires
        !occurs(rest, seq!['d', 'e', 'v', '_']),
        !occurs(other, seq!['d', 'e', 'v', '_']),
    ensures
        ({
            let path = before + seq!['d', 'e', 'v', '_'] + rest;
            let address = rest.map_values(
                |c: char|
                    if c == '_' {
                        ':'
                    } else {
                        c
                    },
            );
            address_in(path) == Some(address) && address_of(path) == address
        }),
        address_in(other) is None,
        address_of(other) == other,
{
    reveal_strlit("dev_");
    let sign = seq!['d', 'e', 'v', '_'];
    assert(DEVICE@ =~= sign);
    let path = before + sign + rest;
    let at = before.len() as int;
    assert(path.subrange(at, at + 4) =~= sign);
    assert forall|p: int| at < p <= path.len() implies !occurs_at(path, p, sign) by {
        if occurs_at(path, p, sign) {
            let found = path.subrange(p, p + 4);
            assert(found[0] == 'd');
            assert(path[p] == 'd');
            if p < at + 4 {
                assert(path[p] == sign[p - at]);
            } else {
                assert(rest.subrange(p - at - 4, p - at) =~= found);
                assert(occurs_at(rest, p - at - 4, sign));
            }
        }
    }
    lemma_last_position(path, path.len() as int, DEVICE@, at);
    assert(path.skip(at + 4) =~= rest);
    let address = rest.map_values(
        |c: char|
            if c == '_' {
                ':'
            } else {
                c
            },
    );
    let read = replaced(rest, seq!['_'], ':');
    assert forall|k: int| 0 <= k < rest.len() implies read[k] == #[trigger] address[k] by {
        assert(seq!['_'][0] == '_');
        assert(seq!['_'].contains(rest[k]) <==> rest[k] == '_');
    }
    assert(read =~= address);
    lemma_no_last_position(other, other.len() as int, DEVICE@);
}

/// Where a pattern does not occur it has no last position.
proof fn lemma_no_last_position(s: Seq<char>, from: int, pattern: Seq<char>)
    requires
        !occurs(s, pattern),
        -1 <= from,
    ensures
        last_position(s, from, pattern) == -1,
    decreases from + 1,
{
    if from >= 0 {
        lemma_no_last_position(s, from - 1, pattern);
    }
}

/// A phone on Bluetooth is called `bt:` and its address by its link. The service has the channel
/// twenty-seven.
pub proof fn law_bluetooth_names(address: Seq<char>)
    ensures
        bluetooth_name_of(address) == seq!['b', 't', ':'] + address,
        BT_CHANNEL == 27,
        BT_UUID@ == "7a1b6b65-7900-4e6f-9d2a-6d6168697273"@,
{
    reveal_strlit("bt:");
    assert("bt:"@ =~= seq!['b', 't', ':']);
}

} // verus!
