//! Integers in bytes, and bytes put into a buffer.

use vstd::prelude::*;
use vstd::slice::*;

verus! {

/// The value of bytes, most significant first.
pub open spec fn be_value(bytes: Seq<u8>) -> nat
    decreases bytes.len(),
{
    if bytes.len() == 0 {
        0
    } else {
        be_value(bytes.drop_last()) * 256 + bytes.last() as nat
    }
}

/// The value of bytes, least significant first.
pub open spec fn le_value(bytes: Seq<u8>) -> nat
    decreases bytes.len(),
{
    if bytes.len() == 0 {
        0
    } else {
        le_value(bytes.skip(1)) * 256 + bytes[0] as nat
    }
}

/// A number in `width` bytes, most significant first; what does not fit is cut off.
pub open spec fn be_bytes(n: nat, width: nat) -> Seq<u8>
    decreases width,
{
    if width == 0 {
        Seq::empty()
    } else {
        be_bytes(n / 256, (width - 1) as nat).push((n % 256) as u8)
    }
}

/// A number in `width` bytes, least significant first; what does not fit is cut off.
pub open spec fn le_bytes(n: nat, width: nat) -> Seq<u8>
    decreases width,
{
    if width == 0 {
        Seq::empty()
    } else {
        seq![(n % 256) as u8] + le_bytes(n / 256, (width - 1) as nat)
    }
}

/// A buffer with `part` in it at position `at`.
pub open spec fn spliced(buffer: Seq<u8>, at: int, part: Seq<u8>) -> Seq<u8> {
    buffer.take(at) + part + buffer.skip(at + part.len())
}

/// The four bytes of a number, most significant first.
pub proof fn lemma_be_bytes_4(n: nat)
    ensures
        be_bytes(n, 4) == seq![
            (n / 16777216 % 256) as u8,
            (n / 65536 % 256) as u8,
            (n / 256 % 256) as u8,
            (n % 256) as u8,
        ],
{
    reveal_with_fuel(be_bytes, 5);
    assert(n / 256 / 256 == n / 65536);
    assert(n / 256 / 256 / 256 == n / 16777216);
    assert(be_bytes(n, 4) =~= seq![
        (n / 16777216 % 256) as u8,
        (n / 65536 % 256) as u8,
        (n / 256 % 256) as u8,
        (n % 256) as u8,
    ]);
}

/// Four bytes hold a number up to multiples of two to the thirty-second.
pub proof fn lemma_be_bytes_4_wraps(n: nat)
    ensures
        be_bytes(n % 0x1_0000_0000, 4) == be_bytes(n, 4),
{
    let q = n / 0x1_0000_0000;
    let r = n % 0x1_0000_0000;
    lemma_be_bytes_4(n);
    lemma_be_bytes_4(r);
    assert(n / 16777216 == q * 256 + r / 16777216);
    assert(n / 65536 == q * 65536 + r / 65536);
    assert(n / 256 == q * 16777216 + r / 256);
    assert(n / 16777216 % 256 == r / 16777216 % 256);
    assert(n / 65536 % 256 == r / 65536 % 256);
    assert(n / 256 % 256 == r / 256 % 256);
    assert(n % 256 == r % 256);
}

/// The two bytes of a number, most significant first.
pub proof fn lemma_be_bytes_2(n: nat)
    ensures
        be_bytes(n, 2) == seq![(n / 256 % 256) as u8, (n % 256) as u8],
{
    reveal_with_fuel(be_bytes, 3);
    assert(be_bytes(n, 2) =~= seq![(n / 256 % 256) as u8, (n % 256) as u8]);
}

/// Two bytes hold a number up to multiples of two to the sixteenth.
pub proof fn lemma_be_bytes_2_wraps(n: nat)
    ensures
        be_bytes(n % 0x1_0000, 2) == be_bytes(n, 2),
{
    let q = n / 0x1_0000;
    let r = n % 0x1_0000;
    lemma_be_bytes_2(n);
    lemma_be_bytes_2(r);
    assert(n / 256 == q * 256 + r / 256);
    assert(n / 256 % 256 == r / 256 % 256);
    assert(n % 256 == r % 256);
}

/// The four bytes of a number, least significant first.
pub proof fn lemma_le_bytes_4(n: nat)
    ensures
        le_bytes(n, 4) == seq![
            (n % 256) as u8,
            (n / 256 % 256) as u8,
            (n / 65536 % 256) as u8,
            (n / 16777216 % 256) as u8,
        ],
{
    reveal_with_fuel(le_bytes, 5);
    assert(n / 256 / 256 == n / 65536);
    assert(n / 256 / 256 / 256 == n / 16777216);
    assert(le_bytes(n, 4) =~= seq![
        (n % 256) as u8,
        (n / 256 % 256) as u8,
        (n / 65536 % 256) as u8,
        (n / 16777216 % 256) as u8,
    ]);
}

/// The two bytes of a number, least significant first.
pub proof fn lemma_le_bytes_2(n: nat)
    ensures
        le_bytes(n, 2) == seq![(n % 256) as u8, (n / 256 % 256) as u8],
{
    reveal_with_fuel(le_bytes, 3);
    assert(le_bytes(n, 2) =~= seq![(n % 256) as u8, (n / 256 % 256) as u8]);
}

/// The value of four bytes, most significant first.
pub proof fn lemma_be_value_4(b: Seq<u8>)
    requires
        b.len() == 4,
    ensures
        be_value(b) == b[0] * 16777216 + b[1] * 65536 + b[2] * 256 + b[3],
{
    reveal_with_fuel(be_value, 5);
}

/// The value of two bytes, most significant first.
pub proof fn lemma_be_value_2(b: Seq<u8>)
    requires
        b.len() == 2,
    ensures
        be_value(b) == b[0] * 256 + b[1],
{
    reveal_with_fuel(be_value, 3);
}

/// The value of four bytes, least significant first.
pub proof fn lemma_le_value_4(b: Seq<u8>)
    requires
        b.len() == 4,
    ensures
        le_value(b) == b[0] + b[1] * 256 + b[2] * 65536 + b[3] * 16777216,
{
    reveal_with_fuel(le_value, 5);
}

/// The value of two bytes, least significant first.
pub proof fn lemma_le_value_2(b: Seq<u8>)
    requires
        b.len() == 2,
    ensures
        le_value(b) == b[0] + b[1] * 256,
{
    reveal_with_fuel(le_value, 3);
}

/// A number that fits is read back from its bytes.
pub proof fn lemma_be_value_of_bytes(n: nat)
    ensures
        n < 0x1_0000 ==> be_value(be_bytes(n, 2)) == n,
        n < 0x1_0000_0000 ==> be_value(be_bytes(n, 4)) == n,
        be_bytes(n, 2).len() == 2,
        be_bytes(n, 4).len() == 4,
{
    lemma_be_bytes_2(n);
    lemma_be_bytes_4(n);
    lemma_be_value_2(be_bytes(n, 2));
    lemma_be_value_4(be_bytes(n, 4));
}

/// The four bytes of a number, most significant first.
pub fn be32(n: u32) -> (bytes: Vec<u8>)
    ensures
        bytes@ == be_bytes(n as nat, 4),
{
    proof {
        lemma_be_bytes_4(n as nat);
    }
    let bytes: Vec<u8> = vec![
        (n / 16777216) as u8,
        (n / 65536 % 256) as u8,
        (n / 256 % 256) as u8,
        (n % 256) as u8,
    ];
    proof {
        assert(bytes@ =~= be_bytes(n as nat, 4));
    }
    bytes
}

/// The two bytes of a number, most significant first.
pub fn be16(n: u16) -> (bytes: Vec<u8>)
    ensures
        bytes@ == be_bytes(n as nat, 2),
{
    proof {
        lemma_be_bytes_2(n as nat);
    }
    let bytes: Vec<u8> = vec![(n / 256) as u8, (n % 256) as u8];
    proof {
        assert(bytes@ =~= be_bytes(n as nat, 2));
    }
    bytes
}

/// The number in the four bytes at a position, most significant first.
pub fn read_be32(bytes: &[u8], at: usize) -> (n: u32)
    requires
        at + 4 <= bytes@.len(),
    ensures
        n == be_value(bytes@.subrange(at as int, at + 4)),
{
    proof {
        lemma_be_value_4(bytes@.subrange(at as int, at + 4));
    }
    assert(bytes@.len() == bytes.len());
    bytes[at] as u32 * 16777216 + bytes[at + 1] as u32 * 65536 + bytes[at + 2] as u32 * 256 + bytes[at
        + 3] as u32
}

/// The number in the two bytes at a position, most significant first.
pub fn read_be16(bytes: &[u8], at: usize) -> (n: u16)
    requires
        at + 2 <= bytes@.len(),
    ensures
        n == be_value(bytes@.subrange(at as int, at + 2)),
{
    proof {
        lemma_be_value_2(bytes@.subrange(at as int, at + 2));
    }
    assert(bytes@.len() == bytes.len());
    bytes[at] as u16 * 256 + bytes[at + 1] as u16
}

/// The number in the four bytes at a position, least significant first.
pub fn read_le32(bytes: &[u8], at: usize) -> (n: u32)
    requires
        at + 4 <= bytes@.len(),
    ensures
        n == le_value(bytes@.subrange(at as int, at + 4)),
{
    proof {
        lemma_le_value_4(bytes@.subrange(at as int, at + 4));
    }
    assert(bytes@.len() == bytes.len());
    bytes[at] as u32 + bytes[at + 1] as u32 * 256 + bytes[at + 2] as u32 * 65536 + bytes[at + 3] as u32
        * 16777216
}

/// The number in the two bytes at a position, least significant first.
pub fn read_le16(bytes: &[u8], at: usize) -> (n: u16)
    requires
        at + 2 <= bytes@.len(),
    ensures
        n == le_value(bytes@.subrange(at as int, at + 2)),
{
    proof {
        lemma_le_value_2(bytes@.subrange(at as int, at + 2));
    }
    assert(bytes@.len() == bytes.len());
    bytes[at] as u16 + bytes[at + 1] as u16 * 256
}

/// Puts a number into a buffer, least significant byte first.
pub fn put_u16_le(buffer: &mut [u8], offset: usize, value: u16)
    requires
        offset + 2 <= old(buffer)@.len(),
    ensures
        final(buffer)@ == spliced(old(buffer)@, offset as int, le_bytes(value as nat, 2)),
{
    assert(buffer@.len() == buffer.len());
    buffer[offset] = (value % 256) as u8;
    buffer[offset + 1] = (value / 256) as u8;
    proof {
        lemma_le_bytes_2(value as nat);
        assert(buffer@ =~= spliced(old(buffer)@, offset as int, le_bytes(value as nat, 2)));
    }
}

/// Puts a number into a buffer, least significant byte first.
pub fn put_u32_le(buffer: &mut [u8], offset: usize, value: u32)
    requires
        offset + 4 <= old(buffer)@.len(),
    ensures
        final(buffer)@ == spliced(old(buffer)@, offset as int, le_bytes(value as nat, 4)),
{
    assert(buffer@.len() == buffer.len());
    buffer[offset] = (value % 256) as u8;
    buffer[offset + 1] = (value / 256 % 256) as u8;
    buffer[offset + 2] = (value / 65536 % 256) as u8;
    buffer[offset + 3] = (value / 16777216) as u8;
    proof {
        lemma_le_bytes_4(value as nat);
        assert(buffer@ =~= spliced(old(buffer)@, offset as int, le_bytes(value as nat, 4)));
    }
}

/// Puts bytes into a buffer.
pub fn put_bytes(buffer: &mut [u8], offset: usize, part: &[u8])
    requires
        offset + part@.len() <= old(buffer)@.len(),
    ensures
        final(buffer)@ == spliced(old(buffer)@, offset as int, part@),
{
    assert(buffer@.len() == buffer.len());
    let mut i: usize = 0;
    while i < part.len()
        invariant
            buffer@.len() == old(buffer)@.len(),
            offset + part@.len() <= buffer.len(),
            i <= part@.len(),
            buffer@ == spliced(old(buffer)@, offset as int, part@.take(i as int)),
        decreases part@.len() - i,
    {
        buffer[offset + i] = part[i];
        proof {
            assert(buffer@ =~= spliced(old(buffer)@, offset as int, part@.take(i + 1)));
        }
        i = i + 1;
    }
    proof {
        assert(part@.take(i as int) =~= part@);
    }
}

/// Appends bytes to bytes.
pub fn append_bytes(to: &mut Vec<u8>, part: &[u8])
    ensures
        final(to)@ == old(to)@ + part@,
{
    to.extend_from_slice(part);
    proof {
        assert(to@ =~= old(to)@ + part@);
    }
}

/// The bytes from `from` up to `to`.
pub fn bytes_between(bytes: &[u8], from: usize, to: usize) -> (part: Vec<u8>)
    requires
        from <= to <= bytes@.len(),
    ensures
        part@ == bytes@.subrange(from as int, to as int),
{
    slice_to_vec(slice_subrange(bytes, from, to))
}

/// A buffer of zeros.
pub fn zeros(len: usize) -> (buffer: Vec<u8>)
    ensures
        buffer@ == Seq::new(len as nat, |i: int| 0u8),
{
    let buffer: Vec<u8> = vec![0u8; len];
    proof {
        assert(buffer@ =~= Seq::new(len as nat, |i: int| 0u8));
    }
    buffer
}

// ---------------------------------------------------------------------------
// Laws
// ---------------------------------------------------------------------------

/// What bytes are worth: two hundred and fifty-six times as much for each place to the left, or,
/// where the least comes first, to the right.
pub proof fn law_bytes_have_places(bytes: Seq<u8>, b: u8)
    ensures
        be_value(bytes.push(b)) == be_value(bytes) * 256 + b,
        le_value(seq![b] + bytes) == b + le_value(bytes) * 256,
        be_value(seq![b]) == b,
        le_value(seq![b]) == b,
{
    assert(bytes.push(b).drop_last() =~= bytes);
    assert((seq![b] + bytes).skip(1) =~= bytes);
    assert(seq![b].drop_last() =~= Seq::empty());
    assert(seq![b].skip(1) =~= Seq::empty());
    assert(be_value(Seq::empty()) == 0);
    assert(le_value(Seq::empty()) == 0);
}

/// A number that fits into so many bytes is read back from them, whichever comes first; and the
/// one order is the other reversed.
pub proof fn law_numbers_are_read_back(n: nat, width: nat)
    ensures
        be_bytes(n, width).len() == width,
        le_bytes(n, width) == be_bytes(n, width).reverse(),
        be_value(be_bytes(n, width)) == le_value(le_bytes(n, width)),
        width == 1 && n < 0x100 || width == 2 && n < 0x1_0000 || width == 4 && n < 0x1_0000_0000
            ==> be_value(be_bytes(n, width)) == n,
    decreases width,
{
    if width > 0 {
        let less = (width - 1) as nat;
        let front = be_bytes(n / 256, less);
        let b = (n % 256) as u8;
        law_numbers_are_read_back(n / 256, less);
        law_bytes_have_places(front, b);
        law_bytes_have_places(le_bytes(n / 256, less), b);
        assert(le_bytes(n, width) =~= be_bytes(n, width).reverse());
        if width == 1 {
            assert(be_value(front) == 0);
        } else {
            lemma_be_value_of_bytes(n);
        }
    } else {
        assert(le_bytes(n, width) =~= be_bytes(n, width).reverse());
    }
}

/// What is put into a buffer stands at its place, and nothing else changes.
pub proof fn law_bytes_are_put(buffer: Seq<u8>, at: int, part: Seq<u8>, i: int)
    requires
        0 <= at,
        at + part.len() <= buffer.len(),
        0 <= i < buffer.len(),
    ensures
        spliced(buffer, at, part).len() == buffer.len(),
        spliced(buffer, at, part)[i] == (if at <= i < at + part.len() {
            part[i - at]
        } else {
            buffer[i]
        }),
{
}

} // verus!
