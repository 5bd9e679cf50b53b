//! Numbers in text: decimal and hexadecimal, written and read.

use vstd::prelude::*;
use vstd::string::*;

use crate::text::chars_of;

verus! {

broadcast use vstd::string::group_string_axioms;

/// The character of a digit below sixteen, in lower case.
pub open spec fn digit_char(d: nat) -> char {
    if d < 10 {
        (48 + d) as char
    } else {
        (87 + d) as char
    }
}

/// The value of a digit in the given radix.
pub open spec fn digit_value(c: char, radix: nat) -> Option<nat> {
    let u = c as u32;
    let value: nat = if 48 <= u <= 57 {
        (u - 48) as nat
    } else if 97 <= u <= 122 {
        (u - 87) as nat
    } else if 65 <= u <= 90 {
        (u - 55) as nat
    } else {
        radix
    };
    if value < radix {
        Some(value)
    } else {
        None
    }
}

/// Every character is a digit of the radix.
pub open spec fn all_digits(s: Seq<char>, radix: nat) -> bool {
    forall|i: int| 0 <= i < s.len() ==> digit_value(#[trigger] s[i], radix) is Some
}

/// The value of a sequence of digits, most significant first.
pub open spec fn value_of(s: Seq<char>, radix: nat) -> nat
    decreases s.len(),
{
    if s.len() == 0 {
        0
    } else {
        value_of(s.drop_last(), radix) * radix + digit_value(s.last(), radix).unwrap_or(0)
    }
}

/// The number that a text spells: an optional plus sign, then one or more digits, of a
/// value that does not exceed `max`.
pub open spec fn number_of(s: Seq<char>, radix: nat, max: nat) -> Option<nat> {
    let digits = if s.len() > 0 && s[0] == '+' {
        s.skip(1)
    } else {
        s
    };
    if digits.len() > 0 && all_digits(digits, radix) && value_of(digits, radix) <= max {
        Some(value_of(digits, radix))
    } else {
        None
    }
}

/// The value of a digit in the given radix.
pub fn read_digit(c: char, radix: u32) -> (value: Option<u32>)
    requires
        radix <= 36,
    ensures
        value is Some <==> digit_value(c, radix as nat) is Some,
        value is Some ==> value->0 == digit_value(c, radix as nat)->0 && value->0 < radix,
{
    let u: u32 = c as u32;
    let value: u32 = if 48 <= u && u <= 57 {
        u - 48
    } else if 97 <= u && u <= 122 {
        u - 87
    } else if 65 <= u && u <= 90 {
        u - 55
    } else {
        radix
    };
    if value < radix {
        Some(value)
    } else {
        None
    }
}

/// More digits never make a value smaller.
proof fn lemma_value_of_grows(s: Seq<char>, k: int, radix: nat)
    requires
        0 <= k <= s.len(),
        radix >= 1,
    ensures
        value_of(s.take(k), radix) <= value_of(s, radix),
    decreases s.len() - k,
{
    if k == s.len() {
        assert(s.take(k) =~= s);
    } else {
        lemma_value_of_grows(s, k + 1, radix);
        assert(s.take(k + 1).drop_last() =~= s.take(k));
        let before = value_of(s.take(k), radix);
        assert(before * radix >= before) by (nonlinear_arith)
            requires
                radix >= 1,
        ;
    }
}

/// Reads a number of at most `max`.
pub fn read_number(text: &str, radix: u32, max: u64) -> (number: Option<u64>)
    requires
        2 <= radix <= 36,
    ensures
        number is Some <==> number_of(text@, radix as nat, max as nat) is Some,
        number is Some ==> number->0 == number_of(text@, radix as nat, max as nat)->0,
{
    let chars = chars_of(text);
    let start: usize = if chars.len() > 0 && chars[0] == '+' { 1 } else { 0 };
    let ghost digits = chars@.skip(start as int);
    proof {
        assert(digits =~= if text@.len() > 0 && text@[0] == '+' { text@.skip(1) } else { text@ });
    }
    if start == chars.len() {
        return None;
    }
    let mut value: u64 = 0;
    let mut i: usize = start;
    proof {
        assert(digits.take(0) =~= Seq::empty());
    }
    while i < chars.len()
        invariant
            2 <= radix <= 36,
            start <= i <= chars@.len(),
            digits == chars@.skip(start as int),
            forall|k: int| 0 <= k < i - start ==> digit_value(#[trigger] digits[k], radix as nat) is Some,
            value == value_of(digits.take(i - start), radix as nat),
            value <= max,
            digits == (if text@.len() > 0 && text@[0] == '+' { text@.skip(1) } else { text@ }),
        decreases chars@.len() - i,
    {
        proof {
            assert(digits[i - start] == chars@[i as int]);
            assert(digits.take(i - start + 1).drop_last() =~= digits.take(i - start));
            assert(digits.take(i - start + 1).last() == chars@[i as int]);
            lemma_value_of_grows(digits, i - start + 1, radix as nat);
        }
        match read_digit(chars[i], radix) {
            None => {
                return None;
            },
            Some(digit) => {
                assert(value * radix <= 0xffff_ffff_ffff_ffff * 36) by (nonlinear_arith)
                    requires
                        value <= 0xffff_ffff_ffff_ffff,
                        radix <= 36,
                ;
                let next: u128 = value as u128 * radix as u128 + digit as u128;
                if next > max as u128 {
                    return None;
                }
                value = next as u64;
            },
        }
        i = i + 1;
    }
    proof {
        assert(digits.take(i - start) =~= digits);
    }
    Some(value)
}

/// A number in decimal.
pub open spec fn decimal_of(n: nat) -> Seq<char>
    decreases n,
{
    if n < 10 {
        seq![digit_char(n)]
    } else {
        decimal_of(n / 10).push(digit_char(n % 10))
    }
}

/// A number in decimal.
pub fn decimal(n: u128) -> (s: String)
    ensures
        s@ == decimal_of(n as nat),
    decreases n,
{
    let mut s = if n < 10 {
        String::new()
    } else {
        decimal(n / 10)
    };
    s.push((48 + (n % 10) as u8) as char);
    proof {
        assert(s@ =~= decimal_of(n as nat));
    }
    s
}

/// A number in hexadecimal, lower case.
pub open spec fn hexadecimal_of(n: nat) -> Seq<char>
    decreases n,
{
    if n < 16 {
        seq![digit_char(n)]
    } else {
        hexadecimal_of(n / 16).push(digit_char(n % 16))
    }
}

/// A number in hexadecimal with zeros before it up to a width of four.
pub open spec fn hexadecimal4_of(n: nat) -> Seq<char> {
    let digits = hexadecimal_of(n);
    if digits.len() >= 4 {
        digits
    } else {
        Seq::new((4 - digits.len()) as nat, |i: int| '0') + digits
    }
}

/// A number in hexadecimal, lower case.
pub fn hexadecimal(n: u64) -> (s: String)
    ensures
        s@ == hexadecimal_of(n as nat),
    decreases n,
{
    let mut s = if n < 16 {
        String::new()
    } else {
        hexadecimal(n / 16)
    };
    let d: u8 = (n % 16) as u8;
    s.push(if d < 10 { (48 + d) as char } else { (87 + d) as char });
    proof {
        assert(s@ =~= hexadecimal_of(n as nat));
    }
    s
}

/// The digits of a number are digits and spell it.
pub proof fn lemma_decimal(n: nat)
    ensures
        decimal_of(n).len() > 0,
        all_digits(decimal_of(n), 10),
        value_of(decimal_of(n), 10) == n,
    decreases n,
{
    let d = n % 10;
    assert(digit_value(digit_char(d), 10) == Some(d));
    if n >= 10 {
        lemma_decimal(n / 10);
        assert(decimal_of(n).drop_last() =~= decimal_of(n / 10));
    } else {
        assert(decimal_of(n).drop_last() =~= Seq::empty());
        assert(value_of(decimal_of(n).drop_last(), 10) == 0);
    }
}

/// The hexadecimal digits of a number are digits and spell it.
pub proof fn lemma_hexadecimal(n: nat)
    ensures
        hexadecimal_of(n).len() > 0,
        all_digits(hexadecimal_of(n), 16),
        value_of(hexadecimal_of(n), 16) == n,
    decreases n,
{
    let d = n % 16;
    assert(digit_value(digit_char(d), 16) == Some(d));
    if n >= 16 {
        lemma_hexadecimal(n / 16);
        assert(hexadecimal_of(n).drop_last() =~= hexadecimal_of(n / 16));
    } else {
        assert(hexadecimal_of(n).drop_last() =~= Seq::empty());
        assert(value_of(hexadecimal_of(n).drop_last(), 16) == 0);
    }
}

/// A number that was written in decimal is read back.
pub proof fn lemma_number_of_decimal(n: nat, max: nat)
    requires
        n <= max,
    ensures
        number_of(decimal_of(n), 10, max) == Some(n),
{
    lemma_decimal(n);
    assert(digit_value(decimal_of(n)[0], 10) is Some);
}

/// Zeros before digits do not change their value.
proof fn lemma_value_of_zeros(zeros: nat, digits: Seq<char>, radix: nat)
    requires
        radix >= 1,
        all_digits(digits, radix),
    ensures
        value_of(Seq::new(zeros, |i: int| '0') + digits, radix) == value_of(digits, radix),
        all_digits(Seq::new(zeros, |i: int| '0') + digits, radix),
    decreases zeros + digits.len(),
{
    let front = Seq::new(zeros, |i: int| '0');
    let whole = front + digits;
    assert(digit_value('0', radix) == Some(0nat));
    assert forall|i: int| 0 <= i < whole.len() implies digit_value(
        #[trigger] whole[i],
        radix,
    ) is Some by {
        if i >= zeros {
            assert(whole[i] == digits[i - zeros]);
        }
    }
    if digits.len() > 0 {
        assert(all_digits(digits.drop_last(), radix)) by {
            assert forall|i: int| 0 <= i < digits.drop_last().len() implies digit_value(
                #[trigger] digits.drop_last()[i],
                radix,
            ) is Some by {
                assert(digits.drop_last()[i] == digits[i]);
            }
        }
        lemma_value_of_zeros(zeros, digits.drop_last(), radix);
        assert(whole.drop_last() =~= front + digits.drop_last());
        assert(whole.last() == digits.last());
    } else if zeros > 0 {
        lemma_value_of_zeros((zeros - 1) as nat, digits, radix);
        assert(whole.drop_last() =~= Seq::new((zeros - 1) as nat, |i: int| '0') + digits);
        assert(whole.last() == '0');
        assert(0 * radix == 0) by (nonlinear_arith);
    } else {
        assert(whole =~= digits);
    }
}

/// A number that four hexadecimal digits can hold is written in four.
pub proof fn lemma_hexadecimal4(n: nat)
    requires
        n <= 0xffff,
    ensures
        hexadecimal4_of(n).len() == 4,
        all_digits(hexadecimal4_of(n), 16),
        value_of(hexadecimal4_of(n), 16) == n,
{
    let digits = hexadecimal_of(n);
    lemma_hexadecimal(n);
    assert(digits.len() <= 4) by {
        reveal_with_fuel(hexadecimal_of, 4);
    }
    lemma_value_of_zeros((4 - digits.len()) as nat, digits, 16);
    assert(Seq::new(0, |i: int| '0') + digits =~= digits);
}

// ---------------------------------------------------------------------------
// Laws
// ---------------------------------------------------------------------------

/// The digits are the ten ciphers and then the letters, in either case; each counts as its place
/// among them, where that is below the radix. Nothing else is a digit.
pub proof fn law_digits(d: nat, c: char, radix: nat)
    requires
        radix <= 36,
    ensures
        d < 36 ==> digit_value("0123456789abcdefghijklmnopqrstuvwxyz"@[d as int], radix) == (if d
            < radix {
            Some(d)
        } else {
            None
        }),
        d < 36 ==> digit_value("0123456789ABCDEFGHIJKLMNOPQRSTUVWXYZ"@[d as int], radix) == (if d
            < radix {
            Some(d)
        } else {
            None
        }),
        digit_value(c, radix) is Some ==> "0123456789abcdefghijklmnopqrstuvwxyz"@.contains(c)
            || "0123456789ABCDEFGHIJKLMNOPQRSTUVWXYZ"@.contains(c),
        d < 16 ==> digit_char(d) == "0123456789abcdef"@[d as int],
{
    reveal_strlit("0123456789abcdefghijklmnopqrstuvwxyz");
    reveal_strlit("0123456789ABCDEFGHIJKLMNOPQRSTUVWXYZ");
    reveal_strlit("0123456789abcdef");
    let low = "0123456789abcdefghijklmnopqrstuvwxyz"@;
    let high = "0123456789ABCDEFGHIJKLMNOPQRSTUVWXYZ"@;
    if digit_value(c, radix) is Some {
        let u = c as u32;
        if 48 <= u <= 57 {
            assert(low[u - 48] == c);
        } else if 97 <= u <= 122 {
            assert(low[u - 87] == c);
        } else {
            assert(high[u - 55] == c);
        }
    }
}

/// A digit behind digits makes their value as many times as large as the radix says, and adds its
/// own.
pub proof fn law_digits_have_places(s: Seq<char>, c: char, d: nat, radix: nat)
    requires
        digit_value(c, radix) == Some(d),
    ensures
        value_of(s.push(c), radix) == value_of(s, radix) * radix + d,
        value_of(seq![c], radix) == d,
        all_digits(s.push(c), radix) == all_digits(s, radix),
{
    assert(s.push(c).drop_last() =~= s);
    assert(seq![c].drop_last() =~= Seq::empty());
    assert(value_of(seq![c].drop_last(), radix) == 0);
    assert(0 * radix == 0) by (nonlinear_arith);
    if all_digits(s, radix) {
        assert forall|i: int| 0 <= i < s.push(c).len() implies digit_value(
            #[trigger] s.push(c)[i],
            radix,
        ) is Some by {
            if i < s.len() {
                assert(s.push(c)[i] == s[i]);
            }
        }
    }
    if all_digits(s.push(c), radix) {
        assert forall|i: int| 0 <= i < s.len() implies digit_value(
            #[trigger] s[i],
            radix,
        ) is Some by {
            assert(s.push(c)[i] == s[i]);
        }
    }
}

/// A text is a number where it is digits, one at least, with or without a plus sign before them,
/// and their value is not too large; and then it is their value.
pub proof fn law_numbers_are_read(digits: Seq<char>, radix: nat, max: nat)
    requires
        2 <= radix <= 36,
    ensures
        digits.len() > 0 && all_digits(digits, radix) && value_of(digits, radix) <= max ==> {
            &&& number_of(digits, radix, max) == Some(value_of(digits, radix))
            &&& number_of(seq!['+'] + digits, radix, max) == Some(value_of(digits, radix))
        },
        digits.len() == 0 || !all_digits(digits, radix) || value_of(digits, radix) > max ==> {
            &&& number_of(seq!['+'] + digits, radix, max) is None
            &&& digits.len() > 0 && digits[0] == '+' || number_of(digits, radix, max) is None
        },
{
    assert((seq!['+'] + digits).skip(1) =~= digits);
    if digits.len() > 0 && all_digits(digits, radix) {
        assert(digit_value(digits[0], radix) is Some);
        assert(digit_value('+', radix) is None);
    }
}

/// A number is written in digits that spell it, without a zero before them, in lower case.
pub proof fn law_numbers_are_written(n: nat)
    ensures
        value_of(decimal_of(n), 10) == n,
        all_digits(decimal_of(n), 10),
        n > 0 ==> decimal_of(n)[0] != '0',
        n == 0 ==> decimal_of(n) == seq!['0'],
        value_of(hexadecimal_of(n), 16) == n,
        all_digits(hexadecimal_of(n), 16),
        n > 0 ==> hexadecimal_of(n)[0] != '0',
        n == 0 ==> hexadecimal_of(n) == seq!['0'],
        forall|i: int|
            0 <= i < hexadecimal_of(n).len() ==> !('A' <= #[trigger] hexadecimal_of(n)[i] <= 'Z'),
        n <= 0xffff ==> hexadecimal4_of(n).len() == 4 && value_of(hexadecimal4_of(n), 16) == n
            && hexadecimal_of(n).is_suffix_of(hexadecimal4_of(n)),
{
    lemma_decimal(n);
    lemma_hexadecimal(n);
    lemma_no_zero_before(n);
    if n <= 0xffff {
        lemma_hexadecimal4(n);
        let digits = hexadecimal_of(n);
        let written = hexadecimal4_of(n);
        assert(digits =~= written.subrange(written.len() - digits.len(), written.len() as int));
    }
}

/// What a number is written in.
proof fn lemma_no_zero_before(n: nat)
    ensures
        decimal_of(n).len() > 0,
        hexadecimal_of(n).len() > 0,
        n > 0 ==> decimal_of(n)[0] != '0',
        n > 0 ==> hexadecimal_of(n)[0] != '0',
        forall|i: int|
            0 <= i < hexadecimal_of(n).len() ==> !('A' <= #[trigger] hexadecimal_of(n)[i] <= 'Z'),
    decreases n,
{
    if n >= 10 {
        lemma_no_zero_before(n / 10);
    }
    if n >= 16 {
        lemma_no_zero_before(n / 16);
        let front = hexadecimal_of(n / 16);
        assert forall|i: int| 0 <= i < hexadecimal_of(n).len() implies !('A'
            <= #[trigger] hexadecimal_of(n)[i] <= 'Z') by {
            if i < front.len() {
                assert(hexadecimal_of(n)[i] == front[i]);
            }
        }
    }
}

} // verus!
