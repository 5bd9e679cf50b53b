//! Text, as sequences of characters: lines, fields, words, numbers.

use vstd::prelude::*;
use vstd::string::*;

verus! {

broadcast use vstd::string::group_string_axioms;

/// `String::push` appends one character.
pub assume_specification[ String::push ](s: &mut String, c: char)
    ensures
        final(s)@ == old(s)@.push(c),
;

// ---------------------------------------------------------------------------
// Characters and strings
// ---------------------------------------------------------------------------

/// The characters of a string.
pub fn chars_of(s: &str) -> (v: Vec<char>)
    ensures
        v@ == s@,
{
    let mut v: Vec<char> = Vec::new();
    for c in it: s.chars()
        invariant
            v@ == it.seq().take(it.index() as int),
    {
        v.push(c);
    }
    v
}

/// The string of the characters from `from` up to `to`.
pub fn string_of(chars: &[char], from: usize, to: usize) -> (s: String)
    requires
        from <= to <= chars@.len(),
    ensures
        s@ == chars@.subrange(from as int, to as int),
{
    let mut s = String::new();
    let mut i: usize = from;
    while i < to
        invariant
            from <= i <= to <= chars@.len(),
            s@ == chars@.subrange(from as int, i as int),
        decreases to - i,
    {
        s.push(chars[i]);
        proof {
            assert(chars@.subrange(from as int, i + 1) =~= chars@.subrange(
                from as int,
                i as int,
            ).push(chars@[i as int]));
        }
        i = i + 1;
    }
    s
}

/// Whether two slices of characters are equal.
pub fn same_chars(a: &[char], b: &[char]) -> (same: bool)
    ensures
        same == (a@ == b@),
{
    if a.len() != b.len() {
        return false;
    }
    proof {
        assert(a@.subrange(0, a@.len() as int) =~= a@);
    }
    matches_at(a, 0, b)
}

/// Whether two strings are equal.
pub fn same(a: &str, b: &str) -> (same: bool)
    ensures
        same == (a@ == b@),
{
    same_chars(chars_of(a).as_slice(), chars_of(b).as_slice())
}

/// Whether `pattern` stands in `chars` at position `at`.
pub fn matches_at(chars: &[char], at: usize, pattern: &[char]) -> (found: bool)
    requires
        at <= chars@.len(),
    ensures
        found == occurs_at(chars@, at as int, pattern@),
{
    if pattern.len() > chars.len() - at {
        return false;
    }
    let mut i: usize = 0;
    while i < pattern.len()
        invariant
            at + pattern.len() <= chars.len(),
            i <= pattern@.len(),
            forall|k: int| 0 <= k < i ==> chars@[at + k] == pattern@[k],
        decreases pattern@.len() - i,
    {
        if chars[at + i] != pattern[i] {
            proof {
                assert(chars@.subrange(at as int, at + pattern@.len())[i as int] != pattern@[i as int]);
            }
            return false;
        }
        i = i + 1;
    }
    proof {
        assert(chars@.subrange(at as int, at + pattern@.len()) =~= pattern@);
    }
    true
}

/// `pattern` stands in `s` at position `at`.
pub open spec fn occurs_at(s: Seq<char>, at: int, pattern: Seq<char>) -> bool {
    0 <= at && at + pattern.len() <= s.len() && s.subrange(at, at + pattern.len()) == pattern
}

/// `pattern` stands somewhere in `s`.
pub open spec fn occurs(s: Seq<char>, pattern: Seq<char>) -> bool {
    exists|at: int| occurs_at(s, at, pattern)
}

/// Whether `s` contains `pattern`.
pub fn contains(s: &str, pattern: &str) -> (found: bool)
    ensures
        found == occurs(s@, pattern@),
{
    let chars = chars_of(s);
    let wanted = chars_of(pattern);
    let mut i: usize = 0;
    loop
        invariant
            chars@ == s@,
            wanted@ == pattern@,
            i <= chars@.len(),
            forall|k: int| 0 <= k < i ==> !occurs_at(s@, k, pattern@),
        decreases chars@.len() - i,
    {
        if matches_at(chars.as_slice(), i, wanted.as_slice()) {
            return true;
        }
        if i == chars.len() {
            return false;
        }
        i = i + 1;
    }
}

/// What stands between two texts occurs in the whole.
pub proof fn lemma_occurs_between(before: Seq<char>, pattern: Seq<char>, behind: Seq<char>)
    ensures
        occurs(before + pattern + behind, pattern),
{
    let whole = before + pattern + behind;
    let at = before.len() as int;
    assert(whole.subrange(at, at + pattern.len()) =~= pattern);
    assert(occurs_at(whole, at, pattern));
}

/// Whether `s` contains the character `c`.
pub fn contains_char(s: &str, c: char) -> (found: bool)
    ensures
        found == s@.contains(c),
{
    let chars = chars_of(s);
    index_of(chars.as_slice(), 0, c) < chars.len()
}

/// Whether `s` begins with `prefix`.
pub fn starts_with(s: &str, prefix: &str) -> (found: bool)
    ensures
        found == prefix@.is_prefix_of(s@),
{
    matches_at(chars_of(s).as_slice(), 0, chars_of(prefix).as_slice())
}

/// Whether a string begins with a character.
pub fn begins(s: &str, c: char) -> (found: bool)
    ensures
        found == (s@.len() > 0 && s@[0] == c),
{
    !s.is_empty() && s.get_char(0) == c
}

/// The first position of `c` in `s` at or after `from`, or the length of `s`.
pub open spec fn position(s: Seq<char>, from: int, c: char) -> int
    decreases s.len() - from,
{
    if from >= s.len() || s[from] == c {
        from
    } else {
        position(s, from + 1, c)
    }
}

/// What `position` is: no `c` before it, and `c` at it unless it is the end.
pub proof fn lemma_position(s: Seq<char>, from: int, c: char)
    requires
        0 <= from <= s.len(),
    ensures
        from <= position(s, from, c) <= s.len(),
        position(s, from, c) < s.len() ==> s[position(s, from, c)] == c,
        forall|k: int| from <= k < position(s, from, c) ==> s[k] != c,
    decreases s.len() - from,
{
    if from < s.len() && s[from] != c {
        lemma_position(s, from + 1, c);
    }
}

/// Nothing else is `position`.
pub proof fn lemma_position_is(s: Seq<char>, from: int, c: char, at: int)
    requires
        0 <= from <= at <= s.len(),
        at < s.len() ==> s[at] == c,
        forall|k: int| from <= k < at ==> s[k] != c,
    ensures
        position(s, from, c) == at,
{
    lemma_position(s, from, c);
    let p = position(s, from, c);
    if p < at {
        assert(s[p] != c);
    } else if at < p {
        assert(s[at] != c);
    }
}

/// The first position of `c` at or after `from`, or the length.
pub fn index_of(chars: &[char], from: usize, c: char) -> (at: usize)
    requires
        from <= chars@.len(),
    ensures
        at == position(chars@, from as int, c),
        from <= at <= chars@.len(),
        at < chars@.len() ==> chars@[at as int] == c,
        forall|k: int| from <= k < at ==> chars@[k] != c,
{
    let mut i: usize = from;
    while i < chars.len() && chars[i] != c
        invariant
            from <= i <= chars@.len(),
            forall|k: int| from <= k < i ==> chars@[k] != c,
        decreases chars@.len() - i,
    {
        i = i + 1;
    }
    proof {
        lemma_position_is(chars@, from as int, c, i as int);
    }
    i
}

// ---------------------------------------------------------------------------
// Lines
// ---------------------------------------------------------------------------

/// A line whose end was a line feed, without the carriage return before it.
pub open spec fn chomp(line: Seq<char>) -> Seq<char> {
    if line.len() > 0 && line.last() == '\r' {
        line.drop_last()
    } else {
        line
    }
}

/// The lines of a text. A line ends with a line feed, or a carriage return and a line
/// feed, neither of which is part of it; the last line may lack its end.
pub open spec fn lines_of(s: Seq<char>) -> Seq<Seq<char>>
    decreases s.len(),
{
    if s.len() == 0 {
        Seq::empty()
    } else {
        let end = position(s, 0, '\n');
        if 0 <= end < s.len() {
            seq![chomp(s.take(end))] + lines_of(s.skip(end + 1))
        } else {
            seq![s]
        }
    }
}

/// The lines of a text.
pub fn lines(text: &str) -> (found: Vec<String>)
    ensures
        found.deep_view() == lines_of(text@),
{
    let chars = chars_of(text);
    let mut found: Vec<String> = Vec::new();
    let mut start: usize = 0;
    proof {
        assert(chars@.skip(0) =~= text@);
        assert(found.deep_view() =~= Seq::<Seq<char>>::empty());
    }
    while start < chars.len()
        invariant
            chars@ == text@,
            start <= chars@.len(),
            lines_of(text@) == found.deep_view() + lines_of(chars@.skip(start as int)),
        decreases chars@.len() - start,
    {
        let end = index_of(chars.as_slice(), start, '\n');
        let ghost rest = chars@.skip(start as int);
        let ghost before = found.deep_view();
        proof {
            lemma_position_is(rest, 0, '\n', end - start);
        }
        if end == chars.len() {
            found.push(string_of(chars.as_slice(), start, end));
            proof {
                assert(chars@.subrange(start as int, end as int) =~= rest);
                assert(found.deep_view() =~= before.push(rest));
                assert(chars@.skip(end as int) =~= Seq::empty());
                assert(lines_of(text@) =~= found.deep_view() + lines_of(chars@.skip(end as int)));
            }
            start = end;
        } else {
            let to: usize = if start < end && chars[end - 1] == '\r' { end - 1 } else { end };
            found.push(string_of(chars.as_slice(), start, to));
            proof {
                assert(rest.take(end - start) =~= chars@.subrange(start as int, end as int));
                assert(chars@.subrange(start as int, to as int) =~= chomp(rest.take(end - start)));
                assert(found.deep_view() =~= before.push(chomp(rest.take(end - start))));
                assert(rest.skip(end - start + 1) =~= chars@.skip(end + 1));
                assert(lines_of(text@) =~= found.deep_view() + lines_of(chars@.skip(end + 1)));
            }
            start = end + 1;
        }
    }
    proof {
        assert(chars@.skip(start as int) =~= Seq::empty());
        assert(lines_of(text@) =~= found.deep_view());
    }
    found
}

/// Each line with a line feed after it.
pub open spec fn unlines(lines: Seq<Seq<char>>) -> Seq<char>
    decreases lines.len(),
{
    if lines.len() == 0 {
        Seq::empty()
    } else {
        unlines(lines.drop_last()) + lines.last().push('\n')
    }
}

/// A line that `unlines` and `lines_of` carry over: no line feed in it, no carriage
/// return at its end.
pub open spec fn is_line(line: Seq<char>) -> bool {
    !line.contains('\n') && chomp(line) == line
}

/// Every one of `lines` is a line.
pub open spec fn are_lines(lines: Seq<Seq<char>>) -> bool {
    forall|i: int| 0 <= i < lines.len() ==> is_line(#[trigger] lines[i])
}

/// The text of a line and of what follows it.
pub proof fn lemma_lines_of_cons(line: Seq<char>, rest: Seq<char>)
    requires
        !line.contains('\n'),
    ensures
        lines_of(line.push('\n') + rest) == seq![chomp(line)] + lines_of(rest),
{
    let s = line.push('\n') + rest;
    assert forall|k: int| 0 <= k < line.len() implies s[k] != '\n' by {
        assert(s[k] == line[k]);
    }
    lemma_position_is(s, 0, '\n', line.len() as int);
    assert(s.take(line.len() as int) =~= line);
    assert(s.skip(line.len() as int + 1) =~= rest);
}

/// The first line of `unlines`.
pub proof fn lemma_unlines_cons(lines: Seq<Seq<char>>)
    requires
        lines.len() > 0,
    ensures
        unlines(lines) == lines[0].push('\n') + unlines(lines.skip(1)),
    decreases lines.len(),
{
    if lines.len() == 1 {
        assert(lines.drop_last() =~= Seq::empty());
        assert(lines.skip(1) =~= Seq::empty());
        assert(unlines(lines) =~= lines[0].push('\n') + unlines(lines.skip(1)));
    } else {
        lemma_unlines_cons(lines.drop_last());
        assert(lines.drop_last().skip(1) =~= lines.skip(1).drop_last());
        assert(unlines(lines) =~= lines[0].push('\n') + unlines(lines.skip(1)));
    }
}

/// No line has a line feed in it.
pub open spec fn unbroken(lines: Seq<Seq<char>>) -> bool {
    forall|i: int| 0 <= i < lines.len() ==> !(#[trigger] lines[i]).contains('\n')
}

/// Lines without the carriage returns at their ends.
pub open spec fn chomped(lines: Seq<Seq<char>>) -> Seq<Seq<char>> {
    lines.map_values(|line: Seq<char>| chomp(line))
}

/// The lines of a text have no line feed in them.
pub proof fn lemma_lines_of_unbroken(s: Seq<char>)
    ensures
        unbroken(lines_of(s)),
    decreases s.len(),
{
    if s.len() > 0 {
        let end = position(s, 0, '\n');
        lemma_position(s, 0, '\n');
        if end < s.len() {
            let rest = s.skip(end + 1);
            lemma_lines_of_unbroken(rest);
            assert forall|i: int| 0 <= i < lines_of(s).len() implies !(
            #[trigger] lines_of(s)[i]).contains('\n') by {
                if i == 0 {
                    let line = chomp(s.take(end));
                    assert(forall|k: int| 0 <= k < line.len() ==> line[k] == s[k]);
                } else {
                    assert(lines_of(s)[i] == lines_of(rest)[i - 1]);
                }
            }
        }
    }
}

/// Lines written one after the other are read back without the carriage returns at their
/// ends.
pub proof fn lemma_written_lines(lines: Seq<Seq<char>>)
    requires
        unbroken(lines),
    ensures
        lines_of(unlines(lines)) == chomped(lines),
    decreases lines.len(),
{
    if lines.len() > 0 {
        let others = lines.skip(1);
        assert(!lines[0].contains('\n'));
        assert forall|i: int| 0 <= i < others.len() implies !(#[trigger] others[i]).contains('\n') by {
            assert(others[i] == lines[i + 1]);
        }
        lemma_written_lines(others);
        lemma_unlines_cons(lines);
        lemma_lines_of_cons(lines[0], unlines(others));
        assert(seq![chomp(lines[0])] + chomped(others) =~= chomped(lines));
    } else {
        assert(chomped(lines) =~= Seq::empty());
    }
}

/// Lines written one after the other are read back as they were.
pub proof fn lemma_lines_of_unlines(lines: Seq<Seq<char>>)
    requires
        are_lines(lines),
    ensures
        lines_of(unlines(lines)) == lines,
{
    assert forall|i: int| 0 <= i < lines.len() implies !(#[trigger] lines[i]).contains('\n')
        && chomped(lines)[i] == lines[i] by {
        assert(is_line(lines[i]));
    }
    lemma_written_lines(lines);
    assert(chomped(lines) =~= lines);
}

/// A text whose lines each end with a line feed alone.
pub open spec fn is_unix(s: Seq<char>) -> bool {
    &&& s.len() > 0 ==> s.last() == '\n'
    &&& forall|k: int| 0 < k < s.len() && s[k] == '\n' ==> #[trigger] s[k - 1] != '\r'
}

/// A text whose lines each end with a line feed alone is what its lines make.
pub proof fn lemma_unlines_of_lines(s: Seq<char>)
    requires
        is_unix(s),
    ensures
        unlines(lines_of(s)) == s,
        are_lines(lines_of(s)),
    decreases s.len(),
{
    if s.len() > 0 {
        let end = position(s, 0, '\n');
        lemma_position(s, 0, '\n');
        assert(end < s.len()) by {
            assert(s[s.len() - 1] == '\n');
        }
        let line = s.take(end);
        let rest = s.skip(end + 1);
        assert(chomp(line) == line) by {
            if line.len() > 0 {
                assert(line.last() == s[end - 1]);
            }
        }
        assert forall|k: int| 0 < k < rest.len() && rest[k] == '\n' implies #[trigger] rest[k - 1]
            != '\r' by {
            assert(rest[k] == s[k + end + 1] && rest[k - 1] == s[k + end + 1 - 1]);
        }
        assert(!line.contains('\n'));
        lemma_unlines_of_lines(rest);
        lemma_unlines_cons(lines_of(s));
        assert(lines_of(s).skip(1) =~= lines_of(rest));
        assert(line.push('\n') + rest =~= s);
        assert forall|i: int| 0 <= i < lines_of(s).len() implies is_line(#[trigger] lines_of(s)[i]) by {
            if i > 0 {
                assert(lines_of(s)[i] == lines_of(rest)[i - 1]);
            }
        }
    }
}

// ---------------------------------------------------------------------------
// Fields
// ---------------------------------------------------------------------------

/// The fields of a text between separators: always one more than there are separators.
pub open spec fn split_of(s: Seq<char>, separator: char) -> Seq<Seq<char>>
    decreases s.len(),
{
    let end = position(s, 0, separator);
    if 0 <= end < s.len() {
        seq![s.take(end)] + split_of(s.skip(end + 1), separator)
    } else {
        seq![s]
    }
}

/// The fields of a text between separators.
pub fn split(text: &str, separator: char) -> (found: Vec<String>)
    ensures
        found.deep_view() == split_of(text@, separator),
        found@.len() > 0,
{
    let chars = chars_of(text);
    let mut found: Vec<String> = Vec::new();
    let mut start: usize = 0;
    proof {
        assert(chars@.skip(0) =~= text@);
        assert(found.deep_view() + split_of(text@, separator) =~= split_of(text@, separator));
    }
    loop
        invariant
            chars@ == text@,
            start <= chars@.len(),
            split_of(text@, separator) == found.deep_view() + split_of(
                chars@.skip(start as int),
                separator,
            ),
        decreases chars@.len() - start,
    {
        let end = index_of(chars.as_slice(), start, separator);
        let ghost rest = chars@.skip(start as int);
        let ghost before = found.deep_view();
        proof {
            lemma_position_is(rest, 0, separator, end - start);
            assert(rest.take(end - start) =~= chars@.subrange(start as int, end as int));
        }
        found.push(string_of(chars.as_slice(), start, end));
        proof {
            assert(found.deep_view() =~= before.push(rest.take(end - start)));
        }
        if end == chars.len() {
            proof {
                assert(rest.take(end - start) =~= rest);
                assert(split_of(text@, separator) =~= found.deep_view());
            }
            return found;
        }
        proof {
            assert(rest.skip(end - start + 1) =~= chars@.skip(end + 1));
            assert(split_of(text@, separator) =~= found.deep_view() + split_of(
                chars@.skip(end + 1),
                separator,
            ));
        }
        start = end + 1;
    }
}

/// The first field of a text and the others.
pub proof fn lemma_split_of_cons(field: Seq<char>, rest: Seq<char>, separator: char)
    requires
        !field.contains(separator),
    ensures
        split_of(field.push(separator) + rest, separator) == seq![field] + split_of(rest, separator),
{
    let s = field.push(separator) + rest;
    assert forall|k: int| 0 <= k < field.len() implies s[k] != separator by {
        assert(s[k] == field[k]);
    }
    lemma_position_is(s, 0, separator, field.len() as int);
    assert(s.take(field.len() as int) =~= field);
    assert(s.skip(field.len() as int + 1) =~= rest);
}

/// A text without separators is its own field.
pub proof fn lemma_split_of_one(field: Seq<char>, separator: char)
    requires
        !field.contains(separator),
    ensures
        split_of(field, separator) == seq![field],
{
    assert forall|k: int| 0 <= k < field.len() implies field[k] != separator by {
        assert(field.contains(field[k]));
    }
    lemma_position_is(field, 0, separator, field.len() as int);
}

/// There is a field, and no field has a separator, nor any character that the text does not
/// have.
pub proof fn lemma_split_of_lack(s: Seq<char>, separator: char, c: char)
    requires
        c == separator || !s.contains(c),
    ensures
        split_of(s, separator).len() > 0,
        forall|i: int|
            0 <= i < split_of(s, separator).len() ==> !(#[trigger] split_of(
                s,
                separator,
            )[i]).contains(c),
    decreases s.len(),
{
    let end = position(s, 0, separator);
    lemma_position(s, 0, separator);
    assert forall|k: int| 0 <= k < end implies s[k] != c by {
        assert(s.contains(s[k]));
    }
    if end < s.len() {
        let rest = s.skip(end + 1);
        assert(rest.contains(c) ==> s.contains(c)) by {
            if rest.contains(c) {
                let k = choose|k: int| 0 <= k < rest.len() && rest[k] == c;
                assert(s[k + end + 1] == c);
            }
        }
        lemma_split_of_lack(rest, separator, c);
        assert forall|i: int| 0 <= i < split_of(s, separator).len() implies !(#[trigger] split_of(
            s,
            separator,
        )[i]).contains(c) by {
            if i == 0 {
                assert(split_of(s, separator)[0] == s.take(end));
            } else {
                assert(split_of(s, separator)[i] == split_of(rest, separator)[i - 1]);
            }
        }
    }
}

/// The fields on either side of a separator.
pub proof fn lemma_split_of_add(a: Seq<char>, b: Seq<char>, separator: char)
    ensures
        split_of(a.push(separator) + b, separator) == split_of(a, separator) + split_of(
            b,
            separator,
        ),
    decreases a.len(),
{
    let end = position(a, 0, separator);
    lemma_position(a, 0, separator);
    if end < a.len() {
        let first = a.take(end);
        let rest = a.skip(end + 1);
        lemma_split_of_add(rest, b, separator);
        assert(!first.contains(separator));
        assert(a.push(separator) + b =~= first.push(separator) + (rest.push(separator) + b));
        lemma_split_of_cons(first, rest.push(separator) + b, separator);
        assert(seq![first] + (split_of(rest, separator) + split_of(b, separator)) =~= split_of(
            a,
            separator,
        ) + split_of(b, separator));
    } else {
        assert(!a.contains(separator));
        lemma_split_of_cons(a, b, separator);
    }
}

/// The fields of a text without the carriage return at its end: the last has none either.
pub proof fn lemma_split_of_chomp(s: Seq<char>, separator: char)
    requires
        separator != '\r',
    ensures
        split_of(chomp(s), separator) == split_of(s, separator).drop_last().push(
            chomp(split_of(s, separator).last()),
        ),
    decreases s.len(),
{
    let end = position(s, 0, separator);
    lemma_position(s, 0, separator);
    if end < s.len() {
        let first = s.take(end);
        let rest = s.skip(end + 1);
        lemma_split_of_chomp(rest, separator);
        lemma_split_of_lack(rest, separator, separator);
        assert(!first.contains(separator));
        assert(chomp(s) =~= first.push(separator) + chomp(rest));
        lemma_split_of_cons(first, chomp(rest), separator);
        assert(seq![first] + split_of(chomp(rest), separator) =~= split_of(
            s,
            separator,
        ).drop_last().push(chomp(split_of(s, separator).last())));
    } else {
        assert forall|k: int| 0 <= k < chomp(s).len() implies chomp(s)[k] != separator by {
            assert(chomp(s)[k] == s[k]);
        }
        assert(!chomp(s).contains(separator));
        lemma_split_of_one(chomp(s), separator);
        assert(seq![s].drop_last().push(chomp(s)) =~= seq![chomp(s)]);
    }
}

/// Parts with a separator between each two.
pub open spec fn join_of(parts: Seq<Seq<char>>, separator: Seq<char>) -> Seq<char>
    decreases parts.len(),
{
    if parts.len() == 0 {
        Seq::empty()
    } else if parts.len() == 1 {
        parts[0]
    } else {
        join_of(parts.drop_last(), separator) + separator + parts.last()
    }
}

/// Parts with a separator between each two.
pub fn join(parts: &Vec<String>, separator: &str) -> (joined: String)
    ensures
        joined@ == join_of(parts.deep_view(), separator@),
{
    let mut joined = String::new();
    let mut i: usize = 0;
    while i < parts.len()
        invariant
            i <= parts@.len(),
            joined@ == join_of(parts.deep_view().take(i as int), separator@),
        decreases parts@.len() - i,
    {
        proof {
            assert(parts.deep_view().take(i + 1).drop_last() =~= parts.deep_view().take(i as int));
            assert(parts.deep_view().take(i + 1).last() == parts@[i as int]@);
        }
        if i > 0 {
            joined.append(separator);
        }
        joined.append(parts[i].as_str());
        proof {
            assert(joined@ =~= join_of(parts.deep_view().take(i + 1), separator@));
        }
        i = i + 1;
    }
    proof {
        assert(parts.deep_view().take(i as int) =~= parts.deep_view());
    }
    joined
}

/// Joined with line feeds and ended with one, lines are each followed by one.
pub proof fn lemma_join_of_unlines(lines: Seq<Seq<char>>)
    requires
        lines.len() > 0,
    ensures
        join_of(lines, seq!['\n']).push('\n') == unlines(lines),
    decreases lines.len(),
{
    if lines.len() == 1 {
        assert(lines.drop_last() =~= Seq::empty());
        assert(unlines(lines.drop_last()) =~= Seq::empty());
        assert(join_of(lines, seq!['\n']).push('\n') =~= unlines(lines));
    } else {
        lemma_join_of_unlines(lines.drop_last());
        assert(join_of(lines, seq!['\n']).push('\n') =~= unlines(lines));
    }
}

/// Fields joined by their separator are split again.
pub proof fn lemma_split_of_join(parts: Seq<Seq<char>>, separator: char)
    requires
        parts.len() > 0,
        forall|i: int| 0 <= i < parts.len() ==> !(#[trigger] parts[i]).contains(separator),
    ensures
        split_of(join_of(parts, seq![separator]), separator) == parts,
    decreases parts.len(),
{
    if parts.len() == 1 {
        lemma_split_of_one(parts[0], separator);
        assert(seq![parts[0]] =~= parts);
    } else {
        let front = parts.drop_last();
        lemma_split_of_join(front, separator);
        let a = join_of(front, seq![separator]);
        lemma_split_of_add(a, parts.last(), separator);
        lemma_split_of_one(parts.last(), separator);
        assert(a.push(separator) + parts.last() =~= join_of(parts, seq![separator]));
        assert(front + seq![parts.last()] =~= parts);
    }
}

/// Joining the fields of a text gives it back.
pub proof fn lemma_join_of_split(s: Seq<char>, separator: char)
    ensures
        join_of(split_of(s, separator), seq![separator]) == s,
    decreases s.len(),
{
    let end = position(s, 0, separator);
    lemma_position(s, 0, separator);
    if end < s.len() {
        let rest = s.skip(end + 1);
        lemma_join_of_split(rest, separator);
        lemma_split_of_lack(rest, separator, separator);
        lemma_join_of_cons(s.take(end), split_of(rest, separator), seq![separator]);
        assert(s.take(end) + seq![separator] + rest =~= s);
    }
}

/// The first part of `join_of`.
pub proof fn lemma_join_of_cons(first: Seq<char>, others: Seq<Seq<char>>, separator: Seq<char>)
    requires
        others.len() > 0,
    ensures
        join_of(seq![first] + others, separator) == first + separator + join_of(others, separator),
    decreases others.len(),
{
    let parts = seq![first] + others;
    assert(parts.last() == others.last());
    if others.len() == 1 {
        assert(parts.drop_last() =~= seq![first]);
        assert(join_of(parts.drop_last(), separator) == first);
    } else {
        lemma_join_of_cons(first, others.drop_last(), separator);
        assert(parts.drop_last() =~= seq![first] + others.drop_last());
        assert(join_of(parts, separator) =~= first + separator + join_of(others, separator));
    }
}

// ---------------------------------------------------------------------------
// White space
// ---------------------------------------------------------------------------

/// The characters of the Unicode property `White_Space`.
pub open spec fn is_space(c: char) -> bool {
    let u = c as u32;
    ||| 0x9 <= u <= 0xd
    ||| u == 0x20
    ||| u == 0x85
    ||| u == 0xa0
    ||| u == 0x1680
    ||| 0x2000 <= u <= 0x200a
    ||| u == 0x2028
    ||| u == 0x2029
    ||| u == 0x202f
    ||| u == 0x205f
    ||| u == 0x3000
}

/// Whether a character is white space.
pub fn space(c: char) -> (found: bool)
    ensures
        found == is_space(c),
{
    let u: u32 = c as u32;
    (0x9 <= u && u <= 0xd) || u == 0x20 || u == 0x85 || u == 0xa0 || u == 0x1680 || (0x2000 <= u && u
        <= 0x200a) || u == 0x2028 || u == 0x2029 || u == 0x202f || u == 0x205f || u == 0x3000
}

/// The first position at or after `from` where white space is (or, with `false`, is not).
pub open spec fn space_position(s: Seq<char>, from: int, wanted: bool) -> int
    decreases s.len() - from,
{
    if from >= s.len() || is_space(s[from]) == wanted {
        from
    } else {
        space_position(s, from + 1, wanted)
    }
}

/// What `space_position` is.
pub proof fn lemma_space_position(s: Seq<char>, from: int, wanted: bool)
    requires
        0 <= from <= s.len(),
    ensures
        from <= space_position(s, from, wanted) <= s.len(),
        space_position(s, from, wanted) < s.len() ==> is_space(
            s[space_position(s, from, wanted)],
        ) == wanted,
        forall|k: int|
            from <= k < space_position(s, from, wanted) ==> is_space(#[trigger] s[k]) != wanted,
    decreases s.len() - from,
{
    if from < s.len() && is_space(s[from]) != wanted {
        lemma_space_position(s, from + 1, wanted);
    }
}

/// The first position at or after `from` where white space is (or, with `false`, is not).
pub fn find_space(chars: &[char], from: usize, wanted: bool) -> (at: usize)
    requires
        from <= chars@.len(),
    ensures
        at == space_position(chars@, from as int, wanted),
        from <= at <= chars@.len(),
{
    let mut i: usize = from;
    while i < chars.len() && space(chars[i]) != wanted
        invariant
            from <= i <= chars@.len(),
            space_position(chars@, from as int, wanted) == space_position(chars@, i as int, wanted),
        decreases chars@.len() - i,
    {
        i = i + 1;
    }
    i
}

/// The words of a text, from a position on: what white space parts.
pub open spec fn words_from(s: Seq<char>, from: int) -> Seq<Seq<char>>
    decreases s.len() - from,
        when 0 <= from <= s.len()
{
    let start = space_position(s, from, false);
    if start >= s.len() {
        Seq::empty()
    } else {
        let end = space_position(s, start, true);
        proof {
            lemma_space_position(s, from, false);
            lemma_space_position(s, start, true);
        }
        seq![s.subrange(start, end)] + words_from(s, end)
    }
}

/// The words of a text.
pub open spec fn words_of(s: Seq<char>) -> Seq<Seq<char>> {
    words_from(s, 0)
}

/// The words of a text.
pub fn words(text: &str) -> (found: Vec<String>)
    ensures
        found.deep_view() == words_of(text@),
{
    let chars = chars_of(text);
    let mut found: Vec<String> = Vec::new();
    let mut at: usize = 0;
    proof {
        assert(found.deep_view() + words_of(text@) =~= words_of(text@));
    }
    loop
        invariant
            chars@ == text@,
            at <= chars@.len(),
            words_of(text@) == found.deep_view() + words_from(chars@, at as int),
        decreases chars@.len() - at,
    {
        let start = find_space(chars.as_slice(), at, false);
        proof {
            lemma_space_position(chars@, at as int, false);
            lemma_space_position(chars@, start as int, true);
        }
        if start == chars.len() {
            proof {
                assert(words_of(text@) =~= found.deep_view());
            }
            return found;
        }
        let end = find_space(chars.as_slice(), start, true);
        let ghost before = found.deep_view();
        found.push(string_of(chars.as_slice(), start, end));
        proof {
            assert(found.deep_view() =~= before.push(chars@.subrange(start as int, end as int)));
            assert(words_of(text@) =~= found.deep_view() + words_from(chars@, end as int));
        }
        at = end;
    }
}

/// A word: some characters, none of them white space.
pub open spec fn is_word(s: Seq<char>) -> bool {
    s.len() > 0 && forall|i: int| 0 <= i < s.len() ==> !is_space(#[trigger] s[i])
}

/// What `words_from` yields are words.
pub proof fn lemma_words_from(s: Seq<char>, from: int)
    requires
        0 <= from <= s.len(),
    ensures
        forall|i: int| 0 <= i < words_from(s, from).len() ==> is_word(#[trigger] words_from(s, from)[i]),
    decreases s.len() - from,
{
    let start = space_position(s, from, false);
    let end = space_position(s, start, true);
    lemma_space_position(s, from, false);
    if start < s.len() {
        lemma_space_position(s, start, true);
        lemma_words_from(s, end);
        let word = s.subrange(start, end);
        assert(is_word(word)) by {
            assert forall|k: int| 0 <= k < word.len() implies !is_space(#[trigger] word[k]) by {
                assert(word[k] == s[start + k]);
            }
        }
        assert forall|i: int| 0 <= i < words_from(s, from).len() implies is_word(
            #[trigger] words_from(s, from)[i],
        ) by {
            if i > 0 {
                assert(words_from(s, from)[i] == words_from(s, end)[i - 1]);
            }
        }
    }
}

/// The words behind a text are those of what follows it.
proof fn lemma_words_from_behind(before: Seq<char>, s: Seq<char>, from: int)
    requires
        0 <= from <= s.len(),
    ensures
        words_from(before + s, before.len() + from) == words_from(s, from),
    decreases s.len() - from,
{
    let whole = before + s;
    let n = before.len() as int;
    assert forall|at: int, wanted: bool| 0 <= at <= s.len() implies #[trigger] space_position(
        whole,
        n + at,
        wanted,
    ) == n + space_position(s, at, wanted) by {
        lemma_space_position_behind(before, s, at, wanted);
    }
    let start = space_position(s, from, false);
    lemma_space_position(s, from, false);
    if start < s.len() {
        let end = space_position(s, start, true);
        lemma_space_position(s, start, true);
        lemma_words_from_behind(before, s, end);
        assert(whole.subrange(n + start, n + end) =~= s.subrange(start, end));
    }
}

/// White space behind a text is where it is in what follows it.
proof fn lemma_space_position_behind(before: Seq<char>, s: Seq<char>, at: int, wanted: bool)
    requires
        0 <= at <= s.len(),
    ensures
        space_position(before + s, before.len() + at, wanted) == before.len() + space_position(
            s,
            at,
            wanted,
        ),
    decreases s.len() - at,
{
    if at < s.len() {
        assert((before + s)[before.len() + at] == s[at]);
        if is_space(s[at]) != wanted {
            lemma_space_position_behind(before, s, at + 1, wanted);
        }
    }
}

/// The words from a position in the first of two texts with a space between.
proof fn lemma_words_from_add(a: Seq<char>, b: Seq<char>, space: char, from: int)
    requires
        0 <= from <= a.len(),
        is_space(space),
    ensures
        words_from(a.push(space) + b, from) == words_from(a, from) + words_of(b),
    decreases a.len() - from,
{
    let whole = a.push(space) + b;
    let n = a.len() as int;
    assert forall|k: int| 0 <= k < n implies whole[k] == a[k] by {}
    assert(whole[n] == space);
    lemma_space_position(a, from, false);
    let start = space_position(a, from, false);
    if start < n {
        let end = space_position(a, start, true);
        lemma_space_position(a, start, true);
        lemma_space_position_is(whole, from, false, start);
        lemma_space_position_is(whole, start, true, end);
        lemma_words_from_add(a, b, space, end);
        assert(whole.subrange(start, end) =~= a.subrange(start, end));
        assert(words_from(whole, from) =~= seq![a.subrange(start, end)] + (words_from(a, end)
            + words_of(b)));
        assert(words_from(whole, from) =~= words_from(a, from) + words_of(b));
    } else {
        lemma_words_from_behind(a.push(space), b, 0);
        lemma_space_position(b, 0, false);
        lemma_space_position_behind(a.push(space), b, 0, false);
        let next = n + 1 + space_position(b, 0, false);
        lemma_space_position_is(whole, from, false, next);
        assert(words_from(whole, from) == words_from(whole, n + 1)) by {
            assert(space_position(whole, n + 1, false) == next);
        }
        assert(words_from(a, from) =~= Seq::empty());
        assert(words_from(whole, from) =~= words_from(a, from) + words_of(b));
    }
}

/// The first position of white space, or of none, is the only one of its kind.
proof fn lemma_space_position_is(s: Seq<char>, from: int, wanted: bool, at: int)
    requires
        0 <= from <= at <= s.len(),
        at < s.len() ==> is_space(s[at]) == wanted,
        forall|k: int| from <= k < at ==> is_space(#[trigger] s[k]) != wanted,
    ensures
        space_position(s, from, wanted) == at,
    decreases at - from,
{
    if from < at {
        assert(is_space(s[from]) != wanted);
        lemma_space_position_is(s, from + 1, wanted, at);
    }
}

/// The words of two texts with a space between are those of the one and of the other.
pub proof fn lemma_words_of_add(a: Seq<char>, b: Seq<char>)
    ensures
        words_of(a.push(' ') + b) == words_of(a) + words_of(b),
{
    lemma_words_from_add(a, b, ' ', 0);
}

/// A word is its only word.
pub proof fn lemma_words_of_word(word: Seq<char>)
    requires
        is_word(word),
    ensures
        words_of(word) == seq![word],
{
    let n = word.len() as int;
    lemma_space_position_is(word, 0, false, 0);
    lemma_space_position_is(word, 0, true, n);
    assert(word.subrange(0, n) =~= word);
    assert(words_from(word, n) =~= Seq::empty());
    assert(seq![word] + Seq::<Seq<char>>::empty() =~= seq![word]);
}

/// The words of words with one white space character behind each are these.
pub proof fn lemma_words_from_cons(s: Seq<char>, from: int, word: Seq<char>)
    requires
        0 <= from,
        is_word(word),
        from + word.len() < s.len(),
        s.subrange(from, from + word.len()) == word,
        is_space(s[from + word.len()]),
    ensures
        words_from(s, from) == seq![word] + words_from(s, from + word.len() + 1),
{
    let end = from + word.len();
    assert forall|k: int| from <= k < end implies !is_space(#[trigger] s[k]) by {
        assert(s.subrange(from, end)[k - from] == s[k]);
    }
    assert(space_position(s, from, false) == from);
    lemma_space_position(s, from, true);
    assert(space_position(s, from, true) == end);
    assert(space_position(s, end, false) == space_position(s, end + 1, false));
    assert(words_from(s, end) == words_from(s, end + 1));
}

/// The words of a text with one space between each two.
pub open spec fn squeezed(s: Seq<char>) -> Seq<char> {
    join_of(words_of(s), seq![' '])
}

/// The words of a text with one space between each two.
pub fn squeeze(text: &str) -> (s: String)
    ensures
        s@ == squeezed(text@),
{
    proof {
        reveal_strlit(" ");
        assert(" "@ =~= seq![' ']);
    }
    join(&words(text), " ")
}

/// Parts without a character, joined by a separator without it, do not hold it.
pub proof fn lemma_join_of_lacks(parts: Seq<Seq<char>>, separator: Seq<char>, c: char)
    requires
        !separator.contains(c),
        forall|i: int| 0 <= i < parts.len() ==> !(#[trigger] parts[i]).contains(c),
    ensures
        !join_of(parts, separator).contains(c),
    decreases parts.len(),
{
    if parts.len() > 1 {
        lemma_join_of_lacks(parts.drop_last(), separator, c);
        let a = join_of(parts.drop_last(), separator);
        assert(!parts[parts.len() - 1].contains(c));
        let whole = a + separator + parts.last();
        if whole.contains(c) {
            let i = choose|i: int| 0 <= i < whole.len() && whole[i] == c;
            if i < a.len() {
                assert(a[i] == c);
            } else if i < a.len() + separator.len() {
                assert(separator[i - a.len()] == c);
            } else {
                assert(parts.last()[i - a.len() - separator.len()] == c);
            }
        }
    }
}

/// The only white space in a squeezed text is the space.
pub proof fn lemma_squeezed_lacks(s: Seq<char>, c: char)
    requires
        is_space(c),
        c != ' ',
    ensures
        !squeezed(s).contains(c),
{
    lemma_words_from(s, 0);
    assert forall|i: int| 0 <= i < words_of(s).len() implies !(#[trigger] words_of(s)[i]).contains(c) by {
        assert(is_word(words_from(s, 0)[i]));
    }
    lemma_join_of_lacks(words_of(s), seq![' '], c);
}

/// A text without the white space at its start.
pub open spec fn trim_start_of(s: Seq<char>) -> Seq<char> {
    s.skip(space_position(s, 0, false))
}

/// A text without the white space at its end.
pub open spec fn trim_end_of(s: Seq<char>) -> Seq<char>
    decreases s.len(),
{
    if s.len() > 0 && is_space(s.last()) {
        trim_end_of(s.drop_last())
    } else {
        s
    }
}

/// A text without the white space at its start and its end.
pub open spec fn trim_of(s: Seq<char>) -> Seq<char> {
    trim_end_of(trim_start_of(s))
}

/// A text without the white space at its start.
pub fn trim_start(text: &str) -> (s: String)
    ensures
        s@ == trim_start_of(text@),
{
    let chars = chars_of(text);
    let at = find_space(chars.as_slice(), 0, false);
    string_of(chars.as_slice(), at, chars.len())
}

/// A text without the white space at its start and its end.
pub fn trim(text: &str) -> (s: String)
    ensures
        s@ == trim_of(text@),
{
    let chars = chars_of(text);
    let start = find_space(chars.as_slice(), 0, false);
    let mut end: usize = chars.len();
    proof {
        assert(chars@.subrange(start as int, end as int) =~= trim_start_of(text@));
    }
    while start < end && space(chars[end - 1])
        invariant
            start <= end <= chars@.len(),
            trim_of(text@) == trim_end_of(chars@.subrange(start as int, end as int)),
        decreases end,
    {
        proof {
            assert(chars@.subrange(start as int, end as int).drop_last() =~= chars@.subrange(
                start as int,
                end - 1,
            ));
        }
        end = end - 1;
    }
    string_of(chars.as_slice(), start, end)
}

// ---------------------------------------------------------------------------
// Prefixes, suffixes, replacements
// ---------------------------------------------------------------------------

/// What follows `prefix`, where the text begins with it.
pub open spec fn after_prefix(s: Seq<char>, prefix: Seq<char>) -> Option<Seq<char>> {
    if prefix.is_prefix_of(s) {
        Some(s.skip(prefix.len() as int))
    } else {
        None
    }
}

/// An optional string as an optional sequence.
pub open spec fn opt_view(s: Option<String>) -> Option<Seq<char>> {
    match s {
        Some(s) => Some(s@),
        None => None,
    }
}

/// What follows `prefix`, where the text begins with it.
pub fn strip_prefix(text: &str, prefix: &str) -> (rest: Option<String>)
    ensures
        opt_view(rest) == after_prefix(text@, prefix@),
{
    let chars = chars_of(text);
    let wanted = chars_of(prefix);
    if matches_at(chars.as_slice(), 0, wanted.as_slice()) {
        proof {
            assert(chars@.subrange(wanted@.len() as int, chars@.len() as int) =~= text@.skip(
                prefix@.len() as int,
            ));
        }
        Some(string_of(chars.as_slice(), wanted.len(), chars.len()))
    } else {
        None
    }
}

/// What stands before `suffix`, where the text ends with it.
pub open spec fn before_suffix(s: Seq<char>, suffix: Seq<char>) -> Option<Seq<char>> {
    if suffix.is_suffix_of(s) {
        Some(s.take(s.len() - suffix.len()))
    } else {
        None
    }
}

/// What stands before `suffix`, where the text ends with it.
pub fn strip_suffix(text: &str, suffix: &str) -> (rest: Option<String>)
    ensures
        opt_view(rest) == before_suffix(text@, suffix@),
{
    let chars = chars_of(text);
    let wanted = chars_of(suffix);
    if wanted.len() > chars.len() {
        return None;
    }
    let at: usize = chars.len() - wanted.len();
    if matches_at(chars.as_slice(), at, wanted.as_slice()) {
        proof {
            assert(chars@.subrange(0, at as int) =~= text@.take(at as int));
        }
        Some(string_of(chars.as_slice(), 0, at))
    } else {
        None
    }
}

/// A text with each of the characters `from` replaced by `to`.
pub open spec fn replaced(s: Seq<char>, from: Seq<char>, to: char) -> Seq<char> {
    s.map_values(|c: char| if from.contains(c) { to } else { c })
}

/// A text with each of the characters `from` replaced by `to`.
pub fn replace(text: &str, from: &[char], to: char) -> (s: String)
    ensures
        s@ == replaced(text@, from@, to),
{
    let chars = chars_of(text);
    let mut s = String::new();
    let mut i: usize = 0;
    while i < chars.len()
        invariant
            chars@ == text@,
            i <= chars@.len(),
            s@ == replaced(text@.take(i as int), from@, to),
        decreases chars@.len() - i,
    {
        let mut hit = false;
        let mut k: usize = 0;
        while k < from.len()
            invariant
                i < chars@.len(),
                k <= from@.len(),
                hit == exists|j: int| 0 <= j < k && from@[j] == chars@[i as int],
            decreases from@.len() - k,
        {
            if from[k] == chars[i] {
                hit = true;
            }
            k = k + 1;
        }
        s.push(if hit { to } else { chars[i] });
        proof {
            assert(hit == from@.contains(text@[i as int]));
            assert(s@ =~= replaced(text@.take(i + 1), from@, to));
        }
        i = i + 1;
    }
    proof {
        assert(text@.take(i as int) =~= text@);
    }
    s
}

// ---------------------------------------------------------------------------
// Laws
// ---------------------------------------------------------------------------

/// The characters that are white space, one by one.
pub proof fn law_white_space(c: char)
    ensures
        is_space(c) <==> {
            ||| c == '\t' || c == '\n' || c == '\u{b}' || c == '\u{c}' || c == '\r' || c == ' '
            ||| c == '\u{85}' || c == '\u{a0}' || c == '\u{1680}'
            ||| '\u{2000}' <= c <= '\u{200a}'
            ||| c == '\u{2028}' || c == '\u{2029}' || c == '\u{202f}' || c == '\u{205f}'
            ||| c == '\u{3000}'
        },
{
}

/// Where a text has a pattern, it is something, the pattern and something else.
pub proof fn law_patterns_are_found(s: Seq<char>, before: Seq<char>, pattern: Seq<char>, behind: Seq<char>)
    ensures
        occurs(before + pattern + behind, pattern),
        occurs(s, pattern) ==> exists|k: int|
            0 <= k <= s.len() - pattern.len() && s == #[trigger] s.take(k) + pattern + s.skip(
                k + pattern.len(),
            ),
        s.len() < pattern.len() ==> !occurs(s, pattern),
{
    lemma_occurs_between(before, pattern, behind);
    if occurs(s, pattern) {
        let at = choose|at: int| occurs_at(s, at, pattern);
        assert(s =~= s.take(at) + pattern + s.skip(at + pattern.len()));
    }
}

/// A line ends before its line feed, and before a carriage return right before that; what
/// follows the last line feed is a line as it is, where there is anything.
pub proof fn law_lines_end(line: Seq<char>, rest: Seq<char>)
    requires
        !line.contains('\n'),
    ensures
        line.len() == 0 || line.last() != '\r' ==> lines_of(line.push('\n') + rest) == seq![line]
            + lines_of(rest),
        lines_of(line.push('\r').push('\n') + rest) == seq![line] + lines_of(rest),
        line.len() > 0 ==> lines_of(line) == seq![line],
        lines_of(Seq::<char>::empty()) == Seq::<Seq<char>>::empty(),
{
    lemma_lines_of_cons(line, rest);
    let ended = line.push('\r');
    assert(!ended.contains('\n')) by {
        if ended.contains('\n') {
            let k = choose|k: int| 0 <= k < ended.len() && ended[k] == '\n';
            assert(line[k] == '\n');
        }
    }
    lemma_lines_of_cons(ended, rest);
    assert(chomp(ended) =~= line);
    assert forall|k: int| 0 <= k < line.len() implies line[k] != '\n' by {
        assert(line.contains(line[k]));
    }
    lemma_position_is(line, 0, '\n', line.len() as int);
}

/// Fields stand between separators, and joining them gives the text back.
pub proof fn law_fields_are_parted(a: Seq<char>, b: Seq<char>, separator: char)
    ensures
        split_of(a.push(separator) + b, separator) == split_of(a, separator) + split_of(b, separator),
        !a.contains(separator) ==> split_of(a, separator) == seq![a],
        join_of(split_of(a, separator), seq![separator]) == a,
{
    lemma_split_of_add(a, b, separator);
    lemma_join_of_split(a, separator);
    if !a.contains(separator) {
        lemma_split_of_one(a, separator);
    }
}

/// White space, of whatever kind, parts words and is none of them; a text without it is one
/// word, where it is a text at all.
pub proof fn law_words_are_parted(a: Seq<char>, b: Seq<char>, space: char, word: Seq<char>)
    requires
        is_space(space),
        word.len() > 0,
        forall|i: int| 0 <= i < word.len() ==> !is_space(#[trigger] word[i]),
    ensures
        words_of(a.push(space) + b) == words_of(a) + words_of(b),
        words_of(word) == seq![word],
        words_of(Seq::<char>::empty()) == Seq::<Seq<char>>::empty(),
{
    lemma_words_from_add(a, b, space, 0);
    lemma_words_of_word(word);
}

/// White space at the start and the end of a text goes when it is trimmed, and nothing else.
pub proof fn law_trimming(front: Seq<char>, body: Seq<char>, back: Seq<char>)
    requires
        forall|i: int| 0 <= i < front.len() ==> is_space(#[trigger] front[i]),
        forall|i: int| 0 <= i < back.len() ==> is_space(#[trigger] back[i]),
        body.len() > 0 ==> !is_space(body[0]) && !is_space(body.last()),
    ensures
        trim_of(front + body + back) == body,
        body.len() > 0 ==> trim_start_of(front + body + back) == body + back,
{
    let whole = front + body + back;
    let n = front.len() as int;
    if body.len() > 0 {
        assert(whole[n] == body[0]);
        assert forall|k: int| 0 <= k < n implies is_space(#[trigger] whole[k]) by {
            assert(whole[k] == front[k]);
        }
        lemma_space_position_is(whole, 0, false, n);
        assert(whole.skip(n) =~= body + back);
        lemma_trim_end(body, back);
    } else {
        assert forall|k: int| 0 <= k < whole.len() implies is_space(#[trigger] whole[k]) by {
            if k < n {
                assert(whole[k] == front[k]);
            } else {
                assert(whole[k] == back[k - n]);
            }
        }
        lemma_space_position_is(whole, 0, false, whole.len() as int);
        assert(trim_start_of(whole) =~= Seq::empty());
        assert(body =~= Seq::empty());
    }
}

/// What begins with no white space stays as it is at its start.
pub proof fn law_trimming_the_start(front: Seq<char>, body: Seq<char>)
    requires
        forall|i: int| 0 <= i < front.len() ==> is_space(#[trigger] front[i]),
        body.len() > 0 ==> !is_space(body[0]),
    ensures
        trim_start_of(front + body) == body,
{
    let whole = front + body;
    let n = front.len() as int;
    assert forall|k: int| 0 <= k < n implies is_space(#[trigger] whole[k]) by {
        assert(whole[k] == front[k]);
    }
    if body.len() > 0 {
        assert(whole[n] == body[0]);
    }
    lemma_space_position_is(whole, 0, false, n);
    assert(whole.skip(n) =~= body);
}

/// White space at the end goes.
proof fn lemma_trim_end(body: Seq<char>, back: Seq<char>)
    requires
        body.len() > 0,
        !is_space(body.last()),
        forall|i: int| 0 <= i < back.len() ==> is_space(#[trigger] back[i]),
    ensures
        trim_end_of(body + back) == body,
    decreases back.len(),
{
    let whole = body + back;
    if back.len() > 0 {
        assert(whole.last() == back[back.len() - 1]);
        assert(whole.drop_last() =~= body + back.drop_last());
        assert forall|i: int| 0 <= i < back.drop_last().len() implies is_space(
            #[trigger] back.drop_last()[i],
        ) by {
            assert(back.drop_last()[i] == back[i]);
        }
        lemma_trim_end(body, back.drop_last());
    } else {
        assert(whole =~= body);
    }
}

/// What stands behind a prefix, and before a suffix, is all the rest.
pub proof fn law_prefixes_and_suffixes(s: Seq<char>, part: Seq<char>)
    ensures
        after_prefix(part + s, part) == Some(s),
        before_suffix(s + part, part) == Some(s),
        after_prefix(s, part) is Some <==> part.len() <= s.len() && s.take(part.len() as int)
            == part,
        before_suffix(s, part) is Some <==> part.len() <= s.len() && s.skip(s.len() - part.len())
            == part,
{
    assert((part + s).take(part.len() as int) =~= part);
    assert((part + s).skip(part.len() as int) =~= s);
    assert((s + part).skip(s.len() as int) =~= part);
    assert((s + part).take(s.len() as int) =~= s);
    assert((part + s).subrange(0, part.len() as int) =~= part);
    assert((s + part).subrange(s.len() as int, (s + part).len() as int) =~= part);
    if part.len() <= s.len() {
        assert(s.subrange(0, part.len() as int) =~= s.take(part.len() as int));
        assert(s.subrange(s.len() - part.len(), s.len() as int) =~= s.skip(s.len() - part.len()));
    }
}

/// Where characters are replaced, the others stay, each in its place.
pub proof fn law_replacing(s: Seq<char>, from: Seq<char>, to: char, i: int)
    requires
        0 <= i < s.len(),
    ensures
        replaced(s, from, to).len() == s.len(),
        from.contains(s[i]) ==> replaced(s, from, to)[i] == to,
        !from.contains(s[i]) ==> replaced(s, from, to)[i] == s[i],
{
}

/// Texts are joined in their order, with the separator between each two of them.
pub proof fn law_joining(parts: Seq<Seq<char>>, part: Seq<char>, separator: Seq<char>)
    ensures
        join_of(Seq::empty(), separator) == Seq::<char>::empty(),
        join_of(seq![part], separator) == part,
        parts.len() > 0 ==> join_of(parts.push(part), separator) == join_of(parts, separator)
            + separator + part,
{
    assert(parts.push(part).drop_last() =~= parts);
    assert(seq![part].drop_last() =~= Seq::empty());
}

/// Lines are written each with a line feed behind it, in their order.
pub proof fn law_writing_lines(lines: Seq<Seq<char>>, line: Seq<char>)
    ensures
        unlines(Seq::empty()) == Seq::<char>::empty(),
        unlines(lines.push(line)) == unlines(lines) + line + seq!['\n'],
{
    assert(lines.push(line).drop_last() =~= lines);
    assert(unlines(lines.push(line)) =~= unlines(lines) + line + seq!['\n']);
}

/// Squeezing a text leaves its words, with one space between each two.
pub proof fn law_squeezing(s: Seq<char>)
    ensures
        squeezed(s) == join_of(words_of(s), seq![' ']),
{
}

/// The first place of a character is where it stands and did not before; it is the end of the text
/// where it does not stand at all.
pub proof fn law_first_place(before: Seq<char>, behind: Seq<char>, c: char)
    requires
        !before.contains(c),
    ensures
        position(before.push(c) + behind, 0, c) == before.len(),
        position(before, 0, c) == before.len(),
{
    let whole = before.push(c) + behind;
    assert forall|k: int| 0 <= k < before.len() implies before[k] != c && whole[k] != c by {
        assert(before.contains(before[k]));
    }
    lemma_position_is(whole, 0, c, before.len() as int);
    lemma_position_is(before, 0, c, before.len() as int);
}

} // verus!
