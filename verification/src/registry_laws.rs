//! What holds of the registered credentials, whatever is stored and removed.

use vstd::prelude::*;

use crate::number::decimal_of;
use crate::registry::{
    colons, credentials_in, handle_of, handles_of, head_of, heads_of, is_name, keys_without,
    line_position, line_without, name_from, name_line, name_of, name_on, names_of, names_without,
    nonblank, owned, owner_prefix, registered, registration_of, removed_keys, removed_names,
    stored_keys, stored_names, with_credential, without, StoreError,
};
use crate::text::{
    are_lines, chomp, chomped, is_line, is_unix, join_of, law_writing_lines, lemma_join_of_cons,
    lemma_join_of_lacks, lemma_join_of_split, lemma_lines_of_cons, lemma_lines_of_unbroken,
    lemma_lines_of_unlines, lemma_position, lemma_position_is, lemma_split_of_add,
    lemma_split_of_chomp, lemma_split_of_cons, lemma_split_of_join, lemma_split_of_lack,
    lemma_split_of_one, lemma_unlines_of_lines, lemma_written_lines, lines_of, position, split_of,
    unbroken, unlines,
};

verus! {

// ---------------------------------------------------------------------------
// The first line with a prefix
// ---------------------------------------------------------------------------

/// The first of the lines with a prefix.
pub open spec fn found_line(lines: Seq<Seq<char>>, prefix: Seq<char>) -> Option<Seq<char>>
    decreases lines.len(),
{
    if lines.len() == 0 {
        None
    } else {
        match found_line(lines.drop_last(), prefix) {
            Some(line) => Some(line),
            None => if prefix.is_prefix_of(lines.last()) {
                Some(lines.last())
            } else {
                None
            },
        }
    }
}

/// What the position of the first line with a prefix is.
proof fn lemma_line_position(lines: Seq<Seq<char>>, from: int, prefix: Seq<char>)
    requires
        0 <= from <= lines.len(),
    ensures
        from <= line_position(lines, from, prefix) <= lines.len(),
        line_position(lines, from, prefix) < lines.len() ==> prefix.is_prefix_of(
            lines[line_position(lines, from, prefix)],
        ),
        forall|k: int|
            from <= k < line_position(lines, from, prefix) ==> !prefix.is_prefix_of(
                #[trigger] lines[k],
            ),
    decreases lines.len() - from,
{
    if from < lines.len() && !prefix.is_prefix_of(lines[from]) {
        lemma_line_position(lines, from + 1, prefix);
    }
}

/// The position of the first line with a prefix is the only one of its kind.
proof fn lemma_line_position_is(lines: Seq<Seq<char>>, prefix: Seq<char>, at: int)
    requires
        0 <= at <= lines.len(),
        at < lines.len() ==> prefix.is_prefix_of(lines[at]),
        forall|k: int| 0 <= k < at ==> !prefix.is_prefix_of(#[trigger] lines[k]),
    ensures
        line_position(lines, 0, prefix) == at,
{
    lemma_line_position(lines, 0, prefix);
    let found = line_position(lines, 0, prefix);
    if found < at {
        assert(!prefix.is_prefix_of(lines[found]));
    }
    if at < found {
        assert(!prefix.is_prefix_of(lines[at]));
    }
}

/// The first line with a prefix stands at the first position of one.
proof fn lemma_found_line(lines: Seq<Seq<char>>, prefix: Seq<char>)
    ensures
        0 <= line_position(lines, 0, prefix) <= lines.len(),
        found_line(lines, prefix) == (if line_position(lines, 0, prefix) < lines.len() {
            Some(lines[line_position(lines, 0, prefix)])
        } else {
            None
        }),
    decreases lines.len(),
{
    lemma_line_position(lines, 0, prefix);
    if lines.len() > 0 {
        let init = lines.drop_last();
        lemma_found_line(init, prefix);
        lemma_line_position(init, 0, prefix);
        let at = line_position(init, 0, prefix);
        assert forall|k: int| 0 <= k < at implies !prefix.is_prefix_of(#[trigger] lines[k]) by {
            assert(lines[k] == init[k]);
        }
        if at < init.len() {
            assert(lines[at] == init[at]);
            lemma_line_position_is(lines, prefix, at);
        } else if prefix.is_prefix_of(lines.last()) {
            lemma_line_position_is(lines, prefix, lines.len() - 1);
        } else {
            lemma_line_position_is(lines, prefix, lines.len() as int);
        }
    }
}

/// Empty lines hide no other.
proof fn lemma_found_nonblank(lines: Seq<Seq<char>>, prefix: Seq<char>)
    requires
        prefix.len() > 0,
    ensures
        found_line(nonblank(lines), prefix) == found_line(lines, prefix),
    decreases lines.len(),
{
    if lines.len() > 0 {
        lemma_found_nonblank(lines.drop_last(), prefix);
        if lines.last().len() > 0 {
            let kept = nonblank(lines.drop_last());
            assert(kept.push(lines.last()).drop_last() =~= kept);
        }
    }
}

/// The lines that are not empty are lines, and not empty.
proof fn lemma_nonblank(lines: Seq<Seq<char>>)
    ensures
        forall|i: int|
            0 <= i < nonblank(lines).len() ==> (#[trigger] nonblank(lines)[i]).len() > 0
                && lines.contains(nonblank(lines)[i]),
        are_lines(lines) ==> are_lines(nonblank(lines)),
    decreases lines.len(),
{
    if lines.len() > 0 {
        let init = lines.drop_last();
        lemma_nonblank(init);
        assert forall|i: int| 0 <= i < nonblank(lines).len() implies (#[trigger] nonblank(
            lines,
        )[i]).len() > 0 && lines.contains(nonblank(lines)[i]) by {
            if i < nonblank(init).len() {
                assert(init.contains(nonblank(init)[i]));
                let k = choose|k: int| 0 <= k < init.len() && init[k] == nonblank(init)[i];
                assert(lines[k] == nonblank(lines)[i]);
            } else {
                assert(lines[lines.len() - 1] == nonblank(lines)[i]);
            }
        }
        if are_lines(lines) {
            assert forall|i: int| 0 <= i < nonblank(lines).len() implies is_line(
                #[trigger] nonblank(lines)[i],
            ) by {
                assert(lines.contains(nonblank(lines)[i]));
            }
        }
    }
}

/// Nothing is dropped where no line is empty.
proof fn lemma_nonblank_all(lines: Seq<Seq<char>>)
    requires
        forall|i: int| 0 <= i < lines.len() ==> (#[trigger] lines[i]).len() > 0,
    ensures
        nonblank(lines) == lines,
    decreases lines.len(),
{
    if lines.len() > 0 {
        assert forall|i: int| 0 <= i < lines.drop_last().len() implies (
            #[trigger] lines.drop_last()[i]).len() > 0 by {
            assert(lines.drop_last()[i] == lines[i]);
        }
        lemma_nonblank_all(lines.drop_last());
        assert(lines.drop_last().push(lines.last()) =~= lines);
    }
}

/// The credentials of a user, by the first line that is the user's.
proof fn lemma_credentials_in(lines: Seq<Seq<char>>, user: Seq<char>)
    ensures
        credentials_in(lines, user) == match found_line(lines, owner_prefix(user)) {
            Some(line) => line.skip(owner_prefix(user).len() as int),
            None => Seq::empty(),
        },
        credentials_in(nonblank(lines), user) == credentials_in(lines, user),
{
    lemma_found_line(lines, owner_prefix(user));
    lemma_found_line(nonblank(lines), owner_prefix(user));
    lemma_found_nonblank(lines, owner_prefix(user));
}

// ---------------------------------------------------------------------------
// Whose a line is
// ---------------------------------------------------------------------------

/// A line is one user's.
proof fn lemma_one_owner(line: Seq<char>, user: Seq<char>, other: Seq<char>)
    requires
        owned(line, user),
        owned(line, other),
        !user.contains(':'),
        !other.contains(':'),
    ensures
        user == other,
{
    let p = owner_prefix(user);
    let q = owner_prefix(other);
    assert(line.take(p.len() as int) =~= p);
    assert(line.take(q.len() as int) =~= q);
    assert forall|k: int| 0 <= k < p.len() implies p[k] == line[k] by {
        assert(line.take(p.len() as int)[k] == line[k]);
    }
    assert forall|k: int| 0 <= k < q.len() implies q[k] == line[k] by {
        assert(line.take(q.len() as int)[k] == line[k]);
    }
    if user.len() < other.len() {
        assert(p[user.len() as int] == ':');
        assert(q[user.len() as int] == other[user.len() as int]);
        assert(other.contains(other[user.len() as int]));
    } else if other.len() < user.len() {
        assert(q[other.len() as int] == ':');
        assert(p[other.len() as int] == user[other.len() as int]);
        assert(user.contains(user[other.len() as int]));
    }
    assert forall|k: int| 0 <= k < user.len() implies user[k] == other[k] by {
        assert(p[k] == user[k] && q[k] == other[k]);
    }
    assert(user =~= other);
}

/// The user's name, a colon and the credentials make a user's line, and its fields.
proof fn lemma_owned_line(line: Seq<char>, user: Seq<char>)
    requires
        owned(line, user),
    ensures
        line == user.push(':') + line.skip(owner_prefix(user).len() as int),
        split_of(line, ':') == split_of(user, ':') + split_of(
            line.skip(owner_prefix(user).len() as int),
            ':',
        ),
        split_of(user, ':').len() > 0,
        split_of(line.skip(owner_prefix(user).len() as int), ':').len() > 0,
{
    let rest = line.skip(owner_prefix(user).len() as int);
    assert(line =~= user.push(':') + rest);
    lemma_split_of_add(user, rest, ':');
    lemma_split_of_lack(user, ':', ':');
    lemma_split_of_lack(rest, ':', ':');
}

/// What begins with a user's name and a colon is the user's.
proof fn lemma_owns(user: Seq<char>, rest: Seq<char>)
    ensures
        owned(user.push(':') + rest, user),
        (user.push(':') + rest).skip(owner_prefix(user).len() as int) == rest,
{
    let line = user.push(':') + rest;
    assert(line.take(owner_prefix(user).len() as int) =~= owner_prefix(user));
    assert(line.skip(owner_prefix(user).len() as int) =~= rest);
}

/// More at its end does not change whose a line is.
proof fn lemma_owned_longer(line: Seq<char>, more: Seq<char>, user: Seq<char>)
    requires
        owned(line, user),
    ensures
        owned(line + more, user),
        (line + more).skip(owner_prefix(user).len() as int) == line.skip(
            owner_prefix(user).len() as int,
        ) + more,
{
    let n = owner_prefix(user).len() as int;
    assert((line + more).take(n) =~= line.take(n));
    assert((line + more).skip(n) =~= line.skip(n) + more);
}

/// A carriage return at its end does not change whose a line is.
proof fn lemma_owned_chomped(line: Seq<char>, user: Seq<char>)
    ensures
        owned(chomp(line), user) == owned(line, user),
        owned(line, user) ==> chomp(line).skip(owner_prefix(user).len() as int) == chomp(
            line.skip(owner_prefix(user).len() as int),
        ),
{
    let prefix = owner_prefix(user);
    let n = prefix.len() as int;
    assert(prefix.last() == ':');
    if owned(line, user) {
        assert(line.take(n) =~= prefix);
        assert(line.take(n)[n - 1] == line[n - 1]);
        assert(chomp(line).take(n) =~= prefix);
        assert(chomp(line).skip(n) =~= chomp(line.skip(n)));
    }
    if owned(chomp(line), user) {
        assert(chomp(line).take(n) =~= prefix);
        assert(line.take(n) =~= prefix);
    }
}

// ---------------------------------------------------------------------------
// What is written and read back
// ---------------------------------------------------------------------------

/// Credentials that are read back with the handles that they were written with: a carriage
/// return at their end belongs to no handle.
pub open spec fn keeps_handles(credentials: Seq<char>) -> bool {
    heads_of(split_of(chomp(credentials), ':')) == heads_of(split_of(credentials, ':'))
}

/// The credentials of a user on lines without the carriage returns at their ends.
proof fn lemma_credentials_chomped(lines: Seq<Seq<char>>, user: Seq<char>)
    ensures
        credentials_in(chomped(lines), user) == chomp(credentials_in(lines, user)),
{
    let prefix = owner_prefix(user);
    let at = line_position(lines, 0, prefix);
    lemma_line_position(lines, 0, prefix);
    assert forall|k: int| 0 <= k < at implies !prefix.is_prefix_of(#[trigger] chomped(lines)[k]) by {
        lemma_owned_chomped(lines[k], user);
        assert(!prefix.is_prefix_of(lines[k]));
    }
    if at < lines.len() {
        lemma_owned_chomped(lines[at], user);
    }
    lemma_line_position_is(chomped(lines), prefix, at);
}

/// Lines written as a file, but for the empty ones, and read back.
proof fn lemma_written(lines: Seq<Seq<char>>)
    requires
        unbroken(lines),
    ensures
        lines_of(unlines(nonblank(lines))) == chomped(nonblank(lines)),
{
    let kept = nonblank(lines);
    lemma_nonblank(lines);
    assert forall|i: int| 0 <= i < kept.len() implies !(#[trigger] kept[i]).contains('\n') by {
        assert(lines.contains(kept[i]));
    }
    lemma_written_lines(kept);
}

/// The handles in lines that are written as a file.
proof fn lemma_written_handles(lines: Seq<Seq<char>>, user: Seq<char>)
    requires
        unbroken(lines),
    ensures
        handles_of(unlines(nonblank(lines)), user) == heads_of(
            split_of(chomp(credentials_in(lines, user)), ':'),
        ),
{
    lemma_written(lines);
    lemma_credentials_chomped(nonblank(lines), user);
    lemma_credentials_in(lines, user);
}

/// Lines that are written as a file are read back, but for the empty ones.
pub proof fn law_written_lines_are_read_back(lines: Seq<Seq<char>>)
    requires
        are_lines(lines),
    ensures
        lines_of(unlines(nonblank(lines))) == nonblank(lines),
{
    lemma_nonblank(lines);
    lemma_lines_of_unlines(nonblank(lines));
}

// ---------------------------------------------------------------------------
// Storing
// ---------------------------------------------------------------------------

/// A credential that can be registered for a user: it has a handle, which a carriage return
/// at its end is no part of, and with the user's name and a colon before it, it makes a line.
pub open spec fn can_store(user: Seq<char>, credential: Seq<char>) -> bool {
    &&& !user.contains('\n')
    &&& !credential.contains('\n')
    &&& !credential.contains(':')
    &&& head_of(credential).len() > 0
    &&& head_of(chomp(credential)) == head_of(credential)
}

/// What a user's credential is put behind: the first line that is the user's, or else the
/// user's name.
pub open spec fn stem(lines: Seq<Seq<char>>, user: Seq<char>) -> Seq<char> {
    let at = line_position(lines, 0, owner_prefix(user));
    if 0 <= at < lines.len() {
        lines[at]
    } else {
        user
    }
}

/// Where a character is not in either part, it is not in the whole.
proof fn lemma_lacks(a: Seq<char>, b: Seq<char>, c: char)
    requires
        !a.contains(c),
        !b.contains(c),
    ensures
        !(a + b).contains(c),
{
    if (a + b).contains(c) {
        let k = choose|k: int| 0 <= k < (a + b).len() && (a + b)[k] == c;
        if k < a.len() {
            assert(a[k] == c);
        } else {
            assert(b[k - a.len()] == c);
        }
    }
}

/// A credential has a character; without a carriage return at its end it lacks what it
/// lacked.
proof fn lemma_credential(credential: Seq<char>)
    requires
        head_of(credential).len() > 0,
    ensures
        credential.len() > 0,
        forall|c: char| !credential.contains(c) ==> !chomp(credential).contains(c),
        forall|before: Seq<char>|
            chomp(before + credential) == #[trigger] (before + chomp(credential)),
{
    lemma_position(credential, 0, ',');
    let short = chomp(credential);
    assert forall|c: char| !credential.contains(c) implies !short.contains(c) by {
        if short.contains(c) {
            let k = choose|k: int| 0 <= k < short.len() && short[k] == c;
            assert(credential[k] == c);
        }
    }
    assert forall|before: Seq<char>| true implies chomp(before + credential) == #[trigger] (before
        + chomp(credential)) by {
        assert((before + credential).last() == credential.last());
        assert(chomp(before + credential) =~= before + chomp(credential));
    }
}

/// The lines with one more credential: all are as they were, but for one.
proof fn lemma_stored_line(lines: Seq<Seq<char>>, user: Seq<char>, credential: Seq<char>)
    ensures
        ({
            let at = line_position(lines, 0, owner_prefix(user));
            let after = with_credential(lines, user, seq![':'] + credential);
            &&& 0 <= at < after.len()
            &&& lines.len() <= after.len() <= lines.len() + 1
            &&& at <= lines.len()
            &&& after.len() > lines.len() ==> at == lines.len()
            &&& after[at] == stem(lines, user).push(':') + credential
            &&& owned(after[at], user)
            &&& forall|k: int| 0 <= k < after.len() && k != at ==> #[trigger] after[k] == lines[k]
            &&& at < lines.len() ==> owned(lines[at], user)
        }),
{
    let at = line_position(lines, 0, owner_prefix(user));
    let added = seq![':'] + credential;
    let after = with_credential(lines, user, added);
    lemma_line_position(lines, 0, owner_prefix(user));
    let first = stem(lines, user);
    assert(first + added =~= first.push(':') + credential);
    if at < lines.len() {
        lemma_owned_longer(first, added, user);
    } else {
        lemma_owns(user, credential);
    }
}

/// The lines with one more credential have no line feed.
proof fn lemma_stored_unbroken(lines: Seq<Seq<char>>, user: Seq<char>, credential: Seq<char>)
    requires
        unbroken(lines),
        !user.contains('\n'),
        !credential.contains('\n'),
    ensures
        unbroken(with_credential(lines, user, seq![':'] + credential)),
{
    let at = line_position(lines, 0, owner_prefix(user));
    let after = with_credential(lines, user, seq![':'] + credential);
    lemma_stored_line(lines, user, credential);
    assert forall|i: int| 0 <= i < after.len() implies !(#[trigger] after[i]).contains('\n') by {
        if i == at {
            let first = stem(lines, user);
            assert(!first.contains('\n'));
            assert(!seq![':'].contains('\n'));
            lemma_lacks(first, seq![':'], '\n');
            assert(first + seq![':'] =~= first.push(':'));
            lemma_lacks(first.push(':'), credential, '\n');
        } else {
            assert(after[i] == lines[i]);
        }
    }
}

/// The handles after one more credential was stored.
proof fn lemma_stored_handles(
    keys: Seq<char>,
    user: Seq<char>,
    credential: Seq<char>,
    other: Seq<char>,
)
    requires
        can_store(user, credential),
    ensures
        handles_of(stored_keys(keys, user, seq![':'] + credential), other) == heads_of(
            split_of(
                chomp(
                    credentials_in(
                        with_credential(nonblank(lines_of(keys)), user, seq![':'] + credential),
                        other,
                    ),
                ),
                ':',
            ),
        ),
{
    let before = nonblank(lines_of(keys));
    lemma_lines_of_unbroken(keys);
    lemma_nonblank(lines_of(keys));
    assert forall|i: int| 0 <= i < before.len() implies !(#[trigger] before[i]).contains('\n') by {
        assert(lines_of(keys).contains(before[i]));
    }
    lemma_stored_unbroken(before, user, credential);
    lemma_written_handles(with_credential(before, user, seq![':'] + credential), other);
}

/// The handles of one credential.
proof fn lemma_heads_of_one(credential: Seq<char>)
    ensures
        heads_of(seq![credential]) == (if head_of(credential).len() == 0 {
            Seq::empty()
        } else {
            seq![head_of(credential)]
        }),
        credential.len() == 0 ==> head_of(credential).len() == 0,
{
    reveal_with_fuel(heads_of, 2);
    assert(seq![credential].drop_last() =~= Seq::empty());
    assert(Seq::<Seq<char>>::empty().push(head_of(credential)) =~= seq![head_of(credential)]);
    lemma_position(credential, 0, ',');
}

/// Where there are no credentials there are no handles.
proof fn lemma_no_heads()
    ensures
        heads_of(split_of(Seq::<char>::empty(), ':')) == Seq::<Seq<char>>::empty(),
        chomp(Seq::<char>::empty()) == Seq::<char>::empty(),
{
    lemma_split_of_one(Seq::<char>::empty(), ':');
    lemma_heads_of_one(Seq::<char>::empty());
}

/// The handles with one more credential behind the others.
proof fn lemma_heads_behind(rest: Seq<char>, credential: Seq<char>)
    requires
        !credential.contains(':'),
        head_of(credential).len() > 0,
    ensures
        heads_of(split_of(rest.push(':') + credential, ':')) == heads_of(split_of(rest, ':')).push(
            head_of(credential),
        ),
        heads_of(split_of(credential, ':')) == seq![head_of(credential)],
{
    lemma_split_of_add(rest, credential, ':');
    lemma_split_of_one(credential, ':');
    let fields = split_of(rest, ':');
    assert(fields + seq![credential] =~= fields.push(credential));
    assert(fields.push(credential).drop_last() =~= fields);
    lemma_heads_of_one(credential);
}

/// What a credential that is registered begins with is no part of its handle.
proof fn lemma_handle_of(credential: Seq<char>)
    requires
        !credential.contains(':'),
        head_of(credential).len() > 0,
    ensures
        handle_of(seq![':'] + credential) == head_of(credential),
{
    let added = seq![':'] + credential;
    lemma_credential(credential);
    assert(credential.contains(credential[0]));
    assert(added[0] == ':' && added[1] == credential[0]);
    assert(colons(added, 1) == 1);
    assert(colons(added, 0) == 1);
    assert(added.skip(1) =~= credential);
}

/// A credential that is stored is the last that its user has, and the others stay.
pub proof fn law_stored_credential_is_listed(keys: Seq<char>, user: Seq<char>, credential: Seq<char>)
    requires
        can_store(user, credential),
    ensures
        handle_of(seq![':'] + credential) == head_of(credential),
        handles_of(stored_keys(keys, user, seq![':'] + credential), user) == handles_of(
            keys,
            user,
        ).push(head_of(credential)),
{
    let before = nonblank(lines_of(keys));
    let after = with_credential(before, user, seq![':'] + credential);
    let prefix = owner_prefix(user);
    let at = line_position(before, 0, prefix);
    let rest = credentials_in(before, user);
    let short = chomp(credential);
    lemma_handle_of(credential);
    lemma_credential(credential);
    lemma_stored_handles(keys, user, credential, user);
    lemma_credentials_in(lines_of(keys), user);
    lemma_line_position(before, 0, prefix);
    lemma_stored_line(before, user, credential);
    assert forall|k: int| 0 <= k < at implies !prefix.is_prefix_of(#[trigger] after[k]) by {
        assert(after[k] == before[k]);
    }
    lemma_line_position_is(after, prefix, at);
    lemma_heads_behind(rest, short);
    if at < before.len() {
        lemma_owned_longer(before[at], seq![':'] + credential, user);
        assert(before[at] + (seq![':'] + credential) =~= before[at].push(':') + credential);
        assert(credentials_in(after, user) =~= rest.push(':') + credential);
        assert(chomp(rest.push(':') + credential) == rest.push(':') + short);
    } else {
        lemma_owns(user, credential);
        assert(credentials_in(after, user) == credential);
        lemma_no_heads();
        assert(Seq::<Seq<char>>::empty().push(head_of(short)) =~= seq![head_of(short)]);
    }
}

/// A credential that is stored for one user is on the first line of another as well. Names
/// without colons never come to that.
pub open spec fn shares_line(lines: Seq<Seq<char>>, user: Seq<char>, other: Seq<char>) -> bool {
    &&& owner_prefix(other).is_prefix_of(stem(lines, user).push(':'))
    &&& line_position(lines, 0, owner_prefix(user)) <= line_position(lines, 0, owner_prefix(other))
}

/// Users whose names have no colon share no line.
proof fn lemma_shares_no_line(lines: Seq<Seq<char>>, user: Seq<char>, other: Seq<char>)
    requires
        !user.contains(':'),
        !other.contains(':'),
        other != user,
    ensures
        !shares_line(lines, user, other),
{
    let line = stem(lines, user).push(':');
    lemma_line_position(lines, 0, owner_prefix(user));
    if line_position(lines, 0, owner_prefix(user)) < lines.len() {
        lemma_owned_longer(stem(lines, user), seq![':'], user);
        assert(stem(lines, user) + seq![':'] =~= line);
    } else {
        lemma_owns(user, Seq::empty());
        assert(user.push(':') + Seq::<char>::empty() =~= line);
    }
    if owned(line, other) {
        lemma_one_owner(line, user, other);
    }
}

/// Whose a line is, a credential at its end does not decide.
proof fn lemma_owned_before(first: Seq<char>, credential: Seq<char>, other: Seq<char>)
    requires
        !credential.contains(':'),
    ensures
        owned(first.push(':') + credential, other) == owned(first.push(':'), other),
{
    let line = first.push(':') + credential;
    let prefix = owner_prefix(other);
    let n = prefix.len() as int;
    if n <= first.len() + 1 {
        assert(line.take(n) =~= first.push(':').take(n));
    } else if owned(line, other) {
        assert(line.take(n) =~= prefix);
        assert(line.take(n)[n - 1] == ':');
        assert(credential[n - 2 - first.len()] == ':');
        assert(credential.contains(':'));
    }
}

/// What is stored for one user changes nothing that another has; where the credential does not
/// come to stand on the other's line, which names with colons can make it do, and where no
/// handle of the other's ends, at the end of a line, with a carriage return of its own.
pub proof fn law_storing_leaves_other_users(
    keys: Seq<char>,
    user: Seq<char>,
    credential: Seq<char>,
    other: Seq<char>,
)
    requires
        can_store(user, credential),
    ensures
        !shares_line(nonblank(lines_of(keys)), user, other) && keeps_handles(
            credentials_in(lines_of(keys), other),
        ) ==> handles_of(stored_keys(keys, user, seq![':'] + credential), other) == handles_of(
            keys,
            other,
        ),
        shares_line(nonblank(lines_of(keys)), user, other) ==> handles_of(
            stored_keys(keys, user, seq![':'] + credential),
            other,
        ) == heads_of(
            split_of(
                (stem(nonblank(lines_of(keys)), user).push(':') + credential).skip(
                    owner_prefix(other).len() as int,
                ),
                ':',
            ),
        ),
        !user.contains(':') && !other.contains(':') && other != user ==> !shares_line(
            nonblank(lines_of(keys)),
            user,
            other,
        ),
{
    let before = nonblank(lines_of(keys));
    let after = with_credential(before, user, seq![':'] + credential);
    let prefix = owner_prefix(other);
    let at = line_position(before, 0, owner_prefix(user));
    let theirs = line_position(before, 0, prefix);
    let first = stem(before, user);
    lemma_stored_handles(keys, user, credential, other);
    lemma_credentials_in(lines_of(keys), other);
    lemma_line_position(before, 0, owner_prefix(user));
    lemma_line_position(before, 0, prefix);
    lemma_stored_line(before, user, credential);
    lemma_owned_before(first, credential, other);
    if !user.contains(':') && !other.contains(':') && other != user {
        lemma_shares_no_line(before, user, other);
    }
    if shares_line(before, user, other) {
        assert forall|k: int| 0 <= k < at implies !prefix.is_prefix_of(#[trigger] after[k]) by {
            assert(after[k] == before[k]);
        }
        lemma_line_position_is(after, prefix, at);
        let n = prefix.len() as int;
        let rest = first.push(':').skip(n);
        let short = chomp(credential);
        assert(after[at].skip(n) =~= rest + credential);
        lemma_credential(credential);
        assert(chomp(rest + credential) == rest + short);
        if rest.len() == 0 {
            assert(rest + credential =~= credential);
            assert(rest + short =~= short);
            lemma_heads_behind(rest, credential);
            lemma_heads_behind(rest, short);
        } else {
            assert(rest.drop_last().push(':') =~= rest);
            lemma_heads_behind(rest.drop_last(), credential);
            lemma_heads_behind(rest.drop_last(), short);
        }
    } else {
        assert forall|k: int| 0 <= k < theirs implies !prefix.is_prefix_of(#[trigger] after[k]) by {
            if k != at {
                assert(after[k] == before[k]);
            }
        }
        if theirs < before.len() {
            if theirs == at {
                lemma_owned_longer(first, seq![':'], other);
                assert(first + seq![':'] =~= first.push(':'));
            }
            assert(after[theirs] == before[theirs]);
            lemma_line_position_is(after, prefix, theirs);
        } else {
            assert(at < after.len() && !owned(after[at], other));
            lemma_line_position_is(after, prefix, after.len() as int);
        }
    }
}

/// A user who has a handle is registered.
pub proof fn law_handles_mean_registered(keys: Seq<char>, user: Seq<char>)
    requires
        handles_of(keys, user).len() > 0,
    ensures
        registered(lines_of(keys), user),
{
    let lines = lines_of(keys);
    let rest = credentials_in(lines, user);
    lemma_line_position(lines, 0, owner_prefix(user));
    if rest.len() == 0 {
        assert(rest =~= Seq::empty());
        lemma_no_heads();
    }
    let at = line_position(lines, 0, owner_prefix(user));
    assert(owned(lines[at], user));
}

/// A user for whom a credential was stored is registered.
pub proof fn law_stored_user_is_registered(keys: Seq<char>, user: Seq<char>, credential: Seq<char>)
    requires
        can_store(user, credential),
    ensures
        registered(lines_of(stored_keys(keys, user, seq![':'] + credential)), user),
{
    law_stored_credential_is_listed(keys, user, credential);
    law_handles_mean_registered(stored_keys(keys, user, seq![':'] + credential), user);
}

// ---------------------------------------------------------------------------
// Removing
// ---------------------------------------------------------------------------

/// The handles other than one.
pub open spec fn other_handles(handles: Seq<Seq<char>>, handle: Seq<char>) -> Seq<Seq<char>> {
    handles.filter(|other: Seq<char>| other != handle)
}

/// The handles other than one, handle by handle.
proof fn lemma_other_handles(handles: Seq<Seq<char>>, handle: Seq<char>)
    ensures
        !other_handles(handles, handle).contains(handle),
        handles.len() == 0 ==> other_handles(handles, handle) == handles,
        handles.len() > 0 ==> other_handles(handles, handle) == (if handles.last() == handle {
            other_handles(handles.drop_last(), handle)
        } else {
            other_handles(handles.drop_last(), handle).push(handles.last())
        }),
        !handles.contains(handle) ==> other_handles(handles, handle) == handles,
    decreases handles.len(),
{
    reveal(Seq::filter);
    if handles.len() > 0 {
        let init = handles.drop_last();
        lemma_other_handles(init, handle);
        let now = other_handles(handles, handle);
        let before = other_handles(init, handle);
        if now.contains(handle) {
            let k = choose|k: int| 0 <= k < now.len() && now[k] == handle;
            if k < before.len() {
                assert(before[k] == handle);
            }
        }
        if !handles.contains(handle) {
            assert(handles[handles.len() - 1] != handle);
            if init.contains(handle) {
                let k = choose|k: int| 0 <= k < init.len() && init[k] == handle;
                assert(handles[k] == handle);
            }
            assert(init.push(handles.last()) =~= handles);
        }
    }
}

/// The handles of the credentials that stay.
proof fn lemma_heads_without(credentials: Seq<Seq<char>>, handle: Seq<char>)
    ensures
        heads_of(without(credentials, handle)) == other_handles(heads_of(credentials), handle),
    decreases credentials.len(),
{
    let heads = heads_of(credentials);
    lemma_other_handles(heads, handle);
    if credentials.len() > 0 {
        let init = credentials.drop_last();
        lemma_heads_without(init, handle);
        lemma_other_handles(heads_of(init), handle);
        let kept = without(init, handle);
        assert(kept.push(credentials.last()).drop_last() =~= kept);
        if head_of(credentials.last()).len() > 0 {
            assert(heads.drop_last() =~= heads_of(init));
        }
    }
}

/// The credentials that stay lack what all lack.
proof fn lemma_without_lack(credentials: Seq<Seq<char>>, handle: Seq<char>, c: char)
    requires
        forall|i: int| 0 <= i < credentials.len() ==> !(#[trigger] credentials[i]).contains(c),
    ensures
        forall|i: int|
            0 <= i < without(credentials, handle).len() ==> !(#[trigger] without(
                credentials,
                handle,
            )[i]).contains(c),
    decreases credentials.len(),
{
    if credentials.len() > 0 {
        let init = credentials.drop_last();
        assert forall|i: int| 0 <= i < init.len() implies !(#[trigger] init[i]).contains(c) by {
            assert(init[i] == credentials[i]);
        }
        lemma_without_lack(init, handle, c);
        assert(!credentials[credentials.len() - 1].contains(c));
        let kept = without(credentials, handle);
        assert forall|i: int| 0 <= i < kept.len() implies !(#[trigger] kept[i]).contains(c) by {
            if i < without(init, handle).len() {
                assert(kept[i] == without(init, handle)[i]);
            }
        }
    }
}

/// No credential that stays has the handle.
proof fn lemma_without_heads(credentials: Seq<Seq<char>>, handle: Seq<char>)
    ensures
        forall|i: int|
            0 <= i < without(credentials, handle).len() ==> head_of(
                #[trigger] without(credentials, handle)[i],
            ) != handle,
    decreases credentials.len(),
{
    if credentials.len() > 0 {
        let init = credentials.drop_last();
        lemma_without_heads(init, handle);
        let kept = without(credentials, handle);
        assert forall|i: int| 0 <= i < kept.len() implies head_of(#[trigger] kept[i]) != handle by {
            if i < without(init, handle).len() {
                assert(kept[i] == without(init, handle)[i]);
            }
        }
    }
}

/// Nothing is taken where no credential has the handle.
proof fn lemma_without_none(credentials: Seq<Seq<char>>, handle: Seq<char>)
    requires
        forall|j: int| 0 <= j < credentials.len() ==> head_of(#[trigger] credentials[j]) != handle,
    ensures
        without(credentials, handle) == credentials,
    decreases credentials.len(),
{
    if credentials.len() > 0 {
        let init = credentials.drop_last();
        assert forall|j: int| 0 <= j < init.len() implies head_of(#[trigger] init[j]) != handle by {
            assert(init[j] == credentials[j]);
        }
        lemma_without_none(init, handle);
        assert(head_of(credentials[credentials.len() - 1]) != handle);
        assert(init.push(credentials.last()) =~= credentials);
    }
}

/// Everything is taken where each credential has the handle.
proof fn lemma_without_all(credentials: Seq<Seq<char>>, handle: Seq<char>)
    requires
        forall|j: int| 0 <= j < credentials.len() ==> head_of(#[trigger] credentials[j]) == handle,
    ensures
        without(credentials, handle) == Seq::<Seq<char>>::empty(),
    decreases credentials.len(),
{
    if credentials.len() > 0 {
        let init = credentials.drop_last();
        assert forall|j: int| 0 <= j < init.len() implies head_of(#[trigger] init[j]) == handle by {
            assert(init[j] == credentials[j]);
        }
        lemma_without_all(init, handle);
        assert(head_of(credentials[credentials.len() - 1]) == handle);
    }
}

/// What stays of credentials in two parts.
proof fn lemma_without_add(a: Seq<Seq<char>>, b: Seq<Seq<char>>, handle: Seq<char>)
    ensures
        without(a + b, handle) == without(a, handle) + without(b, handle),
    decreases b.len(),
{
    if b.len() > 0 {
        lemma_without_add(a, b.drop_last(), handle);
        assert((a + b).drop_last() =~= a + b.drop_last());
        assert((a + b).last() == b.last());
        let before = without(a, handle) + without(b.drop_last(), handle);
        assert(before.push(b.last()) =~= without(a, handle) + without(b.drop_last(), handle).push(
            b.last(),
        ));
    } else {
        assert(a + b =~= a);
        assert(without(a, handle) + without(b, handle) =~= without(a, handle));
    }
}

/// Behind the first colon of a text, no credential has a handle.
pub open spec fn lacks_handle(line: Seq<char>, handle: Seq<char>) -> bool {
    forall|j: int|
        1 <= j < split_of(line, ':').len() ==> head_of(#[trigger] split_of(line, ':')[j]) != handle
}

/// The fields of a line that is left when a handle is removed.
proof fn lemma_kept_fields(line: Seq<char>, user: Seq<char>, handle: Seq<char>)
    requires
        owned(line, user),
    ensures
        line_without(line, user, handle) matches Some(kept) ==> split_of(kept, ':') == seq![
            split_of(line, ':')[0],
        ] + without(split_of(line, ':').skip(1), handle),
{
    let fields = split_of(line, ':');
    let credentials = fields.skip(1);
    let kept = without(credentials, handle);
    lemma_split_of_lack(line, ':', ':');
    assert forall|i: int| 0 <= i < credentials.len() implies !(
    #[trigger] credentials[i]).contains(':') by {
        assert(credentials[i] == fields[i + 1]);
    }
    lemma_without_lack(credentials, handle, ':');
    if kept.len() > 0 {
        assert(!fields[0].contains(':'));
        lemma_split_of_join(kept, ':');
        lemma_split_of_cons(fields[0], join_of(kept, seq![':']), ':');
    }
}

/// On a line that is left when a handle is removed no credential has it.
proof fn lemma_kept_line(line: Seq<char>, user: Seq<char>, handle: Seq<char>)
    ensures
        line_without(line, user, handle) matches Some(kept) ==> (owned(kept, user) ==> (forall|
            j: int,
        |
            0 <= j < split_of(kept.skip(owner_prefix(user).len() as int), ':').len() ==> head_of(
                #[trigger] split_of(kept.skip(owner_prefix(user).len() as int), ':')[j],
            ) != handle)),
{
    if let Some(kept) = line_without(line, user, handle) {
        if owned(kept, user) {
            let rest = kept.skip(owner_prefix(user).len() as int);
            lemma_kept_fields(line, user, handle);
            lemma_without_heads(split_of(line, ':').skip(1), handle);
            lemma_owned_line(kept, user);
            let names = split_of(user, ':');
            let left = without(split_of(line, ':').skip(1), handle);
            assert(split_of(kept, ':') == seq![split_of(line, ':')[0]] + left);
            assert(split_of(kept, ':').len() == 1 + left.len());
            assert forall|j: int| 0 <= j < split_of(rest, ':').len() implies head_of(
                #[trigger] split_of(rest, ':')[j],
            ) != handle by {
                assert(split_of(kept, ':')[names.len() + j] == split_of(rest, ':')[j]);
                assert((seq![split_of(line, ':')[0]] + left)[names.len() + j] == left[names.len() + j
                    - 1]);
            }
        }
    }
}

/// A user's line after a handle was removed is the user's, and has the other credentials,
/// where there are any.
proof fn lemma_line_without(line: Seq<char>, user: Seq<char>, handle: Seq<char>)
    requires
        owned(line, user),
        lacks_handle(user, handle),
    ensures
        ({
            let left = without(split_of(line.skip(owner_prefix(user).len() as int), ':'), handle);
            match line_without(line, user, handle) {
                Some(kept) => if left.len() > 0 {
                    owned(kept, user) && split_of(
                        kept.skip(owner_prefix(user).len() as int),
                        ':',
                    ) == left
                } else {
                    !owned(kept, user)
                },
                None => left.len() == 0,
            }
        }),
{
    let rest = line.skip(owner_prefix(user).len() as int);
    let names = split_of(user, ':');
    let fields = split_of(rest, ':');
    let left = without(fields, handle);
    lemma_owned_line(line, user);
    assert(split_of(line, ':').skip(1) =~= names.skip(1) + fields);
    assert forall|j: int| 0 <= j < names.skip(1).len() implies head_of(
        #[trigger] names.skip(1)[j],
    ) != handle by {
        assert(names.skip(1)[j] == names[j + 1]);
    }
    lemma_without_none(names.skip(1), handle);
    lemma_without_add(names.skip(1), fields, handle);
    if let Some(kept) = line_without(line, user, handle) {
        lemma_kept_fields(line, user, handle);
        assert(split_of(kept, ':') =~= names + left);
        if left.len() > 0 {
            let joined = join_of(left, seq![':']);
            lemma_split_of_lack(rest, ':', ':');
            lemma_without_lack(fields, handle, ':');
            lemma_split_of_join(left, ':');
            lemma_split_of_add(user, joined, ':');
            lemma_join_of_split(kept, ':');
            lemma_join_of_split(user.push(':') + joined, ':');
            assert(kept == user.push(':') + joined);
            lemma_owns(user, joined);
        } else {
            assert(names + left =~= names);
            lemma_join_of_split(kept, ':');
            lemma_join_of_split(user, ':');
            assert(kept == user);
            assert(owner_prefix(user).len() > user.len());
        }
    }
}

/// A line after a handle was removed lacks what it lacked.
proof fn lemma_line_without_lacks(line: Seq<char>, user: Seq<char>, handle: Seq<char>, c: char)
    requires
        !line.contains(c),
        c != ':',
    ensures
        line_without(line, user, handle) matches Some(kept) ==> !kept.contains(c),
{
    if owned(line, user) {
        let fields = split_of(line, ':');
        lemma_split_of_lack(line, ':', c);
        let credentials = fields.skip(1);
        assert forall|i: int| 0 <= i < credentials.len() implies !(
        #[trigger] credentials[i]).contains(c) by {
            assert(credentials[i] == fields[i + 1]);
        }
        lemma_without_lack(credentials, handle, c);
        let kept = without(credentials, handle);
        assert(!seq![':'].contains(c));
        lemma_join_of_lacks(kept, seq![':'], c);
        assert(!fields[0].contains(c));
        lemma_lacks(fields[0], seq![':'], c);
        assert(fields[0] + seq![':'] =~= fields[0].push(':'));
        lemma_lacks(fields[0].push(':'), join_of(kept, seq![':']), c);
    }
}

/// The lines after a handle was removed have no line feed.
proof fn lemma_keys_without_unbroken(lines: Seq<Seq<char>>, user: Seq<char>, handle: Seq<char>)
    requires
        unbroken(lines),
    ensures
        unbroken(keys_without(lines, user, handle)),
    decreases lines.len(),
{
    if lines.len() > 0 {
        let init = lines.drop_last();
        assert forall|i: int| 0 <= i < init.len() implies !(#[trigger] init[i]).contains('\n') by {
            assert(init[i] == lines[i]);
        }
        lemma_keys_without_unbroken(init, user, handle);
        assert(!lines[lines.len() - 1].contains('\n'));
        lemma_line_without_lacks(lines.last(), user, handle, '\n');
        let kept = keys_without(lines, user, handle);
        let before = keys_without(init, user, handle);
        assert forall|i: int| 0 <= i < kept.len() implies !(#[trigger] kept[i]).contains('\n') by {
            if i < before.len() {
                assert(kept[i] == before[i]);
            }
        }
    }
}

/// The handles after a removal.
proof fn lemma_removed_handles(
    keys: Seq<char>,
    user: Seq<char>,
    handle: Seq<char>,
    other: Seq<char>,
)
    ensures
        handles_of(removed_keys(keys, user, handle), other) == heads_of(
            split_of(
                chomp(credentials_in(keys_without(lines_of(keys), user, handle), other)),
                ':',
            ),
        ),
{
    lemma_lines_of_unbroken(keys);
    lemma_keys_without_unbroken(lines_of(keys), user, handle);
    lemma_written_handles(keys_without(lines_of(keys), user, handle), other);
}

/// The credentials that a user is left with when a handle is removed.
pub open spec fn left_of(keys: Seq<char>, user: Seq<char>, handle: Seq<char>) -> Seq<char> {
    credentials_in(keys_without(lines_of(keys), user, handle), user)
}

/// A handle among those of credentials is that of one of them.
proof fn lemma_heads_of(credentials: Seq<Seq<char>>, handle: Seq<char>)
    ensures
        heads_of(credentials).contains(handle) ==> handle.len() > 0 && exists|i: int|
            0 <= i < credentials.len() && head_of(#[trigger] credentials[i]) == handle,
    decreases credentials.len(),
{
    if credentials.len() > 0 && heads_of(credentials).contains(handle) {
        let init = credentials.drop_last();
        lemma_heads_of(init, handle);
        let heads = heads_of(credentials);
        let k = choose|k: int| 0 <= k < heads.len() && heads[k] == handle;
        if k < heads_of(init).len() {
            assert(heads_of(init)[k] == handle);
            let i = choose|i: int| 0 <= i < init.len() && head_of(#[trigger] init[i]) == handle;
            assert(head_of(credentials[i]) == handle);
        } else {
            assert(head_of(credentials[credentials.len() - 1]) == handle);
        }
    }
}

/// No credential that a user is left with has the handle that was removed.
proof fn lemma_found_without(lines: Seq<Seq<char>>, user: Seq<char>, handle: Seq<char>)
    ensures
        found_line(keys_without(lines, user, handle), owner_prefix(user)) matches Some(kept)
            ==> owned(kept, user) && forall|j: int|
            0 <= j < split_of(kept.skip(owner_prefix(user).len() as int), ':').len() ==> head_of(
                #[trigger] split_of(kept.skip(owner_prefix(user).len() as int), ':')[j],
            ) != handle,
    decreases lines.len(),
{
    if lines.len() > 0 {
        let init = lines.drop_last();
        lemma_found_without(init, user, handle);
        lemma_kept_line(lines.last(), user, handle);
        let before = keys_without(init, user, handle);
        if let Some(kept) = line_without(lines.last(), user, handle) {
            assert(before.push(kept).drop_last() =~= before);
        }
    }
}

/// A handle that was removed is none of its user's any more; where the last credential that
/// the user is left with does not come to have it by a carriage return that its line loses.
pub proof fn law_removed_handle_is_gone(keys: Seq<char>, user: Seq<char>, handle: Seq<char>)
    requires
        handle.len() > 0 ==> head_of(chomp(split_of(left_of(keys, user, handle), ':').last()))
            != handle,
    ensures
        !handles_of(removed_keys(keys, user, handle), user).contains(handle),
{
    let after = keys_without(lines_of(keys), user, handle);
    let left = left_of(keys, user, handle);
    let fields = split_of(left, ':');
    lemma_removed_handles(keys, user, handle, user);
    lemma_credentials_in(after, user);
    lemma_found_without(lines_of(keys), user, handle);
    lemma_split_of_chomp(left, ':');
    lemma_split_of_lack(left, ':', ':');
    let read = split_of(chomp(left), ':');
    lemma_heads_of(read, handle);
    if heads_of(read).contains(handle) {
        let i = choose|i: int| 0 <= i < read.len() && head_of(#[trigger] read[i]) == handle;
        if i < fields.len() - 1 {
            assert(read[i] == fields[i]);
            if found_line(after, owner_prefix(user)) is None {
                lemma_split_of_one(Seq::<char>::empty(), ':');
            }
        }
    }
}

/// At most one line is a user's.
pub open spec fn one_line(lines: Seq<Seq<char>>, user: Seq<char>) -> bool {
    forall|i: int, j: int|
        0 <= i < j < lines.len() && owned(#[trigger] lines[i], user) ==> !owned(
            #[trigger] lines[j],
            user,
        )
}

/// What is left of the credentials on a user's line when a handle is removed.
pub open spec fn left_on(line: Seq<char>, user: Seq<char>, handle: Seq<char>) -> Seq<Seq<char>> {
    without(split_of(line.skip(owner_prefix(user).len() as int), ':'), handle)
}

/// The first line of a user after a handle of that user was removed.
proof fn lemma_first_without(lines: Seq<Seq<char>>, user: Seq<char>, handle: Seq<char>)
    requires
        lacks_handle(user, handle),
    ensures
        found_line(lines, owner_prefix(user)) matches Some(line) ==> owned(line, user) && (left_on(
            line,
            user,
            handle,
        ).len() > 0 ==> found_line(keys_without(lines, user, handle), owner_prefix(user))
            == line_without(line, user, handle)),
        (forall|i: int|
            0 <= i < lines.len() && owned(#[trigger] lines[i], user) ==> left_on(
                lines[i],
                user,
                handle,
            ).len() == 0) ==> found_line(keys_without(lines, user, handle), owner_prefix(user))
            is None,
        found_line(lines, owner_prefix(user)) is None ==> found_line(
            keys_without(lines, user, handle),
            owner_prefix(user),
        ) is None,
    decreases lines.len(),
{
    if lines.len() > 0 {
        let init = lines.drop_last();
        let last = lines.last();
        lemma_first_without(init, user, handle);
        let before = keys_without(init, user, handle);
        if let Some(kept) = line_without(last, user, handle) {
            assert(before.push(kept).drop_last() =~= before);
        }
        if owned(last, user) {
            lemma_line_without(last, user, handle);
        }
        if let Some(line) = found_line(init, owner_prefix(user)) {
            lemma_line_without(line, user, handle);
        }
        if forall|i: int|
            0 <= i < lines.len() && owned(#[trigger] lines[i], user) ==> left_on(
                lines[i],
                user,
                handle,
            ).len() == 0 {
            assert forall|i: int| 0 <= i < init.len() && owned(#[trigger] init[i], user) implies left_on(
                init[i],
                user,
                handle,
            ).len() == 0 by {
                assert(init[i] == lines[i]);
            }
            assert(lines[lines.len() - 1] == last);
        }
    }
}

/// Removing a handle takes that one from its user and no other; where the handle is in no
/// part of the user's name behind a colon, where the user keeps a line or had only one, and
/// where no handle of those left ends, at the end of a line, with a carriage return of its own.
pub proof fn law_removing_keeps_other_handles(keys: Seq<char>, user: Seq<char>, handle: Seq<char>)
    requires
        lacks_handle(user, handle),
        one_line(lines_of(keys), user) || without(
            split_of(credentials_in(lines_of(keys), user), ':'),
            handle,
        ).len() > 0,
        keeps_handles(left_of(keys, user, handle)),
    ensures
        handles_of(removed_keys(keys, user, handle), user) == other_handles(
            handles_of(keys, user),
            handle,
        ),
{
    let lines = lines_of(keys);
    let after = keys_without(lines, user, handle);
    let prefix = owner_prefix(user);
    lemma_removed_handles(keys, user, handle, user);
    lemma_credentials_in(lines, user);
    lemma_credentials_in(after, user);
    lemma_first_without(lines, user, handle);
    lemma_found_line(lines, prefix);
    lemma_line_position(lines, 0, prefix);
    lemma_no_heads();
    match found_line(lines, prefix) {
        Some(line) => {
            let fields = split_of(line.skip(prefix.len() as int), ':');
            lemma_line_without(line, user, handle);
            lemma_heads_without(fields, handle);
            if left_on(line, user, handle).len() == 0 {
                let at = line_position(lines, 0, prefix);
                assert forall|i: int| 0 <= i < lines.len() && owned(#[trigger] lines[i], user) implies left_on(
                    lines[i],
                    user,
                    handle,
                ).len() == 0 by {
                    assert(owned(lines[at], user));
                    assert(i == at);
                }
                assert(heads_of(without(fields, handle)) =~= Seq::empty());
            }
        },
        None => {
            lemma_other_handles(Seq::empty(), handle);
        },
    }
}

/// The position of the first line with a prefix among all but the last.
proof fn lemma_line_position_init(lines: Seq<Seq<char>>, prefix: Seq<char>)
    requires
        lines.len() > 0,
    ensures
        ({
            let init = lines.drop_last();
            let at = line_position(init, 0, prefix);
            &&& at < init.len() ==> line_position(lines, 0, prefix) == at
            &&& at == init.len() ==> line_position(lines, 0, prefix) == (if prefix.is_prefix_of(
                lines.last(),
            ) {
                lines.len() - 1
            } else {
                lines.len() as int
            })
            &&& 0 <= at <= init.len()
        }),
{
    let init = lines.drop_last();
    let at = line_position(init, 0, prefix);
    lemma_line_position(init, 0, prefix);
    assert forall|k: int| 0 <= k < at implies !prefix.is_prefix_of(#[trigger] lines[k]) by {
        assert(lines[k] == init[k]);
    }
    if at < init.len() {
        assert(lines[at] == init[at]);
        lemma_line_position_is(lines, prefix, at);
    } else if prefix.is_prefix_of(lines.last()) {
        lemma_line_position_is(lines, prefix, lines.len() - 1);
    } else {
        lemma_line_position_is(lines, prefix, lines.len() as int);
    }
}

/// Removing a handle of one user does not touch the first line of another, nor make a line
/// before it the other's. Names without colons never come to that.
pub open spec fn are_apart(
    lines: Seq<Seq<char>>,
    user: Seq<char>,
    handle: Seq<char>,
    other: Seq<char>,
) -> bool {
    let theirs = line_position(lines, 0, owner_prefix(other));
    &&& forall|i: int|
        0 <= i < theirs && i < lines.len() ==> (line_without(#[trigger] lines[i], user, handle) matches Some(
            kept,
        ) ==> !owned(kept, other))
    &&& 0 <= theirs < lines.len() && owned(lines[theirs], user) ==> lacks_handle(
        lines[theirs],
        handle,
    )
}

/// Users whose names have no colon are apart.
proof fn lemma_are_apart(
    lines: Seq<Seq<char>>,
    user: Seq<char>,
    handle: Seq<char>,
    other: Seq<char>,
)
    requires
        !user.contains(':'),
        !other.contains(':'),
        other != user,
    ensures
        are_apart(lines, user, handle, other),
{
    let theirs = line_position(lines, 0, owner_prefix(other));
    lemma_line_position(lines, 0, owner_prefix(other));
    lemma_split_of_one(user, ':');
    assert forall|i: int| 0 <= i < theirs && i < lines.len() implies (line_without(
        #[trigger] lines[i],
        user,
        handle,
    ) matches Some(kept) ==> !owned(kept, other)) by {
        assert(!owner_prefix(other).is_prefix_of(lines[i]));
        if owned(lines[i], user) {
            let fields = split_of(lines[i].skip(owner_prefix(user).len() as int), ':');
            lemma_line_without(lines[i], user, handle);
            lemma_owned_line(lines[i], user);
            assert(split_of(lines[i], ':').skip(1) =~= fields);
            if let Some(kept) = line_without(lines[i], user, handle) {
                if owned(kept, other) {
                    lemma_one_owner(kept, user, other);
                }
            }
        }
    }
    if theirs < lines.len() && owned(lines[theirs], user) {
        lemma_one_owner(lines[theirs], user, other);
    }
}

/// A line on which no credential has a handle stays as it is when the handle is removed.
proof fn lemma_line_stays(line: Seq<char>, user: Seq<char>, handle: Seq<char>)
    requires
        owned(line, user) ==> lacks_handle(line, handle),
    ensures
        line_without(line, user, handle) == Some(line),
{
    if owned(line, user) {
        let fields = split_of(line, ':');
        let credentials = fields.skip(1);
        lemma_owned_line(line, user);
        assert forall|j: int| 0 <= j < credentials.len() implies head_of(
            #[trigger] credentials[j],
        ) != handle by {
            assert(credentials[j] == fields[j + 1]);
        }
        lemma_without_none(credentials, handle);
        lemma_join_of_split(line, ':');
        lemma_join_of_cons(fields[0], credentials, seq![':']);
        assert(seq![fields[0]] + credentials =~= fields);
        assert(fields[0].push(':') =~= fields[0] + seq![':']);
    }
}

/// The first line of another user after a handle was removed.
proof fn lemma_found_without_other(
    lines: Seq<Seq<char>>,
    user: Seq<char>,
    handle: Seq<char>,
    other: Seq<char>,
)
    requires
        are_apart(lines, user, handle, other),
    ensures
        found_line(keys_without(lines, user, handle), owner_prefix(other)) == found_line(
            lines,
            owner_prefix(other),
        ),
    decreases lines.len(),
{
    if lines.len() > 0 {
        let init = lines.drop_last();
        let last = lines.last();
        let prefix = owner_prefix(other);
        let theirs = line_position(lines, 0, prefix);
        let before = keys_without(init, user, handle);
        lemma_line_position_init(lines, prefix);
        lemma_found_line(init, prefix);
        assert forall|i: int|
            0 <= i < line_position(init, 0, prefix) && i < init.len() implies (line_without(
            #[trigger] init[i],
            user,
            handle,
        ) matches Some(kept) ==> !owned(kept, other)) by {
            assert(init[i] == lines[i]);
        }
        if line_position(init, 0, prefix) < init.len() {
            assert(init[theirs] == lines[theirs]);
        }
        lemma_found_without_other(init, user, handle, other);
        if let Some(kept) = line_without(last, user, handle) {
            assert(before.push(kept).drop_last() =~= before);
        }
        if line_position(init, 0, prefix) == init.len() {
            assert(lines[lines.len() - 1] == last);
            if owned(last, other) {
                lemma_line_stays(last, user, handle);
            }
        }
    }
}

/// Removing a handle of one user changes nothing that another has; where the two are apart,
/// and where no handle of the other's ends, at the end of a line, with a carriage return of
/// its own.
pub proof fn law_removing_leaves_other_users(
    keys: Seq<char>,
    user: Seq<char>,
    handle: Seq<char>,
    other: Seq<char>,
)
    ensures
        are_apart(lines_of(keys), user, handle, other) && keeps_handles(
            credentials_in(lines_of(keys), other),
        ) ==> handles_of(removed_keys(keys, user, handle), other) == handles_of(keys, other),
        !user.contains(':') && !other.contains(':') && other != user ==> are_apart(
            lines_of(keys),
            user,
            handle,
            other,
        ),
{
    let lines = lines_of(keys);
    lemma_removed_handles(keys, user, handle, other);
    lemma_credentials_in(lines, other);
    lemma_credentials_in(keys_without(lines, user, handle), other);
    if are_apart(lines, user, handle, other) {
        lemma_found_without_other(lines, user, handle, other);
    }
    if !user.contains(':') && !other.contains(':') && other != user {
        lemma_are_apart(lines, user, handle, other);
    }
}

/// Where a handle is not among those of credentials, none of them has it.
proof fn lemma_heads_lack(credentials: Seq<Seq<char>>, handle: Seq<char>)
    requires
        !heads_of(credentials).contains(handle),
        handle.len() > 0,
    ensures
        forall|i: int|
            0 <= i < credentials.len() ==> head_of(#[trigger] credentials[i]) != handle,
    decreases credentials.len(),
{
    if credentials.len() > 0 {
        let init = credentials.drop_last();
        let heads = heads_of(credentials);
        let before = heads_of(init);
        if before.contains(handle) {
            let k = choose|k: int| 0 <= k < before.len() && before[k] == handle;
            assert(heads[k] == handle);
        }
        lemma_heads_lack(init, handle);
        if head_of(credentials.last()) == handle {
            assert(heads[heads.len() - 1] == handle);
        }
        assert forall|i: int| 0 <= i < credentials.len() implies head_of(
            #[trigger] credentials[i],
        ) != handle by {
            if i < init.len() {
                assert(credentials[i] == init[i]);
            }
        }
    }
}

/// What is left when the handle of the last of the credentials is removed.
proof fn lemma_without_last(rest: Seq<char>, credential: Seq<char>)
    requires
        !credential.contains(':'),
        head_of(credential).len() > 0,
        !heads_of(split_of(rest, ':')).contains(head_of(credential)),
    ensures
        without(split_of(rest.push(':') + credential, ':'), head_of(credential)) == split_of(
            rest,
            ':',
        ),
        without(split_of(credential, ':'), head_of(credential)) == Seq::<Seq<char>>::empty(),
{
    let handle = head_of(credential);
    let fields = split_of(rest, ':');
    lemma_split_of_add(rest, credential, ':');
    lemma_split_of_one(credential, ':');
    lemma_heads_lack(fields, handle);
    lemma_without_none(fields, handle);
    lemma_without_all(seq![credential], handle);
    lemma_without_add(fields, seq![credential], handle);
    assert(fields + Seq::<Seq<char>>::empty() =~= fields);
}

/// Removing the handle of a credential that was stored leaves its user with the credentials
/// of before.
proof fn lemma_left_of_stored(keys: Seq<char>, user: Seq<char>, credential: Seq<char>)
    requires
        can_store(user, credential),
        lacks_handle(user, head_of(credential)),
        !handles_of(keys, user).contains(head_of(credential)),
    ensures
        left_of(
            stored_keys(keys, user, seq![':'] + credential),
            user,
            head_of(credential),
        ) == credentials_in(lines_of(keys), user),
{
    let handle = head_of(credential);
    let short = chomp(credential);
    let prefix = owner_prefix(user);
    let n = prefix.len() as int;
    let before = nonblank(lines_of(keys));
    let after = with_credential(before, user, seq![':'] + credential);
    let at = line_position(before, 0, prefix);
    let rest = credentials_in(before, user);
    let lines = chomped(nonblank(after));
    lemma_lines_of_unbroken(keys);
    lemma_nonblank(lines_of(keys));
    assert forall|i: int| 0 <= i < before.len() implies !(#[trigger] before[i]).contains('\n') by {
        assert(lines_of(keys).contains(before[i]));
    }
    lemma_stored_unbroken(before, user, credential);
    lemma_written(after);
    assert(lines_of(stored_keys(keys, user, seq![':'] + credential)) == lines);
    lemma_credentials_in(lines_of(keys), user);
    lemma_credential(credential);
    lemma_line_position(before, 0, prefix);
    lemma_stored_line(before, user, credential);
    lemma_without_last(rest, short);
    lemma_first_without(lines, user, handle);
    lemma_credentials_in(keys_without(lines, user, handle), user);
    let line = stem(before, user).push(':') + short;
    assert(chomp(after[at]) == line);
    lemma_owned_chomped(after[at], user);
    assert(line.skip(n) == (if at < before.len() {
        rest.push(':') + short
    } else {
        short
    })) by {
        if at < before.len() {
            assert(line.skip(n) =~= rest.push(':') + short);
        } else {
            assert(line.skip(n) =~= short);
        }
    }
    if at < before.len() {
        lemma_found_stored(after, user, at);
        assert(found_line(lines, prefix) == Some(line));
        lemma_line_without(line, user, handle);
        lemma_split_of_lack(rest, ':', ':');
        let kept = line_without(line, user, handle)->0;
        lemma_join_of_split(kept.skip(n), ':');
        lemma_join_of_split(rest, ':');
    } else {
        lemma_nonblank(after);
        assert forall|i: int| 0 <= i < lines.len() && owned(#[trigger] lines[i], user) implies left_on(
            lines[i],
            user,
            handle,
        ).len() == 0 by {
            let whole = nonblank(after)[i];
            assert(after.contains(whole));
            let k = choose|k: int| 0 <= k < after.len() && after[k] == whole;
            lemma_owned_chomped(whole, user);
            assert(k == at);
        }
    }
}

/// The first line of a user in what was stored.
proof fn lemma_found_stored(after: Seq<Seq<char>>, user: Seq<char>, at: int)
    requires
        0 <= at < after.len(),
        owned(after[at], user),
        forall|k: int| 0 <= k < at ==> !owned(#[trigger] after[k], user),
    ensures
        found_line(chomped(nonblank(after)), owner_prefix(user)) == Some(chomp(after[at])),
{
    let prefix = owner_prefix(user);
    let kept = nonblank(after);
    lemma_line_position_is(after, prefix, at);
    lemma_found_line(after, prefix);
    lemma_found_nonblank(after, prefix);
    lemma_found_line(kept, prefix);
    let there = line_position(kept, 0, prefix);
    lemma_line_position(kept, 0, prefix);
    assert forall|k: int| 0 <= k < there implies !prefix.is_prefix_of(#[trigger] chomped(kept)[k]) by {
        lemma_owned_chomped(kept[k], user);
        assert(!prefix.is_prefix_of(kept[k]));
    }
    lemma_owned_chomped(kept[there], user);
    lemma_line_position_is(chomped(kept), prefix, there);
    lemma_found_line(chomped(kept), prefix);
}

/// Storing a credential and removing its handle leaves a user the handles of before; where
/// the handle was none of them, nor in a part of the user's name behind a colon, and where no
/// handle of the user's ends, at the end of a line, with a carriage return of its own.
pub proof fn law_removing_undoes_storing(keys: Seq<char>, user: Seq<char>, credential: Seq<char>)
    requires
        can_store(user, credential),
        lacks_handle(user, head_of(credential)),
        !handles_of(keys, user).contains(head_of(credential)),
        keeps_handles(credentials_in(lines_of(keys), user)),
    ensures
        handles_of(
            removed_keys(
                stored_keys(keys, user, seq![':'] + credential),
                user,
                head_of(credential),
            ),
            user,
        ) == handles_of(keys, user),
{
    let stored = stored_keys(keys, user, seq![':'] + credential);
    lemma_left_of_stored(keys, user, credential);
    lemma_removed_handles(stored, user, head_of(credential), user);
}

// ---------------------------------------------------------------------------
// Names
// ---------------------------------------------------------------------------

/// The name that the first of the lines gives to a user's handle.
pub open spec fn found_name(lines: Seq<Seq<char>>, user: Seq<char>, handle: Seq<char>) -> Option<
    Seq<char>,
>
    decreases lines.len(),
{
    if lines.len() == 0 {
        None
    } else {
        match found_name(lines.drop_last(), user, handle) {
            Some(name) => Some(name),
            None => name_on(lines.last(), user, handle),
        }
    }
}

/// The name that the lines from a position on give is that of the first of them that gives
/// one.
proof fn lemma_name_from(lines: Seq<Seq<char>>, from: int, user: Seq<char>, handle: Seq<char>)
    requires
        0 <= from <= lines.len(),
    ensures
        name_from(lines, from, user, handle) == (match found_name(lines.take(from), user, handle) {
            Some(name) => name_from(lines, from, user, handle),
            None => found_name(lines, user, handle),
        }),
    decreases lines.len() - from,
{
    if from < lines.len() {
        assert(lines.take(from + 1).drop_last() =~= lines.take(from));
        assert(lines.take(from + 1).last() == lines[from]);
        lemma_name_from(lines, from + 1, user, handle);
        lemma_found_name_take(lines, from + 1, user, handle);
    } else {
        assert(lines.take(from) =~= lines);
    }
}

/// A name that some of the first lines give is the one that all give.
proof fn lemma_found_name_take(lines: Seq<Seq<char>>, to: int, user: Seq<char>, handle: Seq<char>)
    requires
        0 <= to <= lines.len(),
    ensures
        found_name(lines.take(to), user, handle) is Some ==> found_name(lines, user, handle)
            == found_name(lines.take(to), user, handle),
    decreases lines.len() - to,
{
    if to < lines.len() {
        assert(lines.take(to + 1).drop_last() =~= lines.take(to));
        lemma_found_name_take(lines, to + 1, user, handle);
    } else {
        assert(lines.take(to) =~= lines);
    }
}

/// The name that the lines give, by the first line that gives one.
proof fn lemma_found_name(lines: Seq<Seq<char>>, user: Seq<char>, handle: Seq<char>)
    ensures
        name_from(lines, 0, user, handle) == found_name(lines, user, handle),
{
    lemma_name_from(lines, 0, user, handle);
    assert(lines.take(0) =~= Seq::empty());
}

/// Empty lines name nothing, whether or not the others lose the carriage returns at their
/// ends.
proof fn lemma_found_name_chomped(lines: Seq<Seq<char>>, user: Seq<char>, handle: Seq<char>)
    ensures
        found_name(chomped(nonblank(lines)), user, handle) == found_name(
            chomped(lines),
            user,
            handle,
        ),
    decreases lines.len(),
{
    if lines.len() > 0 {
        let init = lines.drop_last();
        lemma_found_name_chomped(init, user, handle);
        assert(chomped(lines).drop_last() =~= chomped(init));
        assert(chomped(lines).last() == chomp(lines.last()));
        if lines.last().len() > 0 {
            let kept = nonblank(init);
            assert(chomped(kept.push(lines.last())).drop_last() =~= chomped(kept));
        } else {
            lemma_position(lines.last(), 0, '\t');
        }
    } else {
        assert(chomped(lines) =~= chomped(nonblank(lines)));
    }
}

/// What the line that names a handle says.
proof fn lemma_name_line(
    user: Seq<char>,
    handle: Seq<char>,
    name: Seq<char>,
    asked: Seq<char>,
    which: Seq<char>,
)
    requires
        !user.contains('\t'),
        !handle.contains('\t'),
    ensures
        name_on(name_line(user, handle, name), asked, which) == (if asked == user && which
            == handle {
            Some(name)
        } else {
            None
        }),
{
    let line = name_line(user, handle, name);
    let rest = handle.push('\t') + name;
    assert(line =~= user.push('\t') + rest);
    assert forall|k: int| 0 <= k < user.len() implies line[k] != '\t' by {
        assert(user.contains(user[k]));
    }
    lemma_position_is(line, 0, '\t', user.len() as int);
    assert(line.take(user.len() as int) =~= user);
    assert(line.skip(user.len() as int + 1) =~= rest);
    assert forall|k: int| 0 <= k < handle.len() implies rest[k] != '\t' by {
        assert(handle.contains(handle[k]));
    }
    lemma_position_is(rest, 0, '\t', handle.len() as int);
    assert(rest.take(handle.len() as int) =~= handle);
    assert(rest.skip(handle.len() as int + 1) =~= name);
}

/// The file of the names with one more read back.
proof fn lemma_stored_names(
    names: Seq<char>,
    user: Seq<char>,
    handle: Seq<char>,
    name: Seq<char>,
)
    requires
        !user.contains('\n'),
        !handle.contains('\n'),
        is_name(name),
    ensures
        lines_of(stored_names(names, user, handle, name)) == chomped(
            nonblank(lines_of(names)),
        ).push(name_line(user, handle, name)),
{
    let kept = nonblank(lines_of(names));
    let line = name_line(user, handle, name);
    lemma_nonblank(lines_of(names));
    lemma_lines_of_unbroken(names);
    assert(!seq!['\t'].contains('\n'));
    lemma_lacks(user, seq!['\t'], '\n');
    lemma_lacks(handle, seq!['\t'], '\n');
    assert(user + seq!['\t'] =~= user.push('\t'));
    assert(handle + seq!['\t'] =~= handle.push('\t'));
    lemma_lacks(user.push('\t'), handle.push('\t'), '\n');
    lemma_lacks(user.push('\t') + handle.push('\t'), name, '\n');
    assert(line.last() != '\r') by {
        if name.len() > 0 {
            assert(line.last() == name.last());
            assert(name.contains(name.last()));
        } else {
            assert(line.last() == '\t');
        }
    }
    assert forall|i: int| 0 <= i < kept.push(line).len() implies !(
    #[trigger] kept.push(line)[i]).contains('\n') by {
        if i < kept.len() {
            assert(lines_of(names).contains(kept[i]));
        }
    }
    lemma_written_lines(kept.push(line));
    assert(chomped(kept.push(line)) =~= chomped(kept).push(line));
}

/// The handle of a credential lacks what the credential lacks.
proof fn lemma_head_lacks(credential: Seq<char>, c: char)
    requires
        !credential.contains(c),
    ensures
        !head_of(credential).contains(c),
{
    let head = head_of(credential);
    lemma_position(credential, 0, ',');
    if head.contains(c) {
        let k = choose|k: int| 0 <= k < head.len() && head[k] == c;
        assert(credential[k] == c);
    }
}

/// What a credential that is stored is called: its name, or else its number.
pub open spec fn called(name: Seq<char>, index: int) -> Seq<char> {
    if name.len() > 0 {
        name
    } else {
        "Android device "@ + decimal_of((index + 1) as nat)
    }
}

/// A credential that is stored under a name is listed under that name, as the last, and the
/// names of the others stay; where its handle was not named or used before, and where no
/// carriage return at the end of a line belongs to what the line says.
pub proof fn law_stored_name_is_listed(
    keys: Seq<char>,
    names: Seq<char>,
    user: Seq<char>,
    credential: Seq<char>,
    name: Seq<char>,
)
    requires
        can_store(user, credential),
        !user.contains('\t'),
        !head_of(credential).contains('\t'),
        is_name(name),
        name_from(chomped(lines_of(names)), 0, user, head_of(credential)) is None,
        !handles_of(keys, user).contains(head_of(credential)),
        forall|i: int|
            0 <= i < handles_of(keys, user).len() ==> name_of(
                chomped(lines_of(names)),
                user,
                #[trigger] handles_of(keys, user)[i],
                i,
            ) == name_of(lines_of(names), user, handles_of(keys, user)[i], i),
    ensures
        names_of(
            stored_keys(keys, user, seq![':'] + credential),
            stored_names(names, user, head_of(credential), name),
            user,
        ) == names_of(keys, names, user).push(called(name, handles_of(keys, user).len() as int)),
{
    let head = head_of(credential);
    let handles = handles_of(keys, user);
    let lines = lines_of(names);
    let kept = chomped(nonblank(lines));
    let line = name_line(user, head, name);
    let after = kept.push(line);
    let listed = handles.push(head);
    let all = names_of(keys, names, user).push(called(name, handles.len() as int));
    lemma_head_lacks(credential, '\n');
    lemma_stored_names(names, user, head, name);
    law_stored_credential_is_listed(keys, user, credential);
    assert(after.drop_last() =~= kept);
    assert forall|handle: Seq<char>| true implies #[trigger] name_from(after, 0, user, handle) == (
    if handle == head {
        Some(name)
    } else {
        name_from(chomped(lines), 0, user, handle)
    }) by {
        lemma_found_name(after, user, handle);
        lemma_found_name(chomped(lines), user, handle);
        lemma_found_name_chomped(lines, user, handle);
        lemma_name_line(user, head, name, user, handle);
    }
    assert forall|i: int| 0 <= i < listed.len() implies name_of(
        after,
        user,
        #[trigger] listed[i],
        i,
    ) == all[i] by {
        if i < handles.len() {
            assert(listed[i] == handles[i]);
            assert(handles.contains(handles[i]));
        }
    }
    assert(names_of(
        stored_keys(keys, user, seq![':'] + credential),
        stored_names(names, user, head, name),
        user,
    ) =~= all);
}

/// The names after a handle was removed.
proof fn lemma_found_name_without(
    lines: Seq<Seq<char>>,
    user: Seq<char>,
    handle: Seq<char>,
    asked: Seq<char>,
    which: Seq<char>,
)
    ensures
        found_name(names_without(lines, user, handle), asked, which) == (if asked == user && which
            == handle {
            None
        } else {
            found_name(lines, asked, which)
        }),
    decreases lines.len(),
{
    if lines.len() > 0 {
        lemma_found_name_without(lines.drop_last(), user, handle, asked, which);
        let before = names_without(lines.drop_last(), user, handle);
        assert(before.push(lines.last()).drop_last() =~= before);
    }
}

/// The lines of the names that stay have no line feed.
proof fn lemma_names_without_unbroken(lines: Seq<Seq<char>>, user: Seq<char>, handle: Seq<char>)
    requires
        unbroken(lines),
    ensures
        unbroken(names_without(lines, user, handle)),
    decreases lines.len(),
{
    if lines.len() > 0 {
        let init = lines.drop_last();
        assert forall|i: int| 0 <= i < init.len() implies !(#[trigger] init[i]).contains('\n') by {
            assert(init[i] == lines[i]);
        }
        lemma_names_without_unbroken(init, user, handle);
        assert(!lines[lines.len() - 1].contains('\n'));
        let kept = names_without(lines, user, handle);
        let before = names_without(init, user, handle);
        assert forall|i: int| 0 <= i < kept.len() implies !(#[trigger] kept[i]).contains('\n') by {
            if i < before.len() {
                assert(kept[i] == before[i]);
            }
        }
    }
}

/// Removing a handle takes its name and no other; where no carriage return at the end of a
/// line that is left belongs to what the line says of the handle that is asked for.
pub proof fn law_removed_name_is_gone(
    names: Seq<char>,
    user: Seq<char>,
    handle: Seq<char>,
    asked: Seq<char>,
    which: Seq<char>,
)
    requires
        name_from(chomped(names_without(lines_of(names), user, handle)), 0, asked, which)
            == name_from(names_without(lines_of(names), user, handle), 0, asked, which),
    ensures
        name_from(lines_of(removed_names(names, user, handle)), 0, asked, which) == (if asked == user
            && which == handle {
            None
        } else {
            name_from(lines_of(names), 0, asked, which)
        }),
{
    let lines = lines_of(names);
    let after = names_without(lines, user, handle);
    lemma_lines_of_unbroken(names);
    lemma_names_without_unbroken(lines, user, handle);
    lemma_written(after);
    lemma_found_name(chomped(nonblank(after)), asked, which);
    lemma_found_name(chomped(after), asked, which);
    lemma_found_name(after, asked, which);
    lemma_found_name_chomped(after, asked, which);
    lemma_found_name_without(lines, user, handle, asked, which);
    lemma_found_name(lines, asked, which);
}

// ---------------------------------------------------------------------------
// The files come back
// ---------------------------------------------------------------------------

/// A file of lines that each end with a line feed alone, none of them blank.
pub open spec fn is_tidy(text: Seq<char>) -> bool {
    &&& is_unix(text)
    &&& forall|i: int| 0 <= i < lines_of(text).len() ==> (#[trigger] lines_of(text)[i]).len() > 0
}

/// No credential of a user has a handle.
pub open spec fn is_unused(lines: Seq<Seq<char>>, user: Seq<char>, handle: Seq<char>) -> bool {
    forall|i: int|
        0 <= i < lines.len() && owned(#[trigger] lines[i], user) ==> lacks_handle(lines[i], handle)
}

/// A line that is made for a user goes when a handle is removed: what the user's name has
/// behind its first colon, where it has one, counts as credentials, and has the handle too.
pub open spec fn goes_with(user: Seq<char>, handle: Seq<char>) -> bool {
    forall|j: int|
        1 <= j < split_of(user, ':').len() ==> head_of(#[trigger] split_of(user, ':')[j]) == handle
}

/// A line that is a user's.
pub open spec fn has_line(lines: Seq<Seq<char>>, user: Seq<char>) -> bool {
    exists|i: int| 0 <= i < lines.len() && owned(#[trigger] lines[i], user)
}

/// A user's line on which no credential has a handle comes back when a credential of that
/// handle was put behind it.
proof fn lemma_line_comes_back(
    line: Seq<char>,
    user: Seq<char>,
    credential: Seq<char>,
    handle: Seq<char>,
)
    requires
        owned(line, user),
        lacks_handle(line, handle),
        !credential.contains(':'),
        head_of(credential) == handle,
    ensures
        line_without(line.push(':') + credential, user, handle) == Some(line),
{
    let fields = split_of(line, ':');
    let longer = line.push(':') + credential;
    lemma_line_stays(line, user, handle);
    lemma_owned_line(line, user);
    lemma_split_of_add(line, credential, ':');
    lemma_split_of_one(credential, ':');
    lemma_without_all(seq![credential], handle);
    lemma_without_add(fields.skip(1), seq![credential], handle);
    assert((fields + seq![credential]).skip(1) =~= fields.skip(1) + seq![credential]);
    assert(without(fields.skip(1), handle) + Seq::<Seq<char>>::empty() =~= without(
        fields.skip(1),
        handle,
    ));
    assert(longer =~= line + (seq![':'] + credential));
    lemma_owned_longer(line, seq![':'] + credential, user);
}

/// Lines that each come back come back together.
proof fn lemma_lines_come_back(
    lines: Seq<Seq<char>>,
    before: Seq<Seq<char>>,
    user: Seq<char>,
    handle: Seq<char>,
)
    requires
        lines.len() == before.len(),
        forall|i: int|
            0 <= i < lines.len() ==> line_without(#[trigger] lines[i], user, handle) == Some(
                before[i],
            ),
    ensures
        keys_without(lines, user, handle) == before,
    decreases lines.len(),
{
    if lines.len() > 0 {
        let init = lines.drop_last();
        assert forall|i: int| 0 <= i < init.len() implies line_without(
            #[trigger] init[i],
            user,
            handle,
        ) == Some(before.drop_last()[i]) by {
            assert(init[i] == lines[i]);
        }
        lemma_lines_come_back(init, before.drop_last(), user, handle);
        assert(line_without(lines[lines.len() - 1], user, handle) == Some(before.last()));
        assert(before.drop_last().push(before.last()) =~= before);
    } else {
        assert(before =~= Seq::empty());
    }
}

/// The lines of the credentials come back.
proof fn lemma_keys_come_back(
    lines: Seq<Seq<char>>,
    user: Seq<char>,
    credential: Seq<char>,
    handle: Seq<char>,
)
    requires
        !credential.contains(':'),
        head_of(credential) == handle,
        is_unused(lines, user, handle),
        has_line(lines, user) || goes_with(user, handle),
    ensures
        keys_without(with_credential(lines, user, seq![':'] + credential), user, handle) == lines,
{
    let after = with_credential(lines, user, seq![':'] + credential);
    let at = line_position(lines, 0, owner_prefix(user));
    lemma_line_position(lines, 0, owner_prefix(user));
    lemma_stored_line(lines, user, credential);
    assert forall|i: int| 0 <= i < lines.len() implies line_without(
        #[trigger] lines[i],
        user,
        handle,
    ) == Some(lines[i]) by {
        lemma_line_stays(lines[i], user, handle);
    }
    if at < lines.len() {
        assert forall|i: int| 0 <= i < after.len() implies line_without(
            #[trigger] after[i],
            user,
            handle,
        ) == Some(lines[i]) by {
            if i == at {
                lemma_line_comes_back(lines[at], user, credential, handle);
            } else {
                assert(after[i] == lines[i]);
            }
        }
        lemma_lines_come_back(after, lines, user, handle);
    } else {
        let line = after[at];
        let names = split_of(user, ':');
        assert(!has_line(lines, user));
        lemma_split_of_add(user, credential, ':');
        lemma_split_of_one(credential, ':');
        lemma_split_of_lack(user, ':', ':');
        let credentials = split_of(line, ':').skip(1);
        assert forall|j: int| 0 <= j < credentials.len() implies head_of(
            #[trigger] credentials[j],
        ) == handle by {
            if j + 1 < names.len() {
                assert(credentials[j] == names[j + 1]);
            } else {
                assert(credentials[j] == credential);
            }
        }
        lemma_without_all(credentials, handle);
        assert(after.drop_last() =~= lines);
        lemma_lines_come_back(lines, lines, user, handle);
    }
}

/// No line is taken where none names the handle.
proof fn lemma_names_without_none(lines: Seq<Seq<char>>, user: Seq<char>, handle: Seq<char>)
    requires
        found_name(lines, user, handle) is None,
    ensures
        names_without(lines, user, handle) == lines,
    decreases lines.len(),
{
    if lines.len() > 0 {
        lemma_names_without_none(lines.drop_last(), user, handle);
        assert(lines.drop_last().push(lines.last()) =~= lines);
    }
}

/// Storing a credential and removing its handle brings back the text of both files: every
/// other credential, user and name is kept in order, and a user left with no credential has
/// no line; where the handle was none of the user's, and was not named, before. A user whose
/// name has a colon has to have had a line.
pub proof fn law_removing_restores_the_files(
    keys: Seq<char>,
    names: Seq<char>,
    user: Seq<char>,
    credential: Seq<char>,
    name: Seq<char>,
)
    requires
        is_tidy(keys),
        is_tidy(names),
        can_store(user, credential),
        !user.contains('\t'),
        !head_of(credential).contains('\t'),
        is_name(name),
        is_unused(lines_of(keys), user, head_of(credential)),
        !user.contains(':') || has_line(lines_of(keys), user) || goes_with(
            user,
            head_of(credential),
        ),
        name_from(lines_of(names), 0, user, head_of(credential)) is None,
    ensures
        removed_keys(
            stored_keys(keys, user, seq![':'] + credential),
            user,
            head_of(credential),
        ) == keys,
        removed_names(
            stored_names(names, user, handle_of(seq![':'] + credential), name),
            user,
            head_of(credential),
        ) == names,
{
    let handle = head_of(credential);
    let short = chomp(credential);
    let before = lines_of(keys);
    let after = with_credential(before, user, seq![':'] + credential);
    let at = line_position(before, 0, owner_prefix(user));
    lemma_unlines_of_lines(keys);
    lemma_nonblank_all(before);
    lemma_credential(credential);
    lemma_stored_line(before, user, credential);
    lemma_stored_line(before, user, short);
    lemma_lines_of_unbroken(keys);
    lemma_stored_unbroken(before, user, credential);
    lemma_nonblank_all(after);
    lemma_written(after);
    assert forall|i: int| 0 <= i < after.len() implies chomped(after)[i] == with_credential(
        before,
        user,
        seq![':'] + short,
    )[i] by {
        if i != at {
            assert(after[i] == before[i]);
            assert(is_line(before[i]));
        }
    }
    assert(chomped(after) =~= with_credential(before, user, seq![':'] + short));
    if !user.contains(':') {
        lemma_split_of_one(user, ':');
    }
    lemma_keys_come_back(before, user, short, handle);

    let lines = lines_of(names);
    let line = name_line(user, handle, name);
    lemma_handle_of(credential);
    lemma_head_lacks(credential, '\n');
    lemma_unlines_of_lines(names);
    lemma_nonblank_all(lines);
    lemma_stored_names(names, user, handle, name);
    assert forall|i: int| 0 <= i < lines.len() implies chomped(lines)[i] == lines[i] by {
        assert(is_line(lines[i]));
    }
    assert(chomped(lines) =~= lines);
    lemma_name_line(user, handle, name, user, handle);
    lemma_found_name(lines, user, handle);
    lemma_names_without_none(lines, user, handle);
    assert(lines.push(line).drop_last() =~= lines);
}

// ---------------------------------------------------------------------------
// What the files say
// ---------------------------------------------------------------------------

/// The handle of a credential is what stands before its first comma, or all of it.
pub proof fn law_handle_ends_at_the_comma(handle: Seq<char>, rest: Seq<char>)
    requires
        !handle.contains(','),
    ensures
        head_of(handle) == handle,
        head_of(handle.push(',') + rest) == handle,
{
    let whole = handle.push(',') + rest;
    assert forall|k: int| 0 <= k < handle.len() implies handle[k] != ',' && whole[k] != ',' by {
        assert(handle.contains(handle[k]));
    }
    lemma_position_is(handle, 0, ',', handle.len() as int);
    lemma_position_is(whole, 0, ',', handle.len() as int);
    assert(whole.take(handle.len() as int) =~= handle);
    assert(handle.take(handle.len() as int) =~= handle);
}

/// The handles of credentials are those of all that have one, in their order.
pub proof fn law_handles_are_in_order(credentials: Seq<Seq<char>>)
    ensures
        heads_of(credentials) == credentials.map_values(
            |credential: Seq<char>| head_of(credential),
        ).filter(|handle: Seq<char>| handle.len() > 0),
    decreases credentials.len(),
{
    reveal(Seq::filter);
    let heads = credentials.map_values(|credential: Seq<char>| head_of(credential));
    if credentials.len() > 0 {
        let init = credentials.drop_last();
        law_handles_are_in_order(init);
        assert(heads.drop_last() =~= init.map_values(|credential: Seq<char>| head_of(credential)));
        assert(heads.last() == head_of(credentials.last()));
    } else {
        assert(heads_of(credentials) =~= heads.filter(|handle: Seq<char>| handle.len() > 0));
    }
}

/// A user's handles are read from the first line that begins with the user's name and a colon: of
/// all the credentials that stand there with colons between. Other lines do not matter.
pub proof fn law_handles_are_read(
    before: Seq<Seq<char>>,
    user: Seq<char>,
    credentials: Seq<Seq<char>>,
    behind: Seq<Seq<char>>,
)
    requires
        are_lines(before),
        are_lines(behind),
        are_lines(credentials),
        credentials.len() > 0,
        !user.contains('\n'),
        forall|i: int| 0 <= i < credentials.len() ==> !(#[trigger] credentials[i]).contains(':'),
        forall|i: int| 0 <= i < before.len() ==> !user.push(':').is_prefix_of(#[trigger] before[i]),
    ensures
        ({
            let line = user.push(':') + join_of(credentials, seq![':']);
            let text = unlines(before + seq![line] + behind);
            handles_of(text, user) == credentials.map_values(
                |credential: Seq<char>| head_of(credential),
            ).filter(|handle: Seq<char>| handle.len() > 0)
        }),
{
    let joined = join_of(credentials, seq![':']);
    let line = user.push(':') + joined;
    let lines = before + seq![line] + behind;
    assert(is_line(line)) by {
        assert(!seq![':'].contains('\n'));
        assert forall|i: int| 0 <= i < credentials.len() implies !(
        #[trigger] credentials[i]).contains('\n') by {
            assert(is_line(credentials[i]));
        }
        lemma_join_of_lacks(credentials, seq![':'], '\n');
        lemma_lacks(user, seq![':'], '\n');
        assert(user + seq![':'] =~= user.push(':'));
        lemma_lacks(user.push(':'), joined, '\n');
        lemma_joined_end(credentials);
        if joined.len() > 0 {
            assert(line.last() == joined.last());
        } else {
            assert(line.last() == ':');
        }
    }
    assert forall|i: int| 0 <= i < lines.len() implies is_line(#[trigger] lines[i]) by {
        if i < before.len() {
            assert(lines[i] == before[i]);
        } else if i > before.len() {
            assert(lines[i] == behind[i - before.len() - 1]);
        }
    }
    lemma_lines_of_unlines(lines);
    lemma_owns(user, joined);
    assert(lines[before.len() as int] == line);
    assert forall|k: int| 0 <= k < before.len() implies !owner_prefix(user).is_prefix_of(
        #[trigger] lines[k],
    ) by {
        assert(lines[k] == before[k]);
    }
    lemma_line_position_is(lines, owner_prefix(user), before.len() as int);
    lemma_split_of_join(credentials, ':');
    law_handles_are_in_order(credentials);
}

/// Joined credentials end as the last of them does, or with a colon.
proof fn lemma_joined_end(credentials: Seq<Seq<char>>)
    requires
        credentials.len() > 0,
        are_lines(credentials),
    ensures
        ({
            let joined = join_of(credentials, seq![':']);
            joined.len() > 0 ==> joined.last() != '\r'
        }),
{
    let joined = join_of(credentials, seq![':']);
    let last = credentials.last();
    assert(is_line(credentials[credentials.len() - 1]));
    if credentials.len() > 1 {
        let front = join_of(credentials.drop_last(), seq![':']) + seq![':'];
        assert(joined == front + last);
        if last.len() > 0 {
            assert(joined.last() == last.last());
        } else {
            assert(joined.last() == ':');
        }
    }
}

/// Who has no line has no handle, and is not registered.
pub proof fn law_unknown_users_have_nothing(keys: Seq<char>, user: Seq<char>)
    requires
        forall|i: int|
            0 <= i < lines_of(keys).len() ==> !user.push(':').is_prefix_of(
                #[trigger] lines_of(keys)[i],
            ),
    ensures
        handles_of(keys, user) == Seq::<Seq<char>>::empty(),
        !registered(lines_of(keys), user),
{
    lemma_line_position_is(lines_of(keys), owner_prefix(user), lines_of(keys).len() as int);
    lemma_no_heads();
}

/// A user is registered by any line that has something behind the user's name and a colon, and by
/// none else.
pub proof fn law_registered_users(
    lines: Seq<Seq<char>>,
    user: Seq<char>,
    rest: Seq<char>,
    i: int,
)
    ensures
        0 <= i < lines.len() && lines[i] == user.push(':') + rest && rest.len() > 0 ==> registered(
            lines,
            user,
        ),
        registered(lines, user) ==> exists|k: int|
            0 <= k < lines.len() && (#[trigger] lines[k]).len() > user.len() + 1 && lines[k].take(
                user.len() as int + 1,
            ) == user.push(':'),
{
    if 0 <= i < lines.len() && lines[i] == user.push(':') + rest {
        lemma_owns(user, rest);
        assert(owned(lines[i], user));
    }
    if registered(lines, user) {
        let k = choose|k: int|
            0 <= k < lines.len() && owned(#[trigger] lines[k], user) && lines[k].len()
                > owner_prefix(user).len();
        assert(lines[k].take(user.len() as int + 1) =~= user.push(':'));
    }
}

/// A line of the names gives a name to one user's handle: it has the user, a tab, the handle, a
/// tab and the name, which may have tabs itself. Without the second tab the name is empty.
pub proof fn law_lines_of_names(
    user: Seq<char>,
    handle: Seq<char>,
    name: Seq<char>,
    asked: Seq<char>,
    which: Seq<char>,
)
    requires
        !user.contains('\t'),
        !handle.contains('\t'),
    ensures
        name_on(user.push('\t') + handle.push('\t') + name, asked, which) == (if asked == user
            && which == handle {
            Some(name)
        } else {
            None
        }),
        name_on(user.push('\t') + handle, asked, which) == (if asked == user && which == handle {
            Some(Seq::<char>::empty())
        } else {
            None
        }),
        name_on(user, asked, which) is None,
{
    lemma_name_line(user, handle, name, asked, which);
    let line = user.push('\t') + handle;
    assert forall|k: int| 0 <= k < user.len() implies line[k] != '\t' && user[k] != '\t' by {
        assert(user.contains(user[k]));
    }
    assert forall|k: int| 0 <= k < handle.len() implies handle[k] != '\t' by {
        assert(handle.contains(handle[k]));
    }
    lemma_position_is(line, 0, '\t', user.len() as int);
    lemma_position_is(user, 0, '\t', user.len() as int);
    lemma_position_is(handle, 0, '\t', handle.len() as int);
    assert(line.take(user.len() as int) =~= user);
    assert(line.skip(user.len() as int + 1) =~= handle);
    assert(handle.take(handle.len() as int) =~= handle);
}

/// What a credential is called: the name on the first line about it, where that is not empty; and
/// else, counted from one, its number.
pub proof fn law_first_name_counts(
    lines: Seq<Seq<char>>,
    user: Seq<char>,
    handle: Seq<char>,
    index: nat,
    k: int,
)
    ensures
        0 <= k < lines.len() && name_on(lines[k], user, handle) is Some && (forall|j: int|
            0 <= j < k ==> name_on(#[trigger] lines[j], user, handle) is None) ==> name_of(
            lines,
            user,
            handle,
            index as int,
        ) == (if (name_on(lines[k], user, handle)->0).len() > 0 {
            name_on(lines[k], user, handle)->0
        } else {
            "Android device "@ + decimal_of(index + 1)
        }),
        (forall|j: int| 0 <= j < lines.len() ==> name_on(#[trigger] lines[j], user, handle) is None)
            ==> name_of(lines, user, handle, index as int) == "Android device "@ + decimal_of(
            index + 1,
        ),
{
    lemma_name_from_first(lines, user, handle, 0, k);
    if forall|j: int| 0 <= j < lines.len() ==> name_on(#[trigger] lines[j], user, handle) is None {
        lemma_name_from_none(lines, user, handle, 0);
    }
}

/// The first line about a handle gives its name.
proof fn lemma_name_from_first(
    lines: Seq<Seq<char>>,
    user: Seq<char>,
    handle: Seq<char>,
    from: int,
    k: int,
)
    requires
        0 <= from,
    ensures
        from <= k < lines.len() && name_on(lines[k], user, handle) is Some && (forall|j: int|
            from <= j < k ==> name_on(#[trigger] lines[j], user, handle) is None) ==> name_from(
            lines,
            from,
            user,
            handle,
        ) == name_on(lines[k], user, handle),
    decreases lines.len() - from,
{
    if from < k < lines.len() {
        lemma_name_from_first(lines, user, handle, from + 1, k);
    }
}

/// No line about a handle gives no name.
proof fn lemma_name_from_none(lines: Seq<Seq<char>>, user: Seq<char>, handle: Seq<char>, from: int)
    requires
        0 <= from,
        forall|j: int|
            from <= j < lines.len() ==> name_on(#[trigger] lines[j], user, handle) is None,
    ensures
        name_from(lines, from, user, handle) is None,
    decreases lines.len() - from,
{
    if from < lines.len() {
        lemma_name_from_none(lines, user, handle, from + 1);
    }
}

/// Each credential of a user has a name in the list, in the order of the credentials.
pub proof fn law_every_credential_is_listed(keys: Seq<char>, names: Seq<char>, user: Seq<char>, i: int)
    ensures
        names_of(keys, names, user).len() == handles_of(keys, user).len(),
        0 <= i < handles_of(keys, user).len() ==> names_of(keys, names, user)[i] == name_of(
            lines_of(names),
            user,
            handles_of(keys, user)[i],
            i,
        ),
{
}

/// A registration is read from two lines: the first has to begin with a colon, and the second to
/// have no tab or carriage return in it; what follows them does not matter.
pub proof fn law_registrations_are_read(
    credential: Seq<char>,
    name: Seq<char>,
    more: Seq<char>,
)
    requires
        is_line(credential),
        is_line(name),
    ensures
        registration_of(credential.push('\n') + (name.push('\n') + more)) == (if credential.len() > 0
            && credential[0] == ':' && !name.contains('\t') && !name.contains('\r') {
            Ok((credential, name))
        } else {
            Err(StoreError::Invalid)
        }),
        registration_of(credential.push('\n')) == Err::<(Seq<char>, Seq<char>), StoreError>(
            StoreError::MissingName,
        ),
        registration_of(Seq::empty()) == Err::<(Seq<char>, Seq<char>), StoreError>(
            StoreError::MissingCredential,
        ),
{
    let rest = name.push('\n') + more;
    lemma_lines_of_cons(credential, rest);
    lemma_lines_of_cons(name, more);
    lemma_lines_of_cons(credential, Seq::empty());
    assert(credential.push('\n') + Seq::<char>::empty() =~= credential.push('\n'));
    let lines = lines_of(credential.push('\n') + rest);
    assert(lines[0] == credential && lines[1] == name);
}

/// Removing a handle leaves every line that is not its user's, in the order they had.
pub proof fn law_removing_leaves_other_lines(
    lines: Seq<Seq<char>>,
    user: Seq<char>,
    handle: Seq<char>,
)
    requires
        !user.contains(':'),
    ensures
        keys_without(lines, user, handle).filter(|line: Seq<char>| !owned(line, user))
            == lines.filter(|line: Seq<char>| !owned(line, user)),
    decreases lines.len(),
{
    reveal(Seq::filter);
    let p = |line: Seq<char>| !owned(line, user);
    if lines.len() > 0 {
        let init = lines.drop_last();
        let before = keys_without(init, user, handle);
        law_removing_leaves_other_lines(init, user, handle);
        let last = lines.last();
        if owned(last, user) {
            lemma_split_of_one(user, ':');
            lemma_line_without(last, user, handle);
            lemma_owned_line(last, user);
            assert(split_of(last, ':').skip(1) =~= split_of(
                last.skip(owner_prefix(user).len() as int),
                ':',
            ));
        }
        if let Some(kept) = line_without(last, user, handle) {
            assert(before.push(kept).drop_last() =~= before);
        }
    } else {
        assert(keys_without(lines, user, handle).filter(p) =~= lines.filter(p));
    }
}

/// Removing a handle takes the lines that name it for its user, and leaves all others in the
/// order they had.
pub proof fn law_removing_leaves_other_names(
    lines: Seq<Seq<char>>,
    user: Seq<char>,
    handle: Seq<char>,
)
    ensures
        names_without(lines, user, handle) == lines.filter(
            |line: Seq<char>| name_on(line, user, handle) is None,
        ),
    decreases lines.len(),
{
    reveal(Seq::filter);
    if lines.len() > 0 {
        law_removing_leaves_other_names(lines.drop_last(), user, handle);
    } else {
        assert(names_without(lines, user, handle) =~= lines.filter(
            |line: Seq<char>| name_on(line, user, handle) is None,
        ));
    }
}

/// Of a user's line the credentials that have another handle are left, in their order, behind the
/// name; and nothing is left where there is none.
pub proof fn law_credentials_that_are_left(
    user: Seq<char>,
    credentials: Seq<Seq<char>>,
    handle: Seq<char>,
)
    requires
        !user.contains(':'),
        credentials.len() > 0,
        forall|i: int| 0 <= i < credentials.len() ==> !(#[trigger] credentials[i]).contains(':'),
    ensures
        ({
            let left = credentials.filter(
                |credential: Seq<char>| head_of(credential) != handle,
            );
            line_without(user.push(':') + join_of(credentials, seq![':']), user, handle) == (
            if left.len() == 0 {
                None
            } else {
                Some(user.push(':') + join_of(left, seq![':']))
            })
        }),
{
    let joined = join_of(credentials, seq![':']);
    lemma_owns(user, joined);
    lemma_split_of_join(credentials, ':');
    lemma_split_of_cons(user, joined, ':');
    assert((seq![user] + credentials).skip(1) =~= credentials);
    lemma_without_filter(credentials, handle);
}

/// The credentials with another handle.
proof fn lemma_without_filter(credentials: Seq<Seq<char>>, handle: Seq<char>)
    ensures
        without(credentials, handle) == credentials.filter(
            |credential: Seq<char>| head_of(credential) != handle,
        ),
    decreases credentials.len(),
{
    reveal(Seq::filter);
    if credentials.len() > 0 {
        lemma_without_filter(credentials.drop_last(), handle);
    } else {
        assert(without(credentials, handle) =~= credentials.filter(
            |credential: Seq<char>| head_of(credential) != handle,
        ));
    }
}

/// A credential that is stored goes behind the first line that is its user's, and on a line of
/// its own, the last, where there is none; every other line stays.
pub proof fn law_where_a_credential_is_stored(
    before: Seq<Seq<char>>,
    user: Seq<char>,
    rest: Seq<char>,
    behind: Seq<Seq<char>>,
    added: Seq<char>,
)
    requires
        forall|i: int| 0 <= i < before.len() ==> !user.push(':').is_prefix_of(#[trigger] before[i]),
    ensures
        with_credential(before + seq![user.push(':') + rest] + behind, user, added) == before + seq![
            user.push(':') + rest + added,
        ] + behind,
        with_credential(before, user, added) == before + seq![user + added],
{
    let line = user.push(':') + rest;
    let lines = before + seq![line] + behind;
    lemma_owns(user, rest);
    assert(lines[before.len() as int] == line);
    assert forall|k: int| 0 <= k < before.len() implies !owner_prefix(user).is_prefix_of(
        #[trigger] lines[k],
    ) by {
        assert(lines[k] == before[k]);
    }
    lemma_line_position_is(lines, owner_prefix(user), before.len() as int);
    lemma_line_position_is(before, owner_prefix(user), before.len() as int);
    assert(with_credential(lines, user, added) =~= before + seq![line + added] + behind);
    assert(with_credential(before, user, added) =~= before + seq![user + added]);
}

/// Lines are written as a file without the empty ones, the others in their order.
pub proof fn law_empty_lines_are_left_out(lines: Seq<Seq<char>>)
    ensures
        nonblank(lines) == lines.filter(|line: Seq<char>| line.len() > 0),
    decreases lines.len(),
{
    reveal(Seq::filter);
    if lines.len() > 0 {
        law_empty_lines_are_left_out(lines.drop_last());
    } else {
        assert(nonblank(lines) =~= lines.filter(|line: Seq<char>| line.len() > 0));
    }
}

/// The handle of what is stored is behind all the colons at its start, and before its first comma.
pub proof fn law_handle_is_behind_the_colons(count: nat, handle: Seq<char>, rest: Seq<char>)
    requires
        !handle.contains(','),
        handle.len() > 0 ==> handle[0] != ':',
    ensures
        handle_of(Seq::new(count, |i: int| ':') + (handle.push(',') + rest)) == handle,
{
    let front = Seq::new(count, |i: int| ':');
    let credential = handle.push(',') + rest;
    let whole = front + credential;
    assert(whole[count as int] == credential[0]);
    lemma_colons(whole, 0, count as int);
    assert(whole.skip(count as int) =~= credential);
    law_handle_ends_at_the_comma(handle, rest);
}

/// Where the colons at the start end.
proof fn lemma_colons(s: Seq<char>, from: int, end: int)
    requires
        0 <= from <= end <= s.len(),
        forall|k: int| from <= k < end ==> s[k] == ':',
        end < s.len() ==> s[end] != ':',
    ensures
        colons(s, from) == end,
    decreases end - from,
{
    if from < end {
        lemma_colons(s, from + 1, end);
    }
}

/// A name is stored on a line of its own, the last: the user, a tab, the handle, a tab, the name. The
/// other lines stay, in their order, but for empty ones.
pub proof fn law_where_a_name_is_stored(
    names: Seq<char>,
    user: Seq<char>,
    handle: Seq<char>,
    name: Seq<char>,
)
    ensures
        stored_names(names, user, handle, name) == unlines(
            lines_of(names).filter(|line: Seq<char>| line.len() > 0),
        ) + user + seq!['\t'] + handle + seq!['\t'] + name + seq!['\n'],
{
    let kept = nonblank(lines_of(names));
    law_empty_lines_are_left_out(lines_of(names));
    law_writing_lines(kept, name_line(user, handle, name));
    assert(stored_names(names, user, handle, name) =~= unlines(kept) + user + seq!['\t'] + handle
        + seq!['\t'] + name + seq!['\n']);
}

/// What is removed from a file, or stored in it, leaves no empty line in it.
pub proof fn law_files_have_no_empty_lines(
    file: Seq<char>,
    user: Seq<char>,
    credential: Seq<char>,
    handle: Seq<char>,
)
    requires
        user.len() > 0,
    ensures
        stored_keys(file, user, credential) == unlines(
            with_credential(
                lines_of(file).filter(|line: Seq<char>| line.len() > 0),
                user,
                credential,
            ),
        ),
        removed_keys(file, user, handle) == unlines(
            keys_without(lines_of(file), user, handle).filter(|line: Seq<char>| line.len() > 0),
        ),
        removed_names(file, user, handle) == unlines(
            names_without(lines_of(file), user, handle).filter(|line: Seq<char>| line.len() > 0),
        ),
{
    let lines = nonblank(lines_of(file));
    law_empty_lines_are_left_out(lines_of(file));
    law_empty_lines_are_left_out(keys_without(lines_of(file), user, handle));
    law_empty_lines_are_left_out(names_without(lines_of(file), user, handle));
    lemma_nonblank(lines_of(file));
    let stored = with_credential(lines, user, credential);
    assert forall|i: int| 0 <= i < stored.len() implies (#[trigger] stored[i]).len() > 0 by {
        if i < lines.len() {
            assert(lines[i].len() > 0);
        }
    }
    lemma_nonblank_all(stored);
}

} // verus!
