//! The registered credentials: who has which, and what they are called.

use vstd::prelude::*;
use vstd::string::*;

use crate::number::{decimal, decimal_of};
use crate::text::{
    begins, chars_of, contains_char, index_of, join, join_of, lines, lines_of, opt_view, position,
    same, split, split_of, starts_with, string_of, strip_prefix, unlines,
};

verus! {

/// Something that has a text.
pub trait AsText {
    /// The text.
    spec fn text(&self) -> Seq<char>;

    /// The text.
    fn as_text(&self) -> (text: &str)
        ensures
            text@ == self.text(),
    ;
}

impl<'a> AsText for &'a str {
    open spec fn text(&self) -> Seq<char> {
        self@
    }

    fn as_text(&self) -> (text: &str) {
        self
    }
}

impl AsText for String {
    open spec fn text(&self) -> Seq<char> {
        self@
    }

    fn as_text(&self) -> (text: &str) {
        self.as_str()
    }
}

/// The texts of things that have one.
pub open spec fn texts_of<S: AsText>(things: Seq<S>) -> Seq<Seq<char>> {
    things.map_values(|thing: S| thing.text())
}

/// The lines that are not empty.
pub open spec fn nonblank(lines: Seq<Seq<char>>) -> Seq<Seq<char>>
    decreases lines.len(),
{
    if lines.len() == 0 {
        Seq::empty()
    } else if lines.last().len() == 0 {
        nonblank(lines.drop_last())
    } else {
        nonblank(lines.drop_last()).push(lines.last())
    }
}

/// Lines as a file: one per line, no blank ones, empty when there are none.
pub fn lines_file<S: AsText>(lines: &[S]) -> (text: String)
    ensures
        text@ == unlines(nonblank(texts_of(lines@))),
{
    let ghost all = texts_of(lines@);
    let mut text = String::new();
    let mut i: usize = 0;
    assert(all.take(0) =~= Seq::empty());
    while i < lines.len()
        invariant
            all == texts_of(lines@),
            i <= lines@.len(),
            text@ == unlines(nonblank(all.take(i as int))),
        decreases lines@.len() - i,
    {
        let line = lines[i].as_text();
        let ghost before = text@;
        proof {
            assert(all.take(i + 1).drop_last() =~= all.take(i as int));
            assert(all.take(i + 1).last() == line@);
        }
        if !line.is_empty() {
            text.append(line);
            text.push('\n');
            proof {
                let kept = nonblank(all.take(i as int));
                assert(kept.push(line@).drop_last() =~= kept);
                assert(text@ =~= before + line@.push('\n'));
            }
        }
        i = i + 1;
    }
    assert(all.take(i as int) =~= all);
    text
}

/// The first position of a line with a prefix, or the number of lines.
pub open spec fn line_position(lines: Seq<Seq<char>>, from: int, prefix: Seq<char>) -> int
    decreases lines.len() - from,
{
    if from >= lines.len() || prefix.is_prefix_of(lines[from]) {
        from
    } else {
        line_position(lines, from + 1, prefix)
    }
}

/// What the lines of a user's credentials begin with.
pub open spec fn owner_prefix(user: Seq<char>) -> Seq<char> {
    user.push(':')
}

/// The credentials of a user: what follows the user's name on the first line that begins
/// with it.
pub open spec fn credentials_in(lines: Seq<Seq<char>>, user: Seq<char>) -> Seq<char> {
    let at = line_position(lines, 0, owner_prefix(user));
    if 0 <= at < lines.len() {
        lines[at].skip(owner_prefix(user).len() as int)
    } else {
        Seq::empty()
    }
}

/// The handle of a credential: what stands before its first comma.
pub open spec fn head_of(credential: Seq<char>) -> Seq<char> {
    credential.take(position(credential, 0, ','))
}

/// The handles of credentials that have one.
pub open spec fn heads_of(credentials: Seq<Seq<char>>) -> Seq<Seq<char>>
    decreases credentials.len(),
{
    if credentials.len() == 0 {
        Seq::empty()
    } else {
        let before = heads_of(credentials.drop_last());
        let head = head_of(credentials.last());
        if head.len() == 0 {
            before
        } else {
            before.push(head)
        }
    }
}

/// The handles of a user's credentials.
pub open spec fn handles_of(keys: Seq<char>, user: Seq<char>) -> Seq<Seq<char>> {
    heads_of(split_of(credentials_in(lines_of(keys), user), ':'))
}

/// What a user's lines begin with.
fn owner(user: &str) -> (prefix: String)
    ensures
        prefix@ == owner_prefix(user@),
{
    let mut prefix = user.to_string();
    prefix.push(':');
    prefix
}

/// The handle of a credential.
fn head(credential: &str) -> (handle: String)
    ensures
        handle@ == head_of(credential@),
{
    let chars = chars_of(credential);
    let end = index_of(chars.as_slice(), 0, ',');
    assert(chars@.subrange(0, end as int) =~= chars@.take(end as int));
    string_of(chars.as_slice(), 0, end)
}

/// The first position of a line with a prefix, or the number of lines.
fn find_line(lines: &Vec<String>, prefix: &str) -> (at: usize)
    ensures
        at == line_position(lines.deep_view(), 0, prefix@),
        at <= lines@.len(),
        at < lines@.len() ==> prefix@.is_prefix_of(lines@[at as int]@),
{
    let mut i: usize = 0;
    while i < lines.len()
        invariant
            i <= lines@.len(),
            line_position(lines.deep_view(), 0, prefix@) == line_position(
                lines.deep_view(),
                i as int,
                prefix@,
            ),
        decreases lines@.len() - i,
    {
        assert(lines.deep_view()[i as int] == lines@[i as int]@);
        if starts_with(lines[i].as_str(), prefix) {
            return i;
        }
        i = i + 1;
    }
    i
}

/// The handles of a user's credentials.
pub fn handles_for(keys: &str, user: &str) -> (handles: Vec<String>)
    ensures
        handles.deep_view() == handles_of(keys@, user@),
{
    let all = lines(keys);
    let prefix = owner(user);
    let at = find_line(&all, prefix.as_str());
    let rest = if at < all.len() {
        assert(all.deep_view()[at as int] == all@[at as int]@);
        match strip_prefix(all[at].as_str(), prefix.as_str()) {
            Some(rest) => rest,
            None => String::new(),
        }
    } else {
        String::new()
    };
    assert(rest@ == credentials_in(lines_of(keys@), user@));
    let fields = split(rest.as_str(), ':');
    let ghost all_fields = fields.deep_view();
    let mut handles: Vec<String> = Vec::new();
    let mut i: usize = 0;
    assert(handles.deep_view() =~= Seq::empty());
    while i < fields.len()
        invariant
            all_fields == fields.deep_view(),
            i <= fields@.len(),
            handles.deep_view() == heads_of(all_fields.take(i as int)),
        decreases fields@.len() - i,
    {
        let handle = head(fields[i].as_str());
        let ghost before = handles.deep_view();
        proof {
            assert(all_fields.take(i + 1).drop_last() =~= all_fields.take(i as int));
            assert(all_fields.take(i + 1).last() == fields@[i as int]@);
        }
        if !handle.as_str().is_empty() {
            handles.push(handle);
            assert(handles.deep_view() =~= before.push(handle@));
        }
        i = i + 1;
    }
    assert(all_fields.take(i as int) =~= all_fields);
    handles
}

/// The name that a line gives to a user's handle, if it is about that: the line has the
/// user, the handle and the name, with tabs between.
pub open spec fn name_on(line: Seq<char>, user: Seq<char>, handle: Seq<char>) -> Option<Seq<char>> {
    let first = position(line, 0, '\t');
    let rest = line.skip(first + 1);
    let second = position(rest, 0, '\t');
    if first >= line.len() || line.take(first) != user || rest.take(second) != handle {
        None
    } else if second >= rest.len() {
        Some(Seq::empty())
    } else {
        Some(rest.skip(second + 1))
    }
}

/// The name that the first of the lines, from a position on, gives to a user's handle.
pub open spec fn name_from(
    lines: Seq<Seq<char>>,
    from: int,
    user: Seq<char>,
    handle: Seq<char>,
) -> Option<Seq<char>>
    decreases lines.len() - from,
{
    if from >= lines.len() {
        None
    } else if name_on(lines[from], user, handle) is Some {
        name_on(lines[from], user, handle)
    } else {
        name_from(lines, from + 1, user, handle)
    }
}

/// What the credential number `index` of a user is called: the name that was given to its
/// handle, or else its number.
pub open spec fn name_of(
    lines: Seq<Seq<char>>,
    user: Seq<char>,
    handle: Seq<char>,
    index: int,
) -> Seq<char> {
    match name_from(lines, 0, user, handle) {
        Some(name) if name.len() > 0 => name,
        _ => "Android device "@ + decimal_of((index + 1) as nat),
    }
}

/// What a user's credentials are called, in the order of their handles.
pub open spec fn names_of(keys: Seq<char>, names: Seq<char>, user: Seq<char>) -> Seq<Seq<char>> {
    let handles = handles_of(keys, user);
    Seq::new(handles.len(), |i: int| name_of(lines_of(names), user, handles[i], i))
}

/// The name that a line gives to a user's handle.
fn line_name(line: &str, user: &str, handle: &str) -> (name: Option<String>)
    ensures
        opt_view(name) == name_on(line@, user@, handle@),
{
    let chars = chars_of(line);
    let first = index_of(chars.as_slice(), 0, '\t');
    if first == chars.len() {
        return None;
    }
    let owner = string_of(chars.as_slice(), 0, first);
    let rest = chars_of(string_of(chars.as_slice(), first + 1, chars.len()).as_str());
    let second = index_of(rest.as_slice(), 0, '\t');
    let found = string_of(rest.as_slice(), 0, second);
    proof {
        assert(owner@ =~= line@.take(first as int));
        assert(rest@ =~= line@.skip(first + 1));
        assert(found@ =~= rest@.take(second as int));
    }
    if !same(owner.as_str(), user) || !same(found.as_str(), handle) {
        return None;
    }
    if second == rest.len() {
        let name = String::new();
        return Some(name);
    }
    let name = string_of(rest.as_slice(), second + 1, rest.len());
    assert(name@ =~= rest@.skip(second + 1));
    Some(name)
}

/// What a user's credentials are called, in the order of their handles.
pub fn names_for(keys: &str, names: &str, user: &str) -> (found: Vec<String>)
    ensures
        found.deep_view() == names_of(keys@, names@, user@),
        found@.len() == handles_of(keys@, user@).len(),
{
    let handles = handles_for(keys, user);
    let all = lines(names);
    let mut found: Vec<String> = Vec::new();
    let mut i: usize = 0;
    while i < handles.len()
        invariant
            handles.deep_view() == handles_of(keys@, user@),
            all.deep_view() == lines_of(names@),
            i <= handles@.len(),
            found@.len() == i,
            forall|k: int|
                0 <= k < i ==> (#[trigger] found@[k])@ == name_of(
                    lines_of(names@),
                    user@,
                    handles_of(keys@, user@)[k],
                    k,
                ),
        decreases handles@.len() - i,
    {
        let handle = handles[i].as_str();
        assert(handles_of(keys@, user@)[i as int] == handle@);
        let mut name = String::new();
        let mut k: usize = 0;
        let mut open = true;
        while open && k < all.len()
            invariant
                all.deep_view() == lines_of(names@),
                k <= all@.len(),
                open ==> name@.len() == 0 && name_from(lines_of(names@), 0, user@, handle@)
                    == name_from(lines_of(names@), k as int, user@, handle@),
                !open ==> name_from(lines_of(names@), 0, user@, handle@) == Some(name@),
            decreases all@.len() - k,
        {
            assert(lines_of(names@)[k as int] == all@[k as int]@);
            if let Some(given) = line_name(all[k].as_str(), user, handle) {
                name = given;
                open = false;
            }
            k = k + 1;
        }
        if name.as_str().is_empty() {
            name = "Android device ".to_string();
            name.append(decimal(i as u128 + 1).as_str());
        }
        assert(name@ == name_of(lines_of(names@), user@, handle@, i as int));
        found.push(name);
        i = i + 1;
    }
    assert(found.deep_view() =~= names_of(keys@, names@, user@));
    found
}

/// The name of a line that begins with a user's name and a colon.
pub open spec fn owned(line: Seq<char>, user: Seq<char>) -> bool {
    owner_prefix(user).is_prefix_of(line)
}

/// The credentials on one of the lines begin behind `user:` and are not empty.
pub open spec fn registered(lines: Seq<Seq<char>>, user: Seq<char>) -> bool {
    exists|i: int|
        0 <= i < lines.len() && owned(#[trigger] lines[i], user) && lines[i].len() > owner_prefix(
            user,
        ).len()
}

/// Whether a user has a credential: a line begins with the user's name and a colon, and
/// something follows.
pub fn user_registered(keys: &str, user: &str) -> (found: bool)
    ensures
        found == registered(lines_of(keys@), user@),
{
    let all = lines(keys);
    let prefix = owner(user);
    let mut i: usize = 0;
    while i < all.len()
        invariant
            all.deep_view() == lines_of(keys@),
            prefix@ == owner_prefix(user@),
            i <= all@.len(),
            forall|k: int|
                0 <= k < i ==> !(owned(#[trigger] lines_of(keys@)[k], user@) && lines_of(
                    keys@,
                )[k].len() > owner_prefix(user@).len()),
        decreases all@.len() - i,
    {
        assert(lines_of(keys@)[i as int] == all@[i as int]@);
        if let Some(credentials) = strip_prefix(all[i].as_str(), prefix.as_str()) {
            if !credentials.as_str().is_empty() {
                return true;
            }
        }
        i = i + 1;
    }
    false
}

// ---------------------------------------------------------------------------
// Registering a credential
// ---------------------------------------------------------------------------

/// Why a registration is refused.
#[derive(Debug, Clone, Copy, PartialEq, Eq, Structural)]
pub enum StoreError {
    /// There is no line with a credential.
    MissingCredential,
    /// There is no line with a name.
    MissingName,
    /// The credential does not begin with a colon, or the name cannot be kept.
    Invalid,
}

impl StoreError {
    /// What is said of it.
    pub open spec fn text(self) -> Seq<char> {
        match self {
            StoreError::MissingCredential => "missing credential"@,
            StoreError::MissingName => "missing name"@,
            StoreError::Invalid => "invalid registration data"@,
        }
    }

    /// What is said of it.
    pub fn message(&self) -> (text: &'static str)
        ensures
            text@ == self.text(),
    {
        match self {
            StoreError::MissingCredential => "missing credential",
            StoreError::MissingName => "missing name",
            StoreError::Invalid => "invalid registration data",
        }
    }
}

/// A name can be kept: it has no tab, line feed or carriage return.
pub open spec fn is_name(name: Seq<char>) -> bool {
    !name.contains('\t') && !name.contains('\n') && !name.contains('\r')
}

/// The credential and the name in the text of a registration: its first two lines.
pub open spec fn registration_of(input: Seq<char>) -> Result<(Seq<char>, Seq<char>), StoreError> {
    let lines = lines_of(input);
    if lines.len() == 0 {
        Err(StoreError::MissingCredential)
    } else if lines.len() == 1 {
        Err(StoreError::MissingName)
    } else if !(lines[0].len() > 0 && lines[0][0] == ':') || !is_name(lines[1]) {
        Err(StoreError::Invalid)
    } else {
        Ok((lines[0], lines[1]))
    }
}

/// The first position that holds no colon, or the length.
pub open spec fn colons(s: Seq<char>, from: int) -> int
    decreases s.len() - from,
{
    if from >= s.len() || s[from] != ':' {
        from
    } else {
        colons(s, from + 1)
    }
}

/// The handle in what is registered, where colons stand before the credential.
pub open spec fn handle_of(credential: Seq<char>) -> Seq<char> {
    head_of(credential.skip(colons(credential, 0)))
}

/// The lines of the credentials with one more credential of a user, on the user's line if
/// there is one.
pub open spec fn with_credential(
    lines: Seq<Seq<char>>,
    user: Seq<char>,
    credential: Seq<char>,
) -> Seq<Seq<char>> {
    let at = line_position(lines, 0, owner_prefix(user));
    if 0 <= at < lines.len() {
        lines.update(at, lines[at] + credential)
    } else {
        lines.push(user + credential)
    }
}

/// The line that names a user's handle.
pub open spec fn name_line(user: Seq<char>, handle: Seq<char>, name: Seq<char>) -> Seq<char> {
    user.push('\t') + handle.push('\t') + name
}

/// The file of the credentials with one more.
pub open spec fn stored_keys(keys: Seq<char>, user: Seq<char>, credential: Seq<char>) -> Seq<char> {
    unlines(nonblank(with_credential(nonblank(lines_of(keys)), user, credential)))
}

/// The file of the names with one more.
pub open spec fn stored_names(
    names: Seq<char>,
    user: Seq<char>,
    handle: Seq<char>,
    name: Seq<char>,
) -> Seq<char> {
    unlines(nonblank(lines_of(names)).push(name_line(user, handle, name)))
}

/// The files of the credentials and of their names.
#[derive(Debug)]
pub struct Files {
    /// A line for each user: the name, and each credential behind a colon.
    pub keys: String,
    /// A line for each credential: the user, the handle and the name, with tabs between.
    pub names: String,
}

/// The lines that are not empty.
fn kept_lines(text: &str) -> (kept: Vec<String>)
    ensures
        kept.deep_view() == nonblank(lines_of(text@)),
{
    let all = lines(text);
    let ghost whole = all.deep_view();
    let mut kept: Vec<String> = Vec::new();
    let mut i: usize = 0;
    assert(kept.deep_view() =~= Seq::empty());
    while i < all.len()
        invariant
            whole == all.deep_view(),
            i <= all@.len(),
            kept.deep_view() == nonblank(whole.take(i as int)),
        decreases all@.len() - i,
    {
        let ghost before = kept.deep_view();
        proof {
            assert(whole.take(i + 1).drop_last() =~= whole.take(i as int));
            assert(whole.take(i + 1).last() == all@[i as int]@);
        }
        if !all[i].as_str().is_empty() {
            let line = all[i].as_str().to_string();
            kept.push(line);
            assert(kept.deep_view() =~= before.push(line@));
        }
        i = i + 1;
    }
    assert(whole.take(i as int) =~= whole);
    kept
}

/// What follows the colons that a text begins with.
fn skip_colons(text: &str) -> (rest: String)
    ensures
        rest@ == text@.skip(colons(text@, 0)),
{
    let chars = chars_of(text);
    let mut i: usize = 0;
    while i < chars.len() && chars[i] == ':'
        invariant
            i <= chars@.len(),
            colons(chars@, 0) == colons(chars@, i as int),
        decreases chars@.len() - i,
    {
        i = i + 1;
    }
    assert(chars@.subrange(i as int, chars@.len() as int) =~= chars@.skip(i as int));
    string_of(chars.as_slice(), i, chars.len())
}

/// The files after a user's registration, or why it is refused.
pub fn root_store(input: &str, keys: &str, names: &str, user: &str) -> (files: Result<
    Files,
    StoreError,
>)
    ensures
        files is Ok <==> registration_of(input@) is Ok,
        files matches Err(error) ==> registration_of(input@) == Err::<(Seq<char>, Seq<char>), StoreError>(error),
        files matches Ok(files) ==> {
            let (credential, name) = registration_of(input@)->Ok_0;
            &&& files.keys@ == stored_keys(keys@, user@, credential)
            &&& files.names@ == stored_names(names@, user@, handle_of(credential), name)
        },
{
    let all = lines(input);
    if all.len() == 0 {
        return Err(StoreError::MissingCredential);
    }
    if all.len() == 1 {
        return Err(StoreError::MissingName);
    }
    assert(lines_of(input@)[0] == all@[0]@);
    assert(lines_of(input@)[1] == all@[1]@);
    let credential = all[0].as_str();
    let name = all[1].as_str();
    if !begins(credential, ':') || contains_char(name, '\t') || contains_char(name, '\n')
        || contains_char(name, '\r') {
        return Err(StoreError::Invalid);
    }
    let handle = head(skip_colons(credential).as_str());
    let mut key_lines = kept_lines(keys);
    let prefix = owner(user);
    let at = find_line(&key_lines, prefix.as_str());
    let ghost before = key_lines.deep_view();
    if at < key_lines.len() {
        let mut line = key_lines[at].as_str().to_string();
        line.append(credential);
        key_lines.set(at, line);
        assert(key_lines.deep_view() =~= before.update(at as int, before[at as int] + credential@));
    } else {
        let mut line = user.to_string();
        line.append(credential);
        key_lines.push(line);
        assert(key_lines.deep_view() =~= before.push(user@ + credential@));
    }
    assert(texts_of(key_lines@) =~= key_lines.deep_view());
    let new_keys = lines_file(key_lines.as_slice());
    let all_names = lines(names);
    assert(texts_of(all_names@) =~= all_names.deep_view());
    let mut new_names = lines_file(all_names.as_slice());
    let ghost old_names = new_names@;
    new_names.append(user);
    new_names.push('\t');
    new_names.append(handle.as_str());
    new_names.push('\t');
    new_names.append(name);
    new_names.push('\n');
    proof {
        let kept = nonblank(lines_of(names@));
        let line = name_line(user@, handle@, name@);
        assert(kept.push(line).drop_last() =~= kept);
        assert(new_names@ =~= old_names + line.push('\n'));
    }
    Ok(Files { keys: new_keys, names: new_names })
}

// ---------------------------------------------------------------------------
// Removing a credential
// ---------------------------------------------------------------------------

/// The credentials that have another handle.
pub open spec fn without(credentials: Seq<Seq<char>>, handle: Seq<char>) -> Seq<Seq<char>>
    decreases credentials.len(),
{
    if credentials.len() == 0 {
        Seq::empty()
    } else {
        let before = without(credentials.drop_last(), handle);
        if head_of(credentials.last()) == handle {
            before
        } else {
            before.push(credentials.last())
        }
    }
}

/// A line after a user's handle was removed: nothing where no credential is left.
pub open spec fn line_without(line: Seq<char>, user: Seq<char>, handle: Seq<char>) -> Option<
    Seq<char>,
> {
    if !owned(line, user) {
        Some(line)
    } else {
        let fields = split_of(line, ':');
        let kept = without(fields.skip(1), handle);
        if kept.len() == 0 {
            None
        } else {
            Some(fields[0].push(':') + join_of(kept, seq![':']))
        }
    }
}

/// The lines of the credentials after a user's handle was removed.
pub open spec fn keys_without(lines: Seq<Seq<char>>, user: Seq<char>, handle: Seq<char>) -> Seq<
    Seq<char>,
>
    decreases lines.len(),
{
    if lines.len() == 0 {
        Seq::empty()
    } else {
        let before = keys_without(lines.drop_last(), user, handle);
        match line_without(lines.last(), user, handle) {
            Some(line) => before.push(line),
            None => before,
        }
    }
}

/// The lines of the names after a user's handle was removed.
pub open spec fn names_without(lines: Seq<Seq<char>>, user: Seq<char>, handle: Seq<char>) -> Seq<
    Seq<char>,
>
    decreases lines.len(),
{
    if lines.len() == 0 {
        Seq::empty()
    } else {
        let before = names_without(lines.drop_last(), user, handle);
        if name_on(lines.last(), user, handle) is Some {
            before
        } else {
            before.push(lines.last())
        }
    }
}

/// The file of the credentials after a user's handle was removed.
pub open spec fn removed_keys(keys: Seq<char>, user: Seq<char>, handle: Seq<char>) -> Seq<char> {
    unlines(nonblank(keys_without(lines_of(keys), user, handle)))
}

/// The file of the names after a user's handle was removed.
pub open spec fn removed_names(names: Seq<char>, user: Seq<char>, handle: Seq<char>) -> Seq<char> {
    unlines(nonblank(names_without(lines_of(names), user, handle)))
}

/// A line after a user's handle was removed.
fn strip_handle(line: &str, user: &str, handle: &str) -> (kept: Option<String>)
    ensures
        opt_view(kept) == line_without(line@, user@, handle@),
{
    let prefix = owner(user);
    if !starts_with(line, prefix.as_str()) {
        return Some(line.to_string());
    }
    let fields = split(line, ':');
    let ghost credentials = fields.deep_view().skip(1);
    let mut kept: Vec<String> = Vec::new();
    let mut i: usize = 1;
    assert(kept.deep_view() =~= Seq::empty());
    assert(credentials.take(0) =~= Seq::empty());
    while i < fields.len()
        invariant
            credentials == fields.deep_view().skip(1),
            1 <= i <= fields@.len(),
            kept.deep_view() == without(credentials.take(i - 1), handle@),
        decreases fields@.len() - i,
    {
        let ghost before = kept.deep_view();
        proof {
            assert(credentials.take(i as int).drop_last() =~= credentials.take(i - 1));
            assert(credentials.take(i as int).last() == fields@[i as int]@);
        }
        if !same(head(fields[i].as_str()).as_str(), handle) {
            let credential = fields[i].as_str().to_string();
            kept.push(credential);
            assert(kept.deep_view() =~= before.push(credential@));
        }
        i = i + 1;
    }
    assert(credentials.take(i - 1) =~= credentials);
    assert(kept.deep_view().len() == kept@.len());
    if kept.len() == 0 {
        return None;
    }
    assert(fields.deep_view()[0] == fields@[0]@);
    let mut line = fields[0].as_str().to_string();
    line.push(':');
    proof {
        reveal_strlit(":");
        assert(":"@ =~= seq![':']);
    }
    line.append(join(&kept, ":").as_str());
    Some(line)
}

/// The files after a user's handle was removed.
pub fn root_remove(keys: &str, names: &str, user: &str, handle: &str) -> (files: Files)
    ensures
        files.keys@ == removed_keys(keys@, user@, handle@),
        files.names@ == removed_names(names@, user@, handle@),
{
    let key_lines = lines(keys);
    let ghost all = key_lines.deep_view();
    let mut out: Vec<String> = Vec::new();
    let mut i: usize = 0;
    assert(out.deep_view() =~= Seq::empty());
    while i < key_lines.len()
        invariant
            all == key_lines.deep_view(),
            i <= key_lines@.len(),
            out.deep_view() == keys_without(all.take(i as int), user@, handle@),
        decreases key_lines@.len() - i,
    {
        let ghost before = out.deep_view();
        proof {
            assert(all.take(i + 1).drop_last() =~= all.take(i as int));
            assert(all.take(i + 1).last() == key_lines@[i as int]@);
        }
        if let Some(line) = strip_handle(key_lines[i].as_str(), user, handle) {
            out.push(line);
            assert(out.deep_view() =~= before.push(line@));
        }
        i = i + 1;
    }
    assert(all.take(i as int) =~= all);
    assert(texts_of(out@) =~= out.deep_view());
    let new_keys = lines_file(out.as_slice());

    let name_lines = lines(names);
    let ghost all = name_lines.deep_view();
    let mut out: Vec<String> = Vec::new();
    let mut i: usize = 0;
    assert(out.deep_view() =~= Seq::empty());
    while i < name_lines.len()
        invariant
            all == name_lines.deep_view(),
            i <= name_lines@.len(),
            out.deep_view() == names_without(all.take(i as int), user@, handle@),
        decreases name_lines@.len() - i,
    {
        let ghost before = out.deep_view();
        proof {
            assert(all.take(i + 1).drop_last() =~= all.take(i as int));
            assert(all.take(i + 1).last() == name_lines@[i as int]@);
        }
        if line_name(name_lines[i].as_str(), user, handle).is_none() {
            let line = name_lines[i].as_str().to_string();
            out.push(line);
            assert(out.deep_view() =~= before.push(line@));
        }
        i = i + 1;
    }
    assert(all.take(i as int) =~= all);
    assert(texts_of(out@) =~= out.deep_view());
    Files { keys: new_keys, names: lines_file(out.as_slice()) }
}

} // verus!
