//! The lines in PAM's configuration, and how they get there and go away.

use vstd::prelude::*;
use vstd::string::*;

use crate::text::{
    after_prefix, are_lines, chomp, chomped, contains, is_line, is_space, is_unix, join, join_of,
    law_prefixes_and_suffixes, law_trimming_the_start, lemma_join_of_unlines,
    lemma_lines_of_unbroken, lemma_lines_of_unlines, lemma_occurs_between, lemma_unlines_of_lines,
    lemma_written_lines, lines, lines_of, occurs, occurs_at, same, starts_with, strip_prefix,
    trim_start, trim_start_of, unbroken, unlines,
};

verus! {

/// Where the registered credentials are kept.
pub const KEYS: &'static str = "/etc/passkey/u2f_keys";

/// The comment above a line of ours.
pub const MARK: &'static str =
    "# passkey: fingerprint from your Android device (undo with: passkey uninstall)";

/// The line belongs to PAM's authentication stack.
pub open spec fn is_auth_line(line: Seq<char>) -> bool {
    let trimmed = trim_start_of(line);
    let rest = match after_prefix(trimmed, "-"@) {
        Some(rest) => rest,
        None => trimmed,
    };
    rest == "auth"@ || "auth "@.is_prefix_of(rest) || "auth\t"@.is_prefix_of(rest)
}

/// Whether a line belongs to PAM's authentication stack.
pub fn is_auth(line: &str) -> (found: bool)
    ensures
        found == is_auth_line(line@),
{
    let trimmed = trim_start(line);
    let rest = match strip_prefix(trimmed.as_str(), "-") {
        Some(rest) => rest,
        None => trimmed,
    };
    same(rest.as_str(), "auth") || starts_with(rest.as_str(), "auth ") || starts_with(
        rest.as_str(),
        "auth\t",
    )
}

/// The line is one that decides before anybody is asked anything, and stays first.
pub open spec fn is_guard_line(line: Seq<char>) -> bool {
    ||| occurs(line, "pam_nologin.so"@)
    ||| occurs(line, "pam_securetty.so"@)
    ||| occurs(line, "pam_shells.so"@)
    ||| occurs(line, "pam_rootok.so"@)
    ||| occurs(line, "pam_faillock.so"@) && occurs(line, "preauth"@)
}

/// Whether a line is one that stays first.
pub fn is_guard(line: &str) -> (found: bool)
    ensures
        found == is_guard_line(line@),
{
    contains(line, "pam_nologin.so") || contains(line, "pam_securetty.so") || contains(
        line,
        "pam_shells.so",
    ) || contains(line, "pam_rootok.so") || (contains(line, "pam_faillock.so") && contains(
        line,
        "preauth",
    ))
}

/// The line is ours: the comment, or a module that reads our credentials.
pub open spec fn is_our_line(line: Seq<char>) -> bool {
    line == MARK@ || ((occurs(line, "pam_passkey.so"@) || occurs(line, "pam_u2f.so"@)) && occurs(
        line,
        "authfile="@ + KEYS@,
    ))
}

/// Whether a line is ours.
pub fn is_ours(line: &str) -> (found: bool)
    ensures
        found == is_our_line(line@),
{
    let mut authfile = "authfile=".to_string();
    authfile.append(KEYS);
    same(line, MARK) || ((contains(line, "pam_passkey.so") || contains(line, "pam_u2f.so")) && contains(
        line,
        authfile.as_str(),
    ))
}

/// Some line of the text is ours.
pub open spec fn any_ours(lines: Seq<Seq<char>>) -> bool {
    exists|i: int| 0 <= i < lines.len() && is_our_line(#[trigger] lines[i])
}

/// Whether some line of a text is ours.
pub fn has_our_line(text: &str) -> (found: bool)
    ensures
        found == any_ours(lines_of(text@)),
{
    let all = lines(text);
    let mut i: usize = 0;
    while i < all.len()
        invariant
            all.deep_view() == lines_of(text@),
            i <= all@.len(),
            forall|k: int| 0 <= k < i ==> !is_our_line(#[trigger] lines_of(text@)[k]),
        decreases all@.len() - i,
    {
        assert(lines_of(text@)[i as int] == all@[i as int]@);
        if is_ours(all[i].as_str()) {
            return true;
        }
        i = i + 1;
    }
    false
}

// ---------------------------------------------------------------------------
// The line
// ---------------------------------------------------------------------------

/// The services whose prompt the device is asked at the same time as.
pub fn parallel_services() -> (services: Vec<&'static str>)
    ensures
        services@.map_values(|s: &'static str| s@) == seq![
            "sudo"@,
            "sudo-i"@,
            "su"@,
            "login"@,
            "polkit-1"@,
        ],
{
    let services: Vec<&'static str> = vec!["sudo", "sudo-i", "su", "login", "polkit-1"];
    assert(services@.map_values(|s: &'static str| s@) =~= seq![
        "sudo"@,
        "sudo-i"@,
        "su"@,
        "login"@,
        "polkit-1"@,
    ]);
    services
}

/// The service asks the device only after an empty password.
pub open spec fn is_on_empty(service: Seq<char>) -> bool {
    service == "kde"@ || service == "plasmalogin"@ || service == "sddm"@ || service
        == "gdm-password"@ || service == "lightdm"@
}

/// The services that ask the device only after an empty password.
pub fn on_empty_services() -> (services: Vec<&'static str>)
    ensures
        services@.map_values(|s: &'static str| s@) == seq![
            "kde"@,
            "plasmalogin"@,
            "sddm"@,
            "gdm-password"@,
            "lightdm"@,
        ],
{
    let services: Vec<&'static str> = vec!["kde", "plasmalogin", "sddm", "gdm-password", "lightdm"];
    assert(services@.map_values(|s: &'static str| s@) =~= seq![
        "kde"@,
        "plasmalogin"@,
        "sddm"@,
        "gdm-password"@,
        "lightdm"@,
    ]);
    services
}

/// What either module is told.
pub open spec fn u2f_options(hostname: Seq<char>) -> Seq<char> {
    let origin = "pam://"@ + hostname;
    "authfile="@ + KEYS@ + " origin="@ + origin + " appid="@ + origin
        + " userverification=1 nouserok"@
}

/// The line for a service. Where our module is there and the password that it hands on is
/// taken, the line is for it; else for the module that asks the device first.
pub open spec fn pam_line_of(
    service: Seq<char>,
    hostname: Seq<char>,
    module_present: bool,
    password_taken: bool,
) -> Seq<char> {
    if module_present && password_taken {
        "-auth      sufficient   pam_passkey.so mode="@ + (if is_on_empty(service) {
            "on-empty"@
        } else {
            "parallel"@
        }) + " "@ + u2f_options(hostname)
    } else {
        "-auth      sufficient   pam_u2f.so "@ + u2f_options(hostname)
            + " cue [cue_prompt=Confirm with your fingerprint on your device, or reject there to type your password]"@
    }
}

/// The line for a service.
pub fn pam_line(service: &str, hostname: &str, module_present: bool, password_taken: bool) -> (line:
    String)
    ensures
        line@ == pam_line_of(service@, hostname@, module_present, password_taken),
{
    let mut u2f = "authfile=".to_string();
    u2f.append(KEYS);
    u2f.append(" origin=");
    u2f.append("pam://");
    u2f.append(hostname);
    u2f.append(" appid=");
    u2f.append("pam://");
    u2f.append(hostname);
    u2f.append(" userverification=1 nouserok");
    assert(u2f@ =~= u2f_options(hostname@));
    if module_present && password_taken {
        let mut line = "-auth      sufficient   pam_passkey.so mode=".to_string();
        let on_empty = same(service, "kde") || same(service, "plasmalogin") || same(service, "sddm")
            || same(service, "gdm-password") || same(service, "lightdm");
        line.append(
            if on_empty {
                "on-empty"
            } else {
                "parallel"
            },
        );
        line.append(" ");
        line.append(u2f.as_str());
        line
    } else {
        let mut line = "-auth      sufficient   pam_u2f.so ".to_string();
        line.append(u2f.as_str());
        line.append(
            " cue [cue_prompt=Confirm with your fingerprint on your device, or reject there to type your password]",
        );
        line
    }
}

/// The line lets the password module take the password that was typed already.
pub open spec fn line_takes_password(line: Seq<char>) -> bool {
    &&& !"#"@.is_prefix_of(trim_start_of(line))
    &&& occurs(line, "pam_unix.so"@)
    &&& occurs(line, "try_first_pass"@) || occurs(line, "use_first_pass"@)
}

/// Whether some line of some of the texts lets the password module take the password that
/// was typed already.
pub fn unix_takes_password(texts: &Vec<String>) -> (found: bool)
    ensures
        found == exists|i: int, k: int|
            0 <= i < texts@.len() && 0 <= k < lines_of(texts@[i]@).len() && line_takes_password(
                #[trigger] lines_of(texts@[i]@)[k],
            ),
{
    let mut i: usize = 0;
    while i < texts.len()
        invariant
            i <= texts@.len(),
            forall|a: int, k: int|
                0 <= a < i && 0 <= k < lines_of(texts@[a]@).len() ==> !line_takes_password(
                    #[trigger] lines_of(texts@[a]@)[k],
                ),
        decreases texts@.len() - i,
    {
        let all = lines(texts[i].as_str());
        let mut k: usize = 0;
        while k < all.len()
            invariant
                i < texts@.len(),
                all.deep_view() == lines_of(texts@[i as int]@),
                k <= all@.len(),
                forall|b: int|
                    0 <= b < k ==> !line_takes_password(
                        #[trigger] lines_of(texts@[i as int]@)[b],
                    ),
            decreases all@.len() - k,
        {
            let line = all[k].as_str();
            assert(lines_of(texts@[i as int]@)[k as int] == line@);
            if !starts_with(trim_start(line).as_str(), "#") && contains(line, "pam_unix.so") && (
            contains(line, "try_first_pass") || contains(line, "use_first_pass")) {
                return true;
            }
            k = k + 1;
        }
        i = i + 1;
    }
    false
}

/// Where PAM may load modules from.
pub fn pam_module_dirs() -> (dirs: Vec<&'static str>)
    ensures
        dirs@.map_values(|s: &'static str| s@) == pam_module_dir_names(),
{
    let dirs: Vec<&'static str> = vec![
        "/usr/lib/security",
        "/usr/lib64/security",
        "/lib/security",
        "/lib64/security",
        "/usr/lib/x86_64-linux-gnu/security",
        "/lib/x86_64-linux-gnu/security",
        "/usr/lib/aarch64-linux-gnu/security",
        "/lib/aarch64-linux-gnu/security",
    ];
    assert(dirs@.map_values(|s: &'static str| s@) =~= pam_module_dir_names());
    dirs
}

/// Where PAM may load modules from.
pub open spec fn pam_module_dir_names() -> Seq<Seq<char>> {
    seq![
        "/usr/lib/security"@,
        "/usr/lib64/security"@,
        "/lib/security"@,
        "/lib64/security"@,
        "/usr/lib/x86_64-linux-gnu/security"@,
        "/lib/x86_64-linux-gnu/security"@,
        "/usr/lib/aarch64-linux-gnu/security"@,
        "/lib/aarch64-linux-gnu/security"@,
    ]
}

/// Where PAM loads modules from: the first of the directories that holds `pam_unix.so`.
pub fn pam_module_dir(holds_unix: &Vec<bool>) -> (dir: Option<&'static str>)
    requires
        holds_unix@.len() == 8,
    ensures
        dir is Some <==> holds_unix@.contains(true),
        dir is Some ==> exists|i: int|
            0 <= i < 8 && #[trigger] holds_unix@[i] && (forall|k: int|
                0 <= k < i ==> !#[trigger] holds_unix@[k]) && (dir->0)@
                == pam_module_dir_names()[i],
{
    let dirs = pam_module_dirs();
    let ghost names = dirs@.map_values(|s: &'static str| s@);
    assert(names.len() == 8);
    let mut i: usize = 0;
    while i < 8
        invariant
            holds_unix@.len() == 8,
            dirs@.len() == 8,
            names == dirs@.map_values(|s: &'static str| s@),
            names == pam_module_dir_names(),
            i <= 8,
            forall|k: int| 0 <= k < i ==> !#[trigger] holds_unix@[k],
        decreases 8 - i,
    {
        if holds_unix[i] {
            assert(names[i as int] == dirs@[i as int]@);
            return Some(dirs[i]);
        }
        i = i + 1;
    }
    None
}

// ---------------------------------------------------------------------------
// Adding and removing the line
// ---------------------------------------------------------------------------

/// The lines of a service with our line among them, and whether it found a place. It takes
/// the place of a line of ours that is there; else it goes, under its comment, before the
/// first line of the authentication stack that need not stay first. Further lines of ours
/// are left out, comments of ours stay, but for one right before the new comment.
pub open spec fn edited(lines: Seq<Seq<char>>, wanted: Seq<char>) -> (Seq<Seq<char>>, bool)
    decreases lines.len(),
{
    if lines.len() == 0 {
        (Seq::empty(), false)
    } else {
        let (before, inserted) = edited(lines.drop_last(), wanted);
        let line = lines.last();
        if line == MARK@ {
            (before.push(line), inserted)
        } else if is_our_line(line) {
            if inserted {
                (before, true)
            } else {
                (before.push(wanted), true)
            }
        } else if !inserted && is_auth_line(line) && !is_guard_line(line) {
            let room = if before.len() > 0 && before.last() == MARK@ {
                before.drop_last()
            } else {
                before
            };
            (room.push(MARK@).push(wanted).push(line), true)
        } else {
            (before.push(line), inserted)
        }
    }
}

/// The text of lines: each with a line feed after it, and a line feed where there are none.
pub open spec fn text_of(lines: Seq<Seq<char>>) -> Seq<char> {
    join_of(lines, seq!['\n']).push('\n')
}

/// The new text of a service's configuration; none where it has the line already, or no
/// place for it.
pub open spec fn added(input: Seq<char>, wanted: Seq<char>) -> Option<Seq<char>> {
    let lines = lines_of(input);
    if lines.contains(wanted) || !edited(lines, wanted).1 {
        None
    } else {
        Some(text_of(edited(lines, wanted).0))
    }
}

/// The text of lines.
fn write_lines(lines: &Vec<String>) -> (text: String)
    ensures
        text@ == text_of(lines.deep_view()),
{
    proof {
        reveal_strlit("\n");
        assert("\n"@ =~= seq!['\n']);
    }
    let mut text = join(lines, "\n");
    text.push('\n');
    text
}

/// The new text of a service's configuration with our line in it; none where nothing is to
/// be changed.
pub fn pam_add(input: &str, wanted: &str) -> (output: Option<String>)
    ensures
        output is Some <==> added(input@, wanted@) is Some,
        output is Some ==> (output->0)@ == added(input@, wanted@)->0,
{
    let all = lines(input);
    let ghost every = lines_of(input@);
    let mut i: usize = 0;
    while i < all.len()
        invariant
            every == all.deep_view(),
            every == lines_of(input@),
            i <= all@.len(),
            forall|k: int| 0 <= k < i ==> every[k] != wanted@,
        decreases all@.len() - i,
    {
        assert(every[i as int] == all@[i as int]@);
        if same(all[i].as_str(), wanted) {
            return None;
        }
        i = i + 1;
    }
    assert(!every.contains(wanted@));
    let mut output: Vec<String> = Vec::new();
    let mut inserted = false;
    let mut n: usize = 0;
    assert(output.deep_view() =~= Seq::empty());
    while n < all.len()
        invariant
            every == all.deep_view(),
            n <= all@.len(),
            edited(every.take(n as int), wanted@) == (output.deep_view(), inserted),
        decreases all@.len() - n,
    {
        let line = all[n].as_str();
        let ghost before = output.deep_view();
        proof {
            assert(every.take(n + 1).drop_last() =~= every.take(n as int));
            assert(every.take(n + 1).last() == line@);
        }
        if same(line, MARK) {
            output.push(line.to_string());
            assert(output.deep_view() =~= before.push(line@));
        } else if is_ours(line) {
            if !inserted {
                output.push(wanted.to_string());
                assert(output.deep_view() =~= before.push(wanted@));
                inserted = true;
            }
        } else if !inserted && is_auth(line) && !is_guard(line) {
            if output.len() > 0 && same(output[output.len() - 1].as_str(), MARK) {
                assert(before.last() == output@[output@.len() - 1]@);
                output.pop();
                assert(output.deep_view() =~= before.drop_last());
            } else {
                assert(before.len() > 0 ==> before.last() == output@[output@.len() - 1]@);
            }
            let ghost room = output.deep_view();
            output.push(MARK.to_string());
            output.push(wanted.to_string());
            output.push(line.to_string());
            assert(output.deep_view() =~= room.push(MARK@).push(wanted@).push(line@));
            inserted = true;
        } else {
            output.push(line.to_string());
            assert(output.deep_view() =~= before.push(line@));
        }
        n = n + 1;
    }
    assert(every.take(n as int) =~= every);
    if !inserted {
        return None;
    }
    Some(write_lines(&output))
}

/// The lines that are not ours.
pub open spec fn without_ours(lines: Seq<Seq<char>>) -> Seq<Seq<char>>
    decreases lines.len(),
{
    if lines.len() == 0 {
        Seq::empty()
    } else if is_our_line(lines.last()) {
        without_ours(lines.drop_last())
    } else {
        without_ours(lines.drop_last()).push(lines.last())
    }
}

/// The new text of a service's configuration without our lines; none where it has none.
pub open spec fn removed(input: Seq<char>) -> Option<Seq<char>> {
    if any_ours(lines_of(input)) {
        Some(text_of(without_ours(lines_of(input))))
    } else {
        None
    }
}

/// The new text of a service's configuration without our lines; none where it has none.
pub fn pam_remove(input: &str) -> (output: Option<String>)
    ensures
        output is Some <==> removed(input@) is Some,
        output is Some ==> (output->0)@ == removed(input@)->0,
{
    if !has_our_line(input) {
        return None;
    }
    let all = lines(input);
    let ghost every = lines_of(input@);
    let mut kept: Vec<String> = Vec::new();
    let mut n: usize = 0;
    assert(kept.deep_view() =~= Seq::empty());
    while n < all.len()
        invariant
            every == all.deep_view(),
            n <= all@.len(),
            without_ours(every.take(n as int)) == kept.deep_view(),
        decreases all@.len() - n,
    {
        let line = all[n].as_str();
        let ghost before = kept.deep_view();
        proof {
            assert(every.take(n + 1).drop_last() =~= every.take(n as int));
            assert(every.take(n + 1).last() == line@);
        }
        if !is_ours(line) {
            kept.push(line.to_string());
            assert(kept.deep_view() =~= before.push(line@));
        }
        n = n + 1;
    }
    assert(every.take(n as int) =~= every);
    Some(write_lines(&kept))
}

/// What becomes of a service's configuration when our lines go.
#[derive(Debug, PartialEq, Eq)]
pub enum Removal {
    /// It is left alone.
    Leave,
    /// It is a copy that we made, and goes.
    Delete,
    /// It gets this text.
    Write(String),
}

/// Takes our lines out of a service's configuration. What is then the same as the vendor's
/// (`vendor` is its text where we had made the copy) is not needed any more.
pub fn pam_removal(input: &str, vendor: Option<&str>) -> (removal: Removal)
    ensures
        removal is Leave <==> removed(input@) is None,
        removal is Delete <==> vendor is Some && removed(input@) == Some((vendor->0)@),
        removal is Write ==> (removal->Write_0)@ == removed(input@)->0,
{
    match pam_remove(input) {
        None => Removal::Leave,
        Some(restored) => {
            if let Some(vendor) = vendor {
                if same(vendor, restored.as_str()) {
                    return Removal::Delete;
                }
            }
            Removal::Write(restored)
        },
    }
}

// ---------------------------------------------------------------------------
// Laws
// ---------------------------------------------------------------------------

/// Taking our lines out of a sequence and a line.
proof fn lemma_without_ours_push(lines: Seq<Seq<char>>, line: Seq<char>)
    ensures
        without_ours(lines.push(line)) == (if is_our_line(line) {
            without_ours(lines)
        } else {
            without_ours(lines).push(line)
        }),
{
    assert(lines.push(line).drop_last() =~= lines);
}

/// Adding our line leaves all lines that are not ours as they were, in their order.
pub proof fn law_adding_keeps_other_lines(lines: Seq<Seq<char>>, wanted: Seq<char>)
    requires
        is_our_line(wanted),
    ensures
        without_ours(edited(lines, wanted).0) == without_ours(lines),
    decreases lines.len(),
{
    if lines.len() > 0 {
        law_adding_keeps_other_lines(lines.drop_last(), wanted);
        let (before, inserted) = edited(lines.drop_last(), wanted);
        let line = lines.last();
        lemma_without_ours_push(before, line);
        lemma_without_ours_push(before, wanted);
        if before.len() > 0 {
            lemma_without_ours_push(before.drop_last(), before.last());
            assert(before.drop_last().push(before.last()) =~= before);
        }
        let room = if before.len() > 0 && before.last() == MARK@ {
            before.drop_last()
        } else {
            before
        };
        lemma_without_ours_push(room, MARK@);
        lemma_without_ours_push(room.push(MARK@), wanted);
        lemma_without_ours_push(room.push(MARK@).push(wanted), line);
    }
}

/// Where the line found a place, it is there.
proof fn lemma_edited_holds(lines: Seq<Seq<char>>, wanted: Seq<char>)
    ensures
        edited(lines, wanted).1 ==> edited(lines, wanted).0.contains(wanted),
    decreases lines.len(),
{
    if lines.len() > 0 {
        lemma_edited_holds(lines.drop_last(), wanted);
        let (before, inserted) = edited(lines.drop_last(), wanted);
        let (now, _) = edited(lines, wanted);
        if inserted {
            let k = choose|k: int| 0 <= k < before.len() && before[k] == wanted;
            assert(now[k] == wanted);
        } else if edited(lines, wanted).1 {
            if is_our_line(lines.last()) {
                assert(now[now.len() - 1] == wanted);
            } else {
                assert(now[now.len() - 2] == wanted);
            }
        }
    }
}

/// What was edited is lines, where the lines that are not ours were before.
proof fn lemma_edited_are_lines(lines: Seq<Seq<char>>, wanted: Seq<char>)
    requires
        are_lines(without_ours(lines)),
        is_line(wanted),
        is_line(MARK@),
    ensures
        are_lines(edited(lines, wanted).0),
    decreases lines.len(),
{
    if lines.len() > 0 {
        let front = lines.drop_last();
        let kept = without_ours(front);
        assert forall|i: int| 0 <= i < kept.len() implies is_line(#[trigger] kept[i]) by {
            assert(is_line(without_ours(lines)[i]));
        }
        lemma_edited_are_lines(front, wanted);
        if !is_our_line(lines.last()) {
            assert(is_line(without_ours(lines)[kept.len() as int]));
        }
    }
}

/// What was edited has no line feed in a line, where there was none before.
proof fn lemma_edited_unbroken(lines: Seq<Seq<char>>, wanted: Seq<char>)
    requires
        unbroken(lines),
        is_line(wanted),
        is_line(MARK@),
    ensures
        unbroken(edited(lines, wanted).0),
    decreases lines.len(),
{
    if lines.len() > 0 {
        let front = lines.drop_last();
        assert forall|i: int| 0 <= i < front.len() implies !(#[trigger] front[i]).contains('\n') by {
            assert(!lines[i].contains('\n'));
        }
        lemma_edited_unbroken(front, wanted);
        assert(!lines[lines.len() - 1].contains('\n'));
    }
}

/// The comment is a line.
proof fn lemma_mark_is_line()
    ensures
        is_line(MARK@),
{
    reveal_strlit(
        "# passkey: fingerprint from your Android device (undo with: passkey uninstall)",
    );
}

/// Our line, added to a configuration without lines of ours and taken out again, leaves the
/// lines that were there.
pub proof fn law_removing_undoes_adding(input: Seq<char>, wanted: Seq<char>)
    requires
        is_our_line(wanted),
        is_line(wanted),
        are_lines(lines_of(input)),
        !any_ours(lines_of(input)),
        added(input, wanted) is Some,
    ensures
        removed(added(input, wanted)->0) == Some(text_of(lines_of(input))),
        is_unix(input) ==> removed(added(input, wanted)->0) == Some(input),
{
    let lines = lines_of(input);
    let (output, inserted) = edited(lines, wanted);
    lemma_mark_is_line();
    lemma_none_ours(lines);
    lemma_edited_are_lines(lines, wanted);
    lemma_edited_holds(lines, wanted);
    law_adding_keeps_other_lines(lines, wanted);
    assert(output.contains(wanted));
    let k = choose|k: int| 0 <= k < output.len() && output[k] == wanted;
    lemma_join_of_unlines(output);
    lemma_lines_of_unlines(output);
    assert(is_our_line(output[k]));
    assert(lines.len() > 0) by {
        if lines.len() == 0 {
            assert(edited(lines, wanted).0 =~= Seq::empty());
        }
    }
    if is_unix(input) {
        lemma_unlines_of_lines(input);
        lemma_join_of_unlines(lines);
    }
}

/// Where no line is ours, none is taken out.
proof fn lemma_none_ours(lines: Seq<Seq<char>>)
    requires
        !any_ours(lines),
    ensures
        without_ours(lines) == lines,
    decreases lines.len(),
{
    if lines.len() > 0 {
        let front = lines.drop_last();
        assert(!is_our_line(lines[lines.len() - 1]));
        assert(!any_ours(front)) by {
            if any_ours(front) {
                let i = choose|i: int| 0 <= i < front.len() && is_our_line(#[trigger] front[i]);
                assert(is_our_line(lines[i]));
            }
        }
        lemma_none_ours(front);
        assert(front.push(lines.last()) =~= lines);
    } else {
        assert(lines =~= Seq::empty());
    }
}

/// What adding makes of a configuration, which stays as it is where nothing is to be changed.
pub open spec fn configured(input: Seq<char>, wanted: Seq<char>) -> Seq<char> {
    match added(input, wanted) {
        Some(output) => output,
        None => input,
    }
}

/// The lines of a configuration with our line are those that were written, without the
/// carriage returns at their ends.
proof fn lemma_added_lines(input: Seq<char>, wanted: Seq<char>)
    requires
        is_line(wanted),
        added(input, wanted) is Some,
    ensures
        lines_of(added(input, wanted)->0) == chomped(edited(lines_of(input), wanted).0),
        edited(lines_of(input), wanted).0.contains(wanted),
{
    let lines = lines_of(input);
    let output = edited(lines, wanted).0;
    lemma_mark_is_line();
    lemma_lines_of_unbroken(input);
    lemma_edited_unbroken(lines, wanted);
    lemma_edited_holds(lines, wanted);
    assert(output.len() > 0);
    lemma_join_of_unlines(output);
    lemma_written_lines(output);
}

/// Adding our line a second time changes nothing.
pub proof fn law_adding_twice_is_adding_once(input: Seq<char>, wanted: Seq<char>)
    requires
        is_line(wanted),
    ensures
        added(configured(input, wanted), wanted) is None,
        configured(configured(input, wanted), wanted) == configured(input, wanted),
{
    if added(input, wanted) is Some {
        let output = edited(lines_of(input), wanted).0;
        lemma_added_lines(input, wanted);
        let k = choose|k: int| 0 <= k < output.len() && output[k] == wanted;
        assert(chomped(output)[k] == wanted);
    }
}

/// The lines of ours that are no comments.
pub open spec fn entries(lines: Seq<Seq<char>>) -> Seq<Seq<char>>
    decreases lines.len(),
{
    if lines.len() == 0 {
        Seq::empty()
    } else if is_our_line(lines.last()) && lines.last() != MARK@ {
        entries(lines.drop_last()).push(lines.last())
    } else {
        entries(lines.drop_last())
    }
}

/// The lines of ours that are no comments, with one more line.
proof fn lemma_entries_push(lines: Seq<Seq<char>>, line: Seq<char>)
    ensures
        entries(lines.push(line)) == (if is_our_line(line) && line != MARK@ {
            entries(lines).push(line)
        } else {
            entries(lines)
        }),
{
    assert(lines.push(line).drop_last() =~= lines);
}

/// Where our line found a place it is the only one of ours besides comments; where it found
/// none there is none.
pub proof fn law_one_line_is_ours(lines: Seq<Seq<char>>, wanted: Seq<char>)
    requires
        is_our_line(wanted),
        wanted != MARK@,
    ensures
        entries(edited(lines, wanted).0) == (if edited(lines, wanted).1 {
            seq![wanted]
        } else {
            Seq::empty()
        }),
    decreases lines.len(),
{
    if lines.len() > 0 {
        law_one_line_is_ours(lines.drop_last(), wanted);
        let (before, inserted) = edited(lines.drop_last(), wanted);
        let line = lines.last();
        lemma_entries_push(before, line);
        lemma_entries_push(before, wanted);
        if before.len() > 0 {
            lemma_entries_push(before.drop_last(), before.last());
            assert(before.drop_last().push(before.last()) =~= before);
        }
        let room = if before.len() > 0 && before.last() == MARK@ {
            before.drop_last()
        } else {
            before
        };
        lemma_entries_push(room, MARK@);
        lemma_entries_push(room.push(MARK@), wanted);
        lemma_entries_push(room.push(MARK@).push(wanted), line);
        assert(Seq::empty().push(wanted) =~= seq![wanted]);
    }
}

/// A carriage return at the end makes no line ours, but for the comment.
proof fn lemma_chomped_line(line: Seq<char>)
    ensures
        is_our_line(chomp(line)) ==> is_our_line(line) || line == MARK@.push('\r'),
{
    let short = chomp(line);
    assert forall|pattern: Seq<char>| occurs(short, pattern) implies occurs(line, pattern) by {
        let at = choose|at: int| occurs_at(short, at, pattern);
        assert(line.subrange(at, at + pattern.len()) =~= short.subrange(at, at + pattern.len()));
        assert(occurs_at(line, at, pattern));
    }
    if short == MARK@ && line != MARK@ {
        assert(line =~= MARK@.push('\r'));
    }
}

/// The lines of ours that are no comments stay, without the carriage returns at the ends of
/// the others.
proof fn lemma_entries_chomped(lines: Seq<Seq<char>>)
    requires
        are_lines(entries(lines)),
    ensures
        entries(chomped(lines)) == entries(lines),
    decreases lines.len(),
{
    if lines.len() > 0 {
        let front = lines.drop_last();
        let line = lines.last();
        let kept = entries(front);
        assert forall|i: int| 0 <= i < kept.len() implies is_line(#[trigger] kept[i]) by {
            assert(is_line(entries(lines)[i]));
        }
        lemma_entries_chomped(front);
        assert(chomped(lines).drop_last() =~= chomped(front));
        assert(chomped(lines).last() == chomp(line));
        lemma_mark_is_line();
        lemma_chomped_line(line);
        if is_our_line(line) && line != MARK@ {
            assert(is_line(entries(lines)[kept.len() as int]));
        } else if line == MARK@.push('\r') {
            assert(chomp(line) =~= MARK@);
        }
    } else {
        assert(chomped(lines) =~= Seq::empty());
    }
}

/// A configuration that got our line has it, and no other of ours besides comments; and the
/// lines that are not ours are those that were there, in their order, where none ends with a
/// carriage return of its own.
pub proof fn law_added_line_is_the_only_one(input: Seq<char>, wanted: Seq<char>)
    requires
        is_our_line(wanted),
        is_line(wanted),
        wanted != MARK@,
        added(input, wanted) is Some,
    ensures
        entries(lines_of(added(input, wanted)->0)) == seq![wanted],
        are_lines(without_ours(lines_of(input))) ==> without_ours(
            lines_of(added(input, wanted)->0),
        ) == without_ours(lines_of(input)),
{
    let lines = lines_of(input);
    let output = edited(lines, wanted).0;
    lemma_added_lines(input, wanted);
    law_one_line_is_ours(lines, wanted);
    assert(is_line(entries(output)[0]));
    lemma_entries_chomped(output);
    if are_lines(without_ours(lines)) {
        lemma_mark_is_line();
        lemma_edited_are_lines(lines, wanted);
        assert forall|i: int| 0 <= i < output.len() implies chomped(output)[i] == output[i] by {
            assert(is_line(output[i]));
        }
        assert(chomped(output) =~= output);
        law_adding_keeps_other_lines(lines, wanted);
    }
}

/// After removal, no line is ours; where none is the comment with a carriage return of its
/// own at its end.
pub proof fn law_removing_leaves_none(input: Seq<char>)
    requires
        !lines_of(input).contains(MARK@.push('\r')),
        removed(input) is Some,
    ensures
        removed(removed(input)->0) is None,
{
    let lines = lines_of(input);
    let kept = without_ours(lines);
    lemma_without_ours_has_none(lines);
    lemma_lines_of_unbroken(input);
    if kept.len() > 0 {
        assert forall|i: int| 0 <= i < kept.len() implies !(#[trigger] kept[i]).contains('\n') by {
            assert(lines.contains(kept[i]));
        }
        lemma_join_of_unlines(kept);
        lemma_written_lines(kept);
        assert(!any_ours(chomped(kept))) by {
            assert forall|i: int| 0 <= i < kept.len() implies !is_our_line(
                #[trigger] chomped(kept)[i],
            ) by {
                assert(chomped(kept)[i] == chomp(kept[i]));
                assert(lines.contains(kept[i]) && !is_our_line(kept[i]));
                lemma_chomped_line(kept[i]);
            }
        }
    } else {
        let text = text_of(kept);
        assert(text =~= seq!['\n']);
        assert(text =~= unlines(seq![Seq::<char>::empty()])) by {
            assert(seq![Seq::<char>::empty()].drop_last() =~= Seq::empty());
            assert(unlines(Seq::<Seq<char>>::empty()) =~= Seq::empty());
        }
        let blank = seq![Seq::<char>::empty()];
        assert(are_lines(blank));
        lemma_lines_of_unlines(blank);
        lemma_blank_is_not_ours();
    }
}

/// An empty line is not ours.
proof fn lemma_blank_is_not_ours()
    ensures
        !is_our_line(Seq::<char>::empty()),
{
    reveal_strlit(
        "# passkey: fingerprint from your Android device (undo with: passkey uninstall)",
    );
    reveal_strlit("pam_passkey.so");
    reveal_strlit("pam_u2f.so");
    assert(MARK@.len() > 0);
    assert("pam_passkey.so"@.len() > 0);
    assert("pam_u2f.so"@.len() > 0);
}

/// What is left when our lines are taken out: lines that were there, none of them ours.
proof fn lemma_without_ours_has_none(lines: Seq<Seq<char>>)
    ensures
        !any_ours(without_ours(lines)),
        forall|i: int|
            0 <= i < without_ours(lines).len() ==> lines.contains(#[trigger] without_ours(lines)[i]),
    decreases lines.len(),
{
    if lines.len() > 0 {
        let front = lines.drop_last();
        lemma_without_ours_has_none(front);
        let now = without_ours(lines);
        if any_ours(now) {
            let i = choose|i: int| 0 <= i < now.len() && is_our_line(#[trigger] now[i]);
            assert(is_our_line(without_ours(front)[i]));
        }
        assert forall|i: int| 0 <= i < now.len() implies lines.contains(#[trigger] now[i]) by {
            if i < without_ours(front).len() {
                assert(front.contains(without_ours(front)[i]));
                let k = choose|k: int| 0 <= k < front.len() && front[k] == now[i];
                assert(lines[k] == now[i]);
            } else {
                assert(lines[lines.len() - 1] == now[i]);
            }
        }
    }
}

/// The line for a service is ours, is not the comment, and is one line unless the host's
/// name is not.
pub proof fn law_our_line_is_ours(
    service: Seq<char>,
    hostname: Seq<char>,
    module_present: bool,
    password_taken: bool,
)
    requires
        !hostname.contains('\n'),
    ensures
        is_our_line(pam_line_of(service, hostname, module_present, password_taken)),
        is_line(pam_line_of(service, hostname, module_present, password_taken)),
        pam_line_of(service, hostname, module_present, password_taken) != MARK@,
{
    let line = pam_line_of(service, hostname, module_present, password_taken);
    let authfile = "authfile="@ + KEYS@;
    let options = u2f_options(hostname);
    let rest = " origin="@ + ("pam://"@ + hostname) + " appid="@ + ("pam://"@ + hostname)
        + " userverification=1 nouserok"@;
    assert(options =~= authfile + rest);
    lemma_option_texts();
    assert(!options.contains('\n')) by {
        lemma_no_feed(authfile, rest);
        lemma_no_feed("authfile="@, KEYS@);
        lemma_no_feed("pam://"@, hostname);
        lemma_no_feed(" origin="@, "pam://"@ + hostname);
        lemma_no_feed(" origin="@ + ("pam://"@ + hostname), " appid="@);
        lemma_no_feed(
            " origin="@ + ("pam://"@ + hostname) + " appid="@,
            "pam://"@ + hostname,
        );
        lemma_no_feed(
            " origin="@ + ("pam://"@ + hostname) + " appid="@ + ("pam://"@ + hostname),
            " userverification=1 nouserok"@,
        );
    }
    assert(options.last() == 'k');
    if module_present && password_taken {
        let mode = if is_on_empty(service) {
            "on-empty"@
        } else {
            "parallel"@
        };
        let head = "-auth      sufficient   pam_passkey.so mode="@;
        assert(head =~= "-auth      sufficient   "@ + "pam_passkey.so"@ + " mode="@);
        assert(line =~= "-auth      sufficient   "@ + "pam_passkey.so"@ + (" mode="@ + mode + " "@
            + options));
        lemma_occurs_between(
            "-auth      sufficient   "@,
            "pam_passkey.so"@,
            " mode="@ + mode + " "@ + options,
        );
        assert(line =~= (head + mode + " "@) + authfile + rest);
        lemma_occurs_between(head + mode + " "@, authfile, rest);
        lemma_no_feed(head, mode);
        lemma_no_feed(head + mode, " "@);
        lemma_no_feed(head + mode + " "@, options);
        assert(line.last() == 'k');
        assert(line[0] == '-');
    } else {
        let head = "-auth      sufficient   pam_u2f.so "@;
        let tail =
            " cue [cue_prompt=Confirm with your fingerprint on your device, or reject there to type your password]"@;
        assert(head =~= "-auth      sufficient   "@ + "pam_u2f.so"@ + " "@);
        assert(line =~= "-auth      sufficient   "@ + "pam_u2f.so"@ + (" "@ + options + tail));
        lemma_occurs_between("-auth      sufficient   "@, "pam_u2f.so"@, " "@ + options + tail);
        assert(line =~= head + authfile + (rest + tail));
        lemma_occurs_between(head, authfile, rest + tail);
        lemma_no_feed(head, options);
        lemma_no_feed(head + options, tail);
        assert(line.last() == ']');
        assert(line[0] == '-');
    }
    assert(MARK@[0] == '#');
}

/// Two texts without a line feed have none together.
proof fn lemma_no_feed(a: Seq<char>, b: Seq<char>)
    requires
        !a.contains('\n'),
        !b.contains('\n'),
    ensures
        !(a + b).contains('\n'),
{
    if (a + b).contains('\n') {
        let i = choose|i: int| 0 <= i < (a + b).len() && (a + b)[i] == '\n';
        if i < a.len() {
            assert(a[i] == '\n');
        } else {
            assert(b[i - a.len()] == '\n');
        }
    }
}

/// What the texts that make the line hold.
proof fn lemma_option_texts()
    ensures
        MARK@.len() > 0 && MARK@[0] == '#',
        !"authfile="@.contains('\n'),
        !KEYS@.contains('\n'),
        !" origin="@.contains('\n'),
        !"pam://"@.contains('\n'),
        !" appid="@.contains('\n'),
        !" userverification=1 nouserok"@.contains('\n'),
        " userverification=1 nouserok"@.len() > 0,
        " userverification=1 nouserok"@.last() == 'k',
        !"on-empty"@.contains('\n'),
        !"parallel"@.contains('\n'),
        !" "@.contains('\n'),
        !"-auth      sufficient   pam_passkey.so mode="@.contains('\n'),
        "-auth      sufficient   pam_passkey.so mode="@ == "-auth      sufficient   "@
            + "pam_passkey.so"@ + " mode="@,
        !"-auth      sufficient   pam_u2f.so "@.contains('\n'),
        "-auth      sufficient   pam_u2f.so "@ == "-auth      sufficient   "@ + "pam_u2f.so"@
            + " "@,
        "-auth      sufficient   "@.len() > 0,
        "-auth      sufficient   "@[0] == '-',
        !" cue [cue_prompt=Confirm with your fingerprint on your device, or reject there to type your password]"@.contains(
        '\n'),
        " cue [cue_prompt=Confirm with your fingerprint on your device, or reject there to type your password]"@.len()
            > 0,
        " cue [cue_prompt=Confirm with your fingerprint on your device, or reject there to type your password]"@.last()
            == ']',
{
    reveal_strlit(
        "# passkey: fingerprint from your Android device (undo with: passkey uninstall)",
    );
    reveal_strlit("authfile=");
    reveal_strlit("/etc/passkey/u2f_keys");
    reveal_strlit(" origin=");
    reveal_strlit("pam://");
    reveal_strlit(" appid=");
    reveal_strlit(" userverification=1 nouserok");
    reveal_strlit("on-empty");
    reveal_strlit("parallel");
    reveal_strlit(" ");
    reveal_strlit(" mode=");
    reveal_strlit("pam_passkey.so");
    reveal_strlit("pam_u2f.so");
    reveal_strlit("-auth      sufficient   ");
    reveal_strlit("-auth      sufficient   pam_passkey.so mode=");
    reveal_strlit("-auth      sufficient   pam_u2f.so ");
    reveal_strlit(
        " cue [cue_prompt=Confirm with your fingerprint on your device, or reject there to type your password]",
    );
    assert("-auth      sufficient   pam_passkey.so mode="@ =~= "-auth      sufficient   "@
        + "pam_passkey.so"@ + " mode="@);
    assert("-auth      sufficient   pam_u2f.so "@ =~= "-auth      sufficient   "@ + "pam_u2f.so"@
        + " "@);
}

/// A text begins with the word `auth` and one character more.
proof fn lemma_auth_and(rest: Seq<char>, text: Seq<char>, more: char)
    requires
        text == seq!['a', 'u', 't', 'h', more],
    ensures
        text.is_prefix_of(rest) <==> rest.len() >= 5 && rest[0] == 'a' && rest[1] == 'u' && rest[2]
            == 't' && rest[3] == 'h' && rest[4] == more,
{
    law_prefixes_and_suffixes(rest, text);
    if rest.len() >= 5 {
        let head = rest.take(5);
        assert(head[0] == rest[0] && head[1] == rest[1] && head[2] == rest[2] && head[3] == rest[3]
            && head[4] == rest[4]);
        if rest[0] == 'a' && rest[1] == 'u' && rest[2] == 't' && rest[3] == 'h' && rest[4] == more {
            assert(head =~= text);
        }
    }
}

/// What follows a hyphen, where there is one.
proof fn lemma_hyphen(body: Seq<char>)
    ensures
        after_prefix(body, "-"@) == (if body.len() > 0 && body[0] == '-' {
            Some(body.skip(1))
        } else {
            None
        }),
{
    reveal_strlit("-");
    law_prefixes_and_suffixes(body, "-"@);
    if body.len() > 0 {
        assert(body.take(1)[0] == body[0]);
        if body[0] == '-' {
            assert(body.take(1) =~= "-"@);
        }
    }
}

/// A line belongs to the authentication stack exactly if it is, behind white space and one hyphen
/// or none, the word `auth`, and behind that nothing, or a space or a tab and anything.
pub proof fn law_auth_lines(indent: Seq<char>, body: Seq<char>)
    requires
        forall|i: int| 0 <= i < indent.len() ==> is_space(#[trigger] indent[i]),
        body.len() > 0 ==> !is_space(body[0]),
    ensures
        is_auth_line(indent + body) <==> {
            let rest = if body.len() > 0 && body[0] == '-' {
                body.skip(1)
            } else {
                body
            };
            &&& rest.len() >= 4
            &&& rest[0] == 'a' && rest[1] == 'u' && rest[2] == 't' && rest[3] == 'h'
            &&& rest.len() == 4 || rest[4] == ' ' || rest[4] == '\t'
        },
{
    law_trimming_the_start(indent, body);
    lemma_hyphen(body);
    let rest = if body.len() > 0 && body[0] == '-' {
        body.skip(1)
    } else {
        body
    };
    assert("auth "@ == seq!['a', 'u', 't', 'h', ' ']) by {
        reveal_strlit("auth ");
        assert("auth "@ =~= seq!['a', 'u', 't', 'h', ' ']);
    }
    assert("auth\t"@ == seq!['a', 'u', 't', 'h', '\t']) by {
        reveal_strlit("auth\t");
        assert("auth\t"@ =~= seq!['a', 'u', 't', 'h', '\t']);
    }
    assert("auth"@ == seq!['a', 'u', 't', 'h']) by {
        reveal_strlit("auth");
        assert("auth"@ =~= seq!['a', 'u', 't', 'h']);
    }
    lemma_auth_and(rest, "auth "@, ' ');
    lemma_auth_and(rest, "auth\t"@, '\t');
    if rest.len() == 4 && rest[0] == 'a' && rest[1] == 'u' && rest[2] == 't' && rest[3] == 'h' {
        assert(rest =~= seq!['a', 'u', 't', 'h']);
    }
}

/// A line stays first for the module that it names, wherever on the line; and where it names
/// none of them it does not.
pub proof fn law_guard_lines(a: Seq<char>, b: Seq<char>, c: Seq<char>, line: Seq<char>)
    ensures
        is_guard_line(a + "pam_nologin.so"@ + b),
        is_guard_line(a + "pam_securetty.so"@ + b),
        is_guard_line(a + "pam_shells.so"@ + b),
        is_guard_line(a + "pam_rootok.so"@ + b),
        is_guard_line(a + "pam_faillock.so"@ + b + "preauth"@ + c),
        !occurs(line, "pam_nologin.so"@) && !occurs(line, "pam_securetty.so"@) && !occurs(
            line,
            "pam_shells.so"@,
        ) && !occurs(line, "pam_rootok.so"@) && !(occurs(line, "pam_faillock.so"@) && occurs(
            line,
            "preauth"@,
        )) ==> !is_guard_line(line),
{
    lemma_occurs_between(a, "pam_nologin.so"@, b);
    lemma_occurs_between(a, "pam_securetty.so"@, b);
    lemma_occurs_between(a, "pam_shells.so"@, b);
    lemma_occurs_between(a, "pam_rootok.so"@, b);
    let whole = a + "pam_faillock.so"@ + b + "preauth"@ + c;
    lemma_occurs_between(a, "pam_faillock.so"@, b + "preauth"@ + c);
    lemma_occurs_between(a + "pam_faillock.so"@ + b, "preauth"@, c);
    assert(whole =~= a + "pam_faillock.so"@ + (b + "preauth"@ + c));
}

/// A line is ours if it is our comment, or has one of the two modules and our file of credentials
/// behind it; and a line without our file of credentials, or without a module of the two, is
/// not, unless it is the comment.
pub proof fn law_our_lines(a: Seq<char>, b: Seq<char>, c: Seq<char>, line: Seq<char>)
    ensures
        is_our_line(
            "# passkey: fingerprint from your Android device (undo with: passkey uninstall)"@,
        ),
        is_our_line(a + "pam_passkey.so"@ + b + "authfile=/etc/passkey/u2f_keys"@ + c),
        is_our_line(a + "pam_u2f.so"@ + b + "authfile=/etc/passkey/u2f_keys"@ + c),
        is_our_line(line) && line
            != "# passkey: fingerprint from your Android device (undo with: passkey uninstall)"@
            ==> occurs(line, "authfile=/etc/passkey/u2f_keys"@) && (occurs(line, "pam_passkey.so"@)
            || occurs(line, "pam_u2f.so"@)),
{
    reveal_strlit("authfile=");
    reveal_strlit("/etc/passkey/u2f_keys");
    reveal_strlit("authfile=/etc/passkey/u2f_keys");
    let file = "authfile=/etc/passkey/u2f_keys"@;
    assert("authfile="@ + KEYS@ =~= file);
    let rest = b + file + c;
    lemma_occurs_between(a, "pam_passkey.so"@, rest);
    lemma_occurs_between(a + "pam_passkey.so"@ + b, file, c);
    assert(a + "pam_passkey.so"@ + b + file + c =~= a + "pam_passkey.so"@ + rest);
    lemma_occurs_between(a, "pam_u2f.so"@, rest);
    lemma_occurs_between(a + "pam_u2f.so"@ + b, file, c);
    assert(a + "pam_u2f.so"@ + b + file + c =~= a + "pam_u2f.so"@ + rest);
}

/// A line of ours that is not the comment.
pub open spec fn is_entry(line: Seq<char>) -> bool {
    is_our_line(line) && line != MARK@
}

/// A line that our line takes the place of, or goes before.
pub open spec fn is_place(line: Seq<char>) -> bool {
    is_entry(line) || (is_auth_line(line) && !is_guard_line(line) && !is_our_line(line))
}

/// Where there is no place, nothing changes.
proof fn lemma_no_place(lines: Seq<Seq<char>>, wanted: Seq<char>)
    requires
        forall|k: int| 0 <= k < lines.len() ==> !is_place(#[trigger] lines[k]),
    ensures
        edited(lines, wanted) == (lines, false),
    decreases lines.len(),
{
    if lines.len() > 0 {
        let front = lines.drop_last();
        assert forall|k: int| 0 <= k < front.len() implies !is_place(#[trigger] front[k]) by {
            assert(front[k] == lines[k]);
        }
        lemma_no_place(front, wanted);
        assert(!is_place(lines[lines.len() - 1]));
        assert(front.push(lines.last()) =~= lines);
    } else {
        assert(lines =~= Seq::empty());
    }
}

/// The lines with our line at its place: the first that is one.
pub open spec fn placed(lines: Seq<Seq<char>>, wanted: Seq<char>, at: int) -> Seq<Seq<char>> {
    let before = lines.take(at);
    let behind = lines.skip(at + 1).filter(|line: Seq<char>| !is_entry(line));
    if is_our_line(lines[at]) {
        before + seq![wanted] + behind
    } else if at > 0 && lines[at - 1] == MARK@ {
        before + seq![wanted, lines[at]] + behind
    } else {
        before + seq![MARK@, wanted, lines[at]] + behind
    }
}

/// Our line is added at the first place there is: it takes the place of the first line of ours, or
/// goes, under the comment, before the first line of the authentication stack that need not stay
/// first, whichever comes first. What stands before is as it was, and behind it only further
/// lines of ours are left out. Where there is no place, or the line is there, nothing is added.
pub proof fn law_line_is_added_at_the_first_place(input: Seq<char>, wanted: Seq<char>, at: int)
    ensures
        lines_of(input).contains(wanted) ==> added(input, wanted) is None,
        (forall|k: int| 0 <= k < lines_of(input).len() ==> !is_place(#[trigger] lines_of(input)[k]))
            ==> added(input, wanted) is None,
        !lines_of(input).contains(wanted) && 0 <= at < lines_of(input).len() && is_place(
            lines_of(input)[at],
        ) && (forall|k: int| 0 <= k < at ==> !is_place(#[trigger] lines_of(input)[k])) ==> added(
            input,
            wanted,
        ) == Some(text_of(placed(lines_of(input), wanted, at))),
{
    let lines = lines_of(input);
    if forall|k: int| 0 <= k < lines.len() ==> !is_place(#[trigger] lines[k]) {
        lemma_no_place(lines, wanted);
    }
    if 0 <= at < lines.len() && is_place(lines[at]) && (forall|k: int|
        0 <= k < at ==> !is_place(#[trigger] lines[k])) {
        lemma_placed(lines, wanted, at);
    }
}

/// The lines with our line at its place are those that are edited.
proof fn lemma_placed(lines: Seq<Seq<char>>, wanted: Seq<char>, at: int)
    requires
        0 <= at < lines.len(),
        is_place(lines[at]),
        forall|k: int| 0 <= k < at ==> !is_place(#[trigger] lines[k]),
    ensures
        edited(lines, wanted) == (placed(lines, wanted, at), true),
    decreases lines.len(),
{
    reveal(Seq::filter);
    let front = lines.drop_last();
    let last = lines.last();
    let p = |line: Seq<char>| !is_entry(line);
    if at == lines.len() - 1 {
        assert forall|k: int| 0 <= k < front.len() implies !is_place(#[trigger] front[k]) by {
            assert(front[k] == lines[k]);
        }
        lemma_no_place(front, wanted);
        assert(lines.take(at) =~= front);
        assert(lines.skip(at + 1) =~= Seq::empty());
        let none = Seq::<Seq<char>>::empty();
        assert(lines.skip(at + 1).filter(p) =~= none);
        if is_our_line(last) {
            assert(front.push(wanted) =~= front + seq![wanted] + none);
        } else if at > 0 && lines[at - 1] == MARK@ {
            assert(front.last() == MARK@);
            assert(front.drop_last().push(MARK@) =~= front);
            assert(front.push(wanted).push(last) =~= front + seq![wanted, last] + none);
        } else {
            assert(front.len() > 0 ==> front.last() == lines[at - 1]);
            assert(front.push(MARK@).push(wanted).push(last) =~= front + seq![MARK@, wanted, last]
                + none);
        }
    } else {
        assert forall|k: int| 0 <= k < at implies !is_place(#[trigger] front[k]) by {
            assert(front[k] == lines[k]);
        }
        assert(front[at] == lines[at]);
        lemma_placed(front, wanted, at);
        assert(front.take(at) =~= lines.take(at));
        let behind = lines.skip(at + 1);
        assert(behind.drop_last() =~= front.skip(at + 1));
        assert(behind.last() == last);
        assert(at > 0 ==> front[at - 1] == lines[at - 1]);
        if !is_entry(last) {
            assert(placed(front, wanted, at).push(last) =~= placed(lines, wanted, at));
        } else {
            assert(placed(front, wanted, at) =~= placed(lines, wanted, at));
        }
    }
}

/// To a configuration without lines of ours our line is added exactly if it has a line of the
/// authentication stack that need not stay first. It then has all the lines that were there, in
/// their order, and the comment and our line right before the first such line.
pub proof fn law_line_is_added_before_the_first_that_asks(
    input: Seq<char>,
    wanted: Seq<char>,
    at: int,
)
    requires
        is_our_line(wanted),
        !any_ours(lines_of(input)),
    ensures
        added(input, wanted) is Some <==> exists|k: int|
            0 <= k < lines_of(input).len() && is_auth_line(#[trigger] lines_of(input)[k])
                && !is_guard_line(lines_of(input)[k]),
        0 <= at < lines_of(input).len() && is_auth_line(lines_of(input)[at]) && !is_guard_line(
            lines_of(input)[at],
        ) && (forall|k: int|
            0 <= k < at ==> !is_auth_line(#[trigger] lines_of(input)[k]) || is_guard_line(
                lines_of(input)[k],
            )) ==> added(input, wanted) == Some(
            text_of(
                lines_of(input).take(at) + seq![
                    "# passkey: fingerprint from your Android device (undo with: passkey uninstall)"@,
                    wanted,
                ] + lines_of(input).skip(at),
            ),
        ),
{
    let lines = lines_of(input);
    assert forall|k: int| 0 <= k < lines.len() implies !is_our_line(#[trigger] lines[k]) by {
        assert(!any_ours(lines));
    }
    assert(!lines.contains(wanted));
    if exists|k: int|
        0 <= k < lines.len() && is_auth_line(#[trigger] lines[k]) && !is_guard_line(lines[k]) {
        let k = choose|k: int|
            0 <= k < lines.len() && is_auth_line(#[trigger] lines[k]) && !is_guard_line(lines[k]);
        let first = lemma_first_place(lines, k);
        law_line_is_added_at_the_first_place(input, wanted, first);
    } else {
        assert forall|k: int| 0 <= k < lines.len() implies !is_place(#[trigger] lines[k]) by {
            assert(!is_our_line(lines[k]));
        }
        law_line_is_added_at_the_first_place(input, wanted, 0);
    }
    if 0 <= at < lines.len() && is_auth_line(lines[at]) && !is_guard_line(lines[at]) && (forall|
        k: int,
    |
        0 <= k < at ==> !is_auth_line(#[trigger] lines[k]) || is_guard_line(lines[k])) {
        assert forall|k: int| 0 <= k < at implies !is_place(#[trigger] lines[k]) by {
            assert(!is_our_line(lines[k]));
        }
        law_line_is_added_at_the_first_place(input, wanted, at);
        let behind = lines.skip(at + 1);
        lemma_filter_all(behind);
        assert(at > 0 ==> !is_our_line(lines[at - 1]));
        assert(placed(lines, wanted, at) =~= lines.take(at) + seq![MARK@, wanted] + lines.skip(at))
            by {
            assert(lines.skip(at) =~= seq![lines[at]] + behind);
        }
    }
}

/// Where there is a place there is a first one.
proof fn lemma_first_place(lines: Seq<Seq<char>>, k: int) -> (first: int)
    requires
        0 <= k < lines.len(),
        is_place(lines[k]),
    ensures
        0 <= first <= k,
        is_place(lines[first]),
        forall|j: int| 0 <= j < first ==> !is_place(#[trigger] lines[j]),
    decreases k,
{
    if forall|j: int| 0 <= j < k ==> !is_place(#[trigger] lines[j]) {
        k
    } else {
        let j = choose|j: int| 0 <= j < k && is_place(#[trigger] lines[j]);
        lemma_first_place(lines, j)
    }
}

/// Where no line is ours none is left out.
proof fn lemma_filter_all(lines: Seq<Seq<char>>)
    requires
        forall|k: int| 0 <= k < lines.len() ==> !is_our_line(#[trigger] lines[k]),
    ensures
        lines.filter(|line: Seq<char>| !is_entry(line)) == lines,
    decreases lines.len(),
{
    reveal(Seq::filter);
    if lines.len() > 0 {
        let front = lines.drop_last();
        assert forall|k: int| 0 <= k < front.len() implies !is_our_line(#[trigger] front[k]) by {
            assert(front[k] == lines[k]);
        }
        lemma_filter_all(front);
        assert(!is_our_line(lines[lines.len() - 1]));
        assert(front.push(lines.last()) =~= lines);
    } else {
        assert(lines.filter(|line: Seq<char>| !is_entry(line)) =~= lines);
    }
}

/// What is left when our lines go are all the others, in their order; and there is nothing to do
/// where none is ours.
pub proof fn law_our_lines_go(input: Seq<char>)
    ensures
        removed(input) is Some <==> exists|k: int|
            0 <= k < lines_of(input).len() && is_our_line(#[trigger] lines_of(input)[k]),
        removed(input) is Some ==> removed(input)->0 == text_of(
            lines_of(input).filter(|line: Seq<char>| !is_our_line(line)),
        ),
{
    lemma_without_ours(lines_of(input));
}

/// The lines that are not ours.
proof fn lemma_without_ours(lines: Seq<Seq<char>>)
    ensures
        without_ours(lines) == lines.filter(|line: Seq<char>| !is_our_line(line)),
    decreases lines.len(),
{
    reveal(Seq::filter);
    if lines.len() > 0 {
        lemma_without_ours(lines.drop_last());
    } else {
        assert(without_ours(lines) =~= lines.filter(|line: Seq<char>| !is_our_line(line)));
    }
}

/// The text of lines has each of them with a line feed behind it.
pub proof fn law_text_of_lines(lines: Seq<Seq<char>>, line: Seq<char>)
    ensures
        text_of(seq![line]) == line.push('\n'),
        lines.len() > 0 ==> text_of(lines.push(line)) == text_of(lines) + line.push('\n'),
{
    assert(lines.push(line).drop_last() =~= lines);
    if lines.len() > 0 {
        let joined = join_of(lines, seq!['\n']);
        assert(text_of(lines.push(line)) =~= joined.push('\n') + line.push('\n'));
    }
}

/// The services that ask the phone only after an empty password.
pub proof fn law_services_that_ask_later(service: Seq<char>)
    ensures
        is_on_empty(service) <==> seq![
            "kde"@,
            "plasmalogin"@,
            "sddm"@,
            "gdm-password"@,
            "lightdm"@,
        ].contains(service),
{
    let all = seq!["kde"@, "plasmalogin"@, "sddm"@, "gdm-password"@, "lightdm"@];
    assert(all[0] == "kde"@ && all[1] == "plasmalogin"@ && all[2] == "sddm"@ && all[3]
        == "gdm-password"@ && all[4] == "lightdm"@);
}

/// The line is for our module exactly if that is there and the password that it hands on is
/// taken; else it is for the module that asks the phone first. Both get our file of credentials,
/// this machine as origin, and that the user is to be verified.
pub proof fn law_line_of_a_service(
    service: Seq<char>,
    hostname: Seq<char>,
    present: bool,
    taken: bool,
)
    ensures
        ({
            let line = pam_line_of(service, hostname, present, taken);
            let options = "authfile=/etc/passkey/u2f_keys origin=pam://"@ + hostname
                + " appid=pam://"@ + hostname + " userverification=1 nouserok"@;
            let ours = "-auth      sufficient   pam_passkey.so mode="@;
            let theirs = "-auth      sufficient   pam_u2f.so "@;
            &&& ours.is_prefix_of(line) <==> present && taken
            &&& present && taken ==> line == ours + (if is_on_empty(service) {
                "on-empty "@
            } else {
                "parallel "@
            }) + options
            &&& !(present && taken) ==> (theirs + options).is_prefix_of(line)
        }),
{
    reveal_strlit("authfile=");
    reveal_strlit("/etc/passkey/u2f_keys");
    reveal_strlit(" origin=");
    reveal_strlit("pam://");
    reveal_strlit(" appid=");
    reveal_strlit("authfile=/etc/passkey/u2f_keys origin=pam://");
    reveal_strlit(" appid=pam://");
    reveal_strlit("on-empty");
    reveal_strlit("parallel");
    reveal_strlit("on-empty ");
    reveal_strlit("parallel ");
    reveal_strlit(" ");
    reveal_strlit("-auth      sufficient   pam_passkey.so mode=");
    reveal_strlit("-auth      sufficient   pam_u2f.so ");
    let line = pam_line_of(service, hostname, present, taken);
    let options = "authfile=/etc/passkey/u2f_keys origin=pam://"@ + hostname + " appid=pam://"@
        + hostname + " userverification=1 nouserok"@;
    let ours = "-auth      sufficient   pam_passkey.so mode="@;
    let theirs = "-auth      sufficient   pam_u2f.so "@;
    assert("authfile="@ + KEYS@ + " origin="@ + "pam://"@
        =~= "authfile=/etc/passkey/u2f_keys origin=pam://"@);
    assert(" appid="@ + "pam://"@ =~= " appid=pam://"@);
    assert("on-empty"@ + " "@ =~= "on-empty "@);
    assert("parallel"@ + " "@ =~= "parallel "@);
    assert(u2f_options(hostname) =~= ("authfile="@ + KEYS@ + " origin="@ + "pam://"@) + hostname + (
    " appid="@ + "pam://"@) + hostname + " userverification=1 nouserok"@);
    assert(u2f_options(hostname) == options);
    if present && taken {
        let mode = if is_on_empty(service) {
            "on-empty"@
        } else {
            "parallel"@
        };
        assert(line =~= ours + (mode + " "@) + options);
        assert(line.subrange(0, ours.len() as int) =~= ours);
    } else {
        let begin = theirs + options;
        assert(line.subrange(0, begin.len() as int) =~= begin);
        assert(line[28] == 'u' && ours[28] == 'p');
        if ours.is_prefix_of(line) {
            assert(line.subrange(0, ours.len() as int)[28] == line[28]);
        }
    }
}

/// The password that was typed is taken by a line that has the module and either of the two
/// words, in any order; but not by a comment, nor where any of it is missing.
pub proof fn law_lines_that_take_the_password(
    indent: Seq<char>,
    body: Seq<char>,
)
    requires
        forall|i: int| 0 <= i < indent.len() ==> is_space(#[trigger] indent[i]),
        body.len() > 0 ==> !is_space(body[0]),
    ensures
        line_takes_password(indent + body) <==> {
            &&& body.len() > 0 && body[0] != '#'
            &&& occurs(indent + body, "pam_unix.so"@)
            &&& occurs(indent + body, "try_first_pass"@) || occurs(
                indent + body,
                "use_first_pass"@,
            )
        },
{
    reveal_strlit("#");
    reveal_strlit("pam_unix.so");
    law_trimming_the_start(indent, body);
    law_prefixes_and_suffixes(body, "#"@);
    if body.len() > 0 {
        assert(body.take(1)[0] == body[0]);
        if body[0] == '#' {
            assert(body.take(1) =~= "#"@);
        }
    } else if occurs(indent + body, "pam_unix.so"@) {
        let at = choose|at: int| occurs_at(indent + body, at, "pam_unix.so"@);
        assert((indent + body).subrange(at, at + 11)[0] == 'p');
        assert((indent + body)[at] == indent[at]);
        assert(is_space(indent[at]));
    }
}

/// The directories of modules: those without a name of the machine's kind come first, those under
/// `/usr` before the others; then those with one, each under `/usr` first.
pub proof fn law_directories_of_modules()
    ensures
        ({
            let names = pam_module_dir_names();
            &&& names.len() == 8
            &&& names[2] == "/lib/security"@
            &&& names[3] == "/lib64/security"@
            &&& names[5] == "/lib/x86_64-linux-gnu/security"@
            &&& names[7] == "/lib/aarch64-linux-gnu/security"@
            &&& names[0] == "/usr"@ + names[2]
            &&& names[1] == "/usr"@ + names[3]
            &&& names[4] == "/usr"@ + names[5]
            &&& names[6] == "/usr"@ + names[7]
        }),
{
    reveal_strlit("/usr");
    reveal_strlit("/usr/lib/security");
    reveal_strlit("/lib/security");
    reveal_strlit("/usr/lib64/security");
    reveal_strlit("/lib64/security");
    reveal_strlit("/usr/lib/x86_64-linux-gnu/security");
    reveal_strlit("/lib/x86_64-linux-gnu/security");
    reveal_strlit("/usr/lib/aarch64-linux-gnu/security");
    reveal_strlit("/lib/aarch64-linux-gnu/security");
    assert("/usr/lib/security"@ =~= "/usr"@ + "/lib/security"@);
    assert("/usr/lib64/security"@ =~= "/usr"@ + "/lib64/security"@);
    assert("/usr/lib/x86_64-linux-gnu/security"@ =~= "/usr"@ + "/lib/x86_64-linux-gnu/security"@);
    assert("/usr/lib/aarch64-linux-gnu/security"@ =~= "/usr"@ + "/lib/aarch64-linux-gnu/security"@);
}

} // verus!
