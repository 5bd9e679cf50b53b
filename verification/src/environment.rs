//! What this computer has, and what it lacks.

use vstd::prelude::*;
use vstd::string::*;

use crate::text::{
    after_prefix, chars_of, join, join_of, law_prefixes_and_suffixes, lines, lines_of, opt_view, same,
    string_of, strip_prefix, words, words_of,
};

verus! {

// ---------------------------------------------------------------------------
// Packages
// ---------------------------------------------------------------------------

/// The first position at or after `from` that does not hold a character, or the length.
pub open spec fn run_end(s: Seq<char>, from: int, c: char) -> int
    decreases s.len() - from,
{
    if from >= s.len() || s[from] != c {
        from
    } else {
        run_end(s, from + 1, c)
    }
}

/// Where a run of a character that ends at `to` starts, and not before `from`.
pub open spec fn run_start(s: Seq<char>, from: int, to: int, c: char) -> int
    decreases to - from,
{
    if to <= from || s[to - 1] != c {
        to
    } else {
        run_start(s, from, to - 1, c)
    }
}

/// A value without the quotation marks around it.
pub open spec fn unquoted_of(value: Seq<char>) -> Seq<char> {
    let from = run_end(value, 0, '"');
    value.subrange(from, run_start(value, from, value.len() as int, '"'))
}

/// A value without the quotation marks around it.
fn unquoted(value: &str) -> (text: String)
    ensures
        text@ == unquoted_of(value@),
{
    let chars = chars_of(value);
    let mut from: usize = 0;
    while from < chars.len() && chars[from] == '"'
        invariant
            from <= chars@.len(),
            run_end(chars@, 0, '"') == run_end(chars@, from as int, '"'),
        decreases chars@.len() - from,
    {
        from = from + 1;
    }
    let mut to: usize = chars.len();
    while to > from && chars[to - 1] == '"'
        invariant
            from <= to <= chars@.len(),
            run_start(chars@, from as int, chars@.len() as int, '"') == run_start(
                chars@,
                from as int,
                to as int,
                '"',
            ),
        decreases to,
    {
        to = to - 1;
    }
    string_of(chars.as_slice(), from, to)
}

/// What a line says of the distribution, or what it is like.
pub open spec fn release_value(line: Seq<char>) -> Option<Seq<char>> {
    match after_prefix(line, "ID="@) {
        Some(value) => Some(value),
        None => after_prefix(line, "ID_LIKE="@),
    }
}

/// The distribution, and what it is like, by the lines of a description.
pub open spec fn ids_on(lines: Seq<Seq<char>>) -> Seq<Seq<char>>
    decreases lines.len(),
{
    if lines.len() == 0 {
        Seq::empty()
    } else {
        let before = ids_on(lines.drop_last());
        match release_value(lines.last()) {
            Some(value) => before + words_of(unquoted_of(value)),
            None => before,
        }
    }
}

/// What a line says of the distribution, or what it is like.
fn line_value(line: &str) -> (value: Option<String>)
    ensures
        opt_view(value) == release_value(line@),
{
    match strip_prefix(line, "ID=") {
        Some(value) => Some(value),
        None => strip_prefix(line, "ID_LIKE="),
    }
}

/// The distribution, and what it is like, by a description.
fn distribution(release: &str) -> (ids: Vec<String>)
    ensures
        ids.deep_view() == ids_on(lines_of(release@)),
{
    let all = lines(release);
    let ghost whole = all.deep_view();
    let mut ids: Vec<String> = Vec::new();
    let mut i: usize = 0;
    assert(ids.deep_view() =~= Seq::empty());
    while i < all.len()
        invariant
            whole == all.deep_view(),
            i <= all@.len(),
            ids.deep_view() == ids_on(whole.take(i as int)),
        decreases all@.len() - i,
    {
        let ghost before = ids.deep_view();
        proof {
            assert(whole.take(i + 1).drop_last() =~= whole.take(i as int));
            assert(whole.take(i + 1).last() == all@[i as int]@);
        }
        if let Some(value) = line_value(all[i].as_str()) {
            let mut more = words(unquoted(value.as_str()).as_str());
            let ghost added = more.deep_view();
            ids.append(&mut more);
            assert(ids.deep_view() =~= before + added);
        }
        i = i + 1;
    }
    assert(whole.take(i as int) =~= whole);
    ids
}

/// Whether a distribution is of a family.
fn has(ids: &Vec<String>, id: &str) -> (found: bool)
    ensures
        found == ids.deep_view().contains(id@),
{
    let mut i: usize = 0;
    while i < ids.len()
        invariant
            i <= ids@.len(),
            forall|k: int| 0 <= k < i ==> (#[trigger] ids.deep_view()[k]) != id@,
        decreases ids@.len() - i,
    {
        assert(ids.deep_view()[i as int] == ids@[i as int]@);
        if same(ids[i].as_str(), id) {
            return true;
        }
        i = i + 1;
    }
    false
}

/// The package that provides something, by distribution family; all of them where the family
/// is not known.
pub open spec fn package_of(
    release: Seq<char>,
    arch: Seq<char>,
    debian: Seq<char>,
    fedora: Seq<char>,
) -> Seq<char> {
    let ids = ids_on(lines_of(release));
    if ids.contains("arch"@) {
        arch
    } else if ids.contains("debian"@) || ids.contains("ubuntu"@) {
        debian
    } else if ids.contains("fedora"@) || ids.contains("rhel"@) {
        fedora
    } else {
        arch + " (Arch) / "@ + debian + " (Debian) / "@ + fedora + " (Fedora)"@
    }
}

/// The package that provides something, by distribution family.
pub fn package(release: &str, arch: &str, debian: &str, fedora: &str) -> (name: String)
    ensures
        name@ == package_of(release@, arch@, debian@, fedora@),
{
    let ids = distribution(release);
    if has(&ids, "arch") {
        arch.to_string()
    } else if has(&ids, "debian") || has(&ids, "ubuntu") {
        debian.to_string()
    } else if has(&ids, "fedora") || has(&ids, "rhel") {
        fedora.to_string()
    } else {
        let mut name = arch.to_string();
        name.append(" (Arch) / ");
        name.append(debian);
        name.append(" (Debian) / ");
        name.append(fedora);
        name.append(" (Fedora)");
        name
    }
}

// ---------------------------------------------------------------------------
// What is needed
// ---------------------------------------------------------------------------

/// What is said of a system without PAM.
pub const NO_PAM: &'static str = "this system does not use Linux-PAM";

/// What is said of a kernel without virtual devices.
pub const NO_UHID: &'static str = "/dev/uhid is unavailable; the kernel needs CONFIG_UHID";

/// What this computer has.
#[derive(Debug)]
pub struct Environment {
    /// Whether PAM is configured.
    pub pam_d: bool,
    /// Where the modules of PAM are.
    pub modules: Option<String>,
    /// Whether pam_u2f is there.
    pub pam_u2f: bool,
    /// Whether the module of this project is there.
    pub pam_passkey: bool,
    /// Whether pamu2fcfg is there.
    pub pamu2fcfg: bool,
    /// Whether fido2-token is there.
    pub fido2_token: bool,
    /// Whether this program runs as root.
    pub root: bool,
    /// Whether sudo is there.
    pub sudo: bool,
    /// Whether adb is there.
    pub adb: bool,
    /// Whether Bluetooth is running.
    pub bluetooth: bool,
    /// Whether systemd is running.
    pub systemd: bool,
    /// The user.
    pub user: String,
    /// This program.
    pub executable: String,
    /// The description of the distribution.
    pub release: String,
}

/// One item, or none.
pub open spec fn when(lacking: bool, item: Seq<char>) -> Seq<Seq<char>> {
    if lacking {
        seq![item]
    } else {
        Seq::empty()
    }
}

impl Environment {
    /// The directory of the modules.
    pub open spec fn directory(self) -> Seq<char> {
        match self.modules {
            Some(directory) => directory@,
            None => Seq::empty(),
        }
    }

    /// What has to be installed.
    pub open spec fn missing(self) -> Seq<Seq<char>> {
        when(
            !self.pam_u2f,
            "pam_u2f.so: "@ + package_of(self.release@, "pam-u2f"@, "libpam-u2f"@, "pam-u2f"@),
        ) + when(
            !self.pam_passkey,
            "pam_passkey.so is not in "@ + self.directory() + " (install passkey with PAMDIR="@
                + self.directory() + ")"@,
        ) + when(
            !self.pamu2fcfg,
            "pamu2fcfg: "@ + package_of(self.release@, "pam-u2f"@, "pamu2fcfg"@, "pamu2fcfg"@),
        ) + when(
            !self.fido2_token,
            "fido2-token: "@ + package_of(
                self.release@,
                "libfido2"@,
                "fido2-tools"@,
                "fido2-tools"@,
            ),
        ) + when(!self.root && !self.sudo, "sudo (or run passkey as root)"@)
    }

    /// What is said where no phone can be reached by USB.
    pub open spec fn usb_warning(self) -> Seq<char> {
        "USB off: adb is missing ("@ + package_of(
            self.release@,
            "android-tools"@,
            "adb"@,
            "android-tools"@,
        ) + ")"@
    }

    /// What is said where no phone can be reached by Bluetooth.
    pub open spec fn bluetooth_warning(self) -> Seq<char> {
        "Bluetooth off: BlueZ is not running ("@ + package_of(
            self.release@,
            "bluez"@,
            "bluez"@,
            "bluez"@,
        ) + ")"@
    }

    /// What does not work.
    pub open spec fn warnings(self) -> Seq<Seq<char>> {
        when(!self.adb, self.usb_warning()) + when(
            !self.bluetooth,
            self.bluetooth_warning(),
        ) + when(
            !self.systemd,
            "systemd is not running, so the service is not set up. Start it as root at boot with your init system:\n    PASSKEY_ADB_USER="@
                + self.user@ + " "@ + self.executable@ + " daemon"@,
        )
    }

    /// PAM is used.
    pub open spec fn uses_pam(self) -> bool {
        self.pam_d && self.modules is Some
    }

    /// Why this computer cannot be used: it has no PAM, or something has to be installed.
    pub open spec fn refusal(self) -> Option<Seq<char>> {
        if !self.uses_pam() {
            Some(NO_PAM@)
        } else if self.missing().len() > 0 {
            Some("missing, please install:\n  "@ + join_of(self.missing(), "\n  "@))
        } else {
            None
        }
    }
}

/// What is said of this computer.
#[derive(Debug)]
pub struct Report {
    /// What does not work.
    pub warnings: Vec<String>,
    /// Why it cannot be used.
    pub refusal: Option<String>,
}

/// Appends an item that is lacking.
fn push_when(items: &mut Vec<String>, lacking: bool, item: String)
    ensures
        final(items).deep_view() == old(items).deep_view() + when(lacking, item@),
{
    let ghost before = items.deep_view();
    if lacking {
        items.push(item);
        assert(items.deep_view() =~= before + seq![item@]);
    } else {
        assert(items.deep_view() =~= before + Seq::empty());
    }
}

/// A text with another behind it.
fn with(text: &str, more: &str) -> (whole: String)
    ensures
        whole@ == text@ + more@,
{
    let mut whole = text.to_string();
    whole.append(more);
    whole
}

/// What has to be installed.
fn missing(environment: &Environment) -> (items: Vec<String>)
    ensures
        items.deep_view() == environment.missing(),
{
    let release = environment.release.as_str();
    let directory = match &environment.modules {
        Some(directory) => directory.as_str(),
        None => "",
    };
    proof {
        reveal_strlit("");
        assert(""@ =~= Seq::empty());
    }
    let mut items: Vec<String> = Vec::new();
    assert(items.deep_view() =~= Seq::empty());
    let u2f = with("pam_u2f.so: ", package(release, "pam-u2f", "libpam-u2f", "pam-u2f").as_str());
    push_when(&mut items, !environment.pam_u2f, u2f);
    let mut module = with("pam_passkey.so is not in ", directory);
    module.append(" (install passkey with PAMDIR=");
    module.append(directory);
    module.append(")");
    push_when(&mut items, !environment.pam_passkey, module);
    let config = with(
        "pamu2fcfg: ",
        package(release, "pam-u2f", "pamu2fcfg", "pamu2fcfg").as_str(),
    );
    push_when(&mut items, !environment.pamu2fcfg, config);
    let token = with(
        "fido2-token: ",
        package(release, "libfido2", "fido2-tools", "fido2-tools").as_str(),
    );
    push_when(&mut items, !environment.fido2_token, token);
    push_when(
        &mut items,
        !environment.root && !environment.sudo,
        "sudo (or run passkey as root)".to_string(),
    );
    assert(items.deep_view() =~= environment.missing());
    items
}

/// What does not work.
fn warnings(environment: &Environment) -> (items: Vec<String>)
    ensures
        items.deep_view() == environment.warnings(),
{
    let release = environment.release.as_str();
    let mut items: Vec<String> = Vec::new();
    assert(items.deep_view() =~= Seq::empty());
    let mut usb = with(
        "USB off: adb is missing (",
        package(release, "android-tools", "adb", "android-tools").as_str(),
    );
    usb.append(")");
    push_when(&mut items, !environment.adb, usb);
    let mut bluetooth = with(
        "Bluetooth off: BlueZ is not running (",
        package(release, "bluez", "bluez", "bluez").as_str(),
    );
    bluetooth.append(")");
    push_when(&mut items, !environment.bluetooth, bluetooth);
    let mut service = with(
        "systemd is not running, so the service is not set up. Start it as root at boot with your init system:\n    PASSKEY_ADB_USER=",
        environment.user.as_str(),
    );
    service.append(" ");
    service.append(environment.executable.as_str());
    service.append(" daemon");
    push_when(&mut items, !environment.systemd, service);
    assert(items.deep_view() =~= environment.warnings());
    items
}

/// What this computer needs, checked when it is used: what is missing stops, a way to the
/// phone that is missing only warns. Where there is no PAM nothing else is said.
pub fn check_environment(environment: &Environment) -> (report: Report)
    ensures
        opt_view(report.refusal) == environment.refusal(),
        report.warnings.deep_view() == (if environment.uses_pam() {
            environment.warnings()
        } else {
            Seq::empty()
        }),
{
    if !environment.pam_d || environment.modules.is_none() {
        let none: Vec<String> = Vec::new();
        assert(none.deep_view() =~= Seq::empty());
        return Report { warnings: none, refusal: Some(NO_PAM.to_string()) };
    }
    let items = missing(environment);
    assert(items.deep_view().len() == items@.len());
    let refusal = if items.len() > 0 {
        let mut text = "missing, please install:\n  ".to_string();
        text.append(join(&items, "\n  ").as_str());
        Some(text)
    } else {
        None
    };
    Report { warnings: warnings(environment), refusal }
}

// ---------------------------------------------------------------------------
// Setting up
// ---------------------------------------------------------------------------

/// What to do next when setting up.
#[derive(Debug, Clone, Copy, PartialEq, Eq, Structural)]
pub enum SetupStep {
    /// Say that there is no PAM.
    NoPam,
    /// Have the kernel provide virtual devices.
    LoadUhid,
    /// Say that the kernel provides no virtual devices.
    NoUhid,
    /// Set up the service and PAM.
    Install,
}

/// What to do next when setting up, by whether PAM is configured, whether the kernel provides
/// virtual devices, and whether it was told to.
pub fn configure(pam_d: bool, uhid: bool, loaded: bool) -> (step: SetupStep)
    ensures
        step == (if !pam_d {
            SetupStep::NoPam
        } else if uhid {
            SetupStep::Install
        } else if !loaded {
            SetupStep::LoadUhid
        } else {
            SetupStep::NoUhid
        }),
{
    if !pam_d {
        SetupStep::NoPam
    } else if uhid {
        SetupStep::Install
    } else if !loaded {
        SetupStep::LoadUhid
    } else {
        SetupStep::NoUhid
    }
}

// ---------------------------------------------------------------------------
// Laws
// ---------------------------------------------------------------------------

/// A way to the phone that is missing only warns: where PAM is used and nothing has to be
/// installed this computer is not refused, whichever ways are there, and each that is missing
/// is warned of.
pub proof fn law_missing_ways_only_warn(environment: Environment)
    requires
        environment.uses_pam(),
        environment.missing().len() == 0,
    ensures
        environment.refusal() is None,
        !environment.adb ==> environment.warnings().contains(environment.usb_warning()),
        !environment.bluetooth ==> environment.warnings().contains(environment.bluetooth_warning()),
{
    let warnings = environment.warnings();
    if !environment.adb {
        assert(warnings[0] == environment.usb_warning());
    }
    if !environment.bluetooth {
        let at: int = if environment.adb {
            0
        } else {
            1
        };
        assert(warnings[at] == environment.bluetooth_warning());
    }
}

/// Nothing has to be installed exactly where everything that is needed is there.
pub proof fn law_nothing_is_missing(environment: Environment)
    ensures
        environment.missing().len() == 0 <==> environment.pam_u2f && environment.pam_passkey
            && environment.pamu2fcfg && environment.fido2_token && (environment.root
            || environment.sudo),
{
}

/// All quotation marks at the start and the end of a value go, and nothing else.
pub proof fn law_values_are_unquoted(front: nat, body: Seq<char>, back: nat)
    requires
        body.len() > 0 ==> body[0] != '"' && body.last() != '"',
    ensures
        unquoted_of(Seq::new(front, |i: int| '"') + body + Seq::new(back, |i: int| '"')) == body,
{
    let whole = Seq::new(front, |i: int| '"') + body + Seq::new(back, |i: int| '"');
    let n = whole.len() as int;
    if body.len() > 0 {
        assert(whole[front as int] == body[0]);
        assert(whole[front + body.len() - 1] == body.last());
        lemma_run_end(whole, 0, '"', front as int);
        lemma_run_start(whole, front as int, n, '"', (front + body.len()) as int);
        assert(whole.subrange(front as int, (front + body.len()) as int) =~= body);
    } else {
        lemma_run_end(whole, 0, '"', n);
        assert(whole.subrange(n, n) =~= body);
    }
}

/// Where a run of a character ends.
proof fn lemma_run_end(s: Seq<char>, from: int, c: char, end: int)
    requires
        0 <= from <= end <= s.len(),
        forall|k: int| from <= k < end ==> s[k] == c,
        end < s.len() ==> s[end] != c,
    ensures
        run_end(s, from, c) == end,
    decreases end - from,
{
    if from < end {
        lemma_run_end(s, from + 1, c, end);
    }
}

/// Where a run of a character starts.
proof fn lemma_run_start(s: Seq<char>, from: int, to: int, c: char, start: int)
    requires
        0 <= from <= start <= to <= s.len(),
        forall|k: int| start <= k < to ==> s[k] == c,
        from < start ==> s[start - 1] != c,
    ensures
        run_start(s, from, to, c) == start,
    decreases to - start,
{
    if start < to {
        lemma_run_start(s, from, to - 1, c, start);
    }
}

/// The distribution and what it is like are the words behind `ID=` and `ID_LIKE=`, at the start of a
/// line and without quotation marks, in the order of the lines. Other lines say nothing of it.
pub proof fn law_distributions_are_read(
    lines: Seq<Seq<char>>,
    value: Seq<char>,
    other: Seq<char>,
)
    requires
        !seq!['I', 'D', '='].is_prefix_of(other),
        !seq!['I', 'D', '_', 'L', 'I', 'K', 'E', '='].is_prefix_of(other),
    ensures
        ids_on(Seq::empty()) == Seq::<Seq<char>>::empty(),
        ids_on(lines.push(seq!['I', 'D', '='] + value)) == ids_on(lines) + words_of(
            unquoted_of(value),
        ),
        ids_on(lines.push(seq!['I', 'D', '_', 'L', 'I', 'K', 'E', '='] + value)) == ids_on(lines)
            + words_of(unquoted_of(value)),
        ids_on(lines.push(other)) == ids_on(lines),
{
    reveal_strlit("ID=");
    reveal_strlit("ID_LIKE=");
    let id = seq!['I', 'D', '='];
    let like = seq!['I', 'D', '_', 'L', 'I', 'K', 'E', '='];
    assert("ID="@ =~= id);
    assert("ID_LIKE="@ =~= like);
    law_prefixes_and_suffixes(value, id);
    law_prefixes_and_suffixes(value, like);
    law_prefixes_and_suffixes(like + value, id);
    assert((like + value).take(3)[2] == '_');
    law_prefixes_and_suffixes(other, id);
    law_prefixes_and_suffixes(other, like);
    if after_prefix(other, id) is Some {
        assert(other.subrange(0, 3) =~= other.take(3));
    }
    if after_prefix(other, like) is Some {
        assert(other.subrange(0, 8) =~= other.take(8));
    }
    assert(lines.push(id + value).drop_last() =~= lines);
    assert(lines.push(like + value).drop_last() =~= lines);
    assert(lines.push(other).drop_last() =~= lines);
}

/// Which package is named: by the first family that the distribution is of, among that of Arch, that
/// of Debian and that of Fedora; and all three where it is of none.
pub proof fn law_packages_are_named(
    release: Seq<char>,
    arch: Seq<char>,
    debian: Seq<char>,
    fedora: Seq<char>,
)
    ensures
        ({
            let ids = ids_on(lines_of(release));
            let of_arch = ids.contains("arch"@);
            let of_debian = ids.contains("debian"@) || ids.contains("ubuntu"@);
            let of_fedora = ids.contains("fedora"@) || ids.contains("rhel"@);
            let name = package_of(release, arch, debian, fedora);
            &&& of_arch ==> name == arch
            &&& !of_arch && of_debian ==> name == debian
            &&& !of_arch && !of_debian && of_fedora ==> name == fedora
            &&& !of_arch && !of_debian && !of_fedora ==> name == arch + " (Arch) / "@ + debian
                + " (Debian) / "@ + fedora + " (Fedora)"@
        }),
{
}

/// How many of some things are lacking.
pub open spec fn count_of(lacking: Seq<bool>) -> nat
    decreases lacking.len(),
{
    if lacking.len() == 0 {
        0
    } else if lacking.last() {
        count_of(lacking.drop_last()) + 1
    } else {
        count_of(lacking.drop_last())
    }
}

/// What has to be installed is what is lacking, all of it and nothing else, each with the package
/// that has it.
pub proof fn law_missing_things_are_named(environment: Environment)
    ensures
        ({
            let release = environment.release@;
            let missing = environment.missing();
            let directory = environment.directory();
            let no_sudo = !environment.root && !environment.sudo;
            &&& missing.len() == count_of(
                seq![
                    !environment.pam_u2f,
                    !environment.pam_passkey,
                    !environment.pamu2fcfg,
                    !environment.fido2_token,
                    no_sudo,
                ],
            )
            &&& !environment.pam_u2f ==> missing.contains(
                "pam_u2f.so: "@ + package_of(release, "pam-u2f"@, "libpam-u2f"@, "pam-u2f"@),
            )
            &&& !environment.pam_passkey ==> missing.contains(
                "pam_passkey.so is not in "@ + directory + " (install passkey with PAMDIR="@
                    + directory + ")"@,
            )
            &&& !environment.pamu2fcfg ==> missing.contains(
                "pamu2fcfg: "@ + package_of(release, "pam-u2f"@, "pamu2fcfg"@, "pamu2fcfg"@),
            )
            &&& !environment.fido2_token ==> missing.contains(
                "fido2-token: "@ + package_of(
                    release,
                    "libfido2"@,
                    "fido2-tools"@,
                    "fido2-tools"@,
                ),
            )
            &&& no_sudo ==> missing.contains("sudo (or run passkey as root)"@)
            &&& no_sudo ==> missing.last() == "sudo (or run passkey as root)"@
            &&& !environment.pam_u2f ==> missing[0] == "pam_u2f.so: "@ + package_of(
                release,
                "pam-u2f"@,
                "libpam-u2f"@,
                "pam-u2f"@,
            )
        }),
{
    reveal_with_fuel(count_of, 6);
    let missing = environment.missing();
    let a: int = if environment.pam_u2f {
        0
    } else {
        1
    };
    let b: int = if environment.pam_passkey {
        a
    } else {
        a + 1
    };
    let c: int = if environment.pamu2fcfg {
        b
    } else {
        b + 1
    };
    let d: int = if environment.fido2_token {
        c
    } else {
        c + 1
    };
    assert(!environment.pam_u2f ==> missing.contains(missing[0]));
    assert(!environment.pam_passkey ==> missing.contains(missing[a]));
    assert(!environment.pamu2fcfg ==> missing.contains(missing[b]));
    assert(!environment.fido2_token ==> missing.contains(missing[c]));
    assert(!environment.root && !environment.sudo ==> missing.contains(missing[d]));
}

/// What does not work is said, and nothing else: one thing each for USB, for Bluetooth and for
/// systemd, in this order.
pub proof fn law_what_does_not_work_is_said(environment: Environment)
    ensures
        ({
            let release = environment.release@;
            let warnings = environment.warnings();
            &&& warnings.len() == count_of(
                seq![!environment.adb, !environment.bluetooth, !environment.systemd],
            )
            &&& !environment.adb ==> warnings[0] == "USB off: adb is missing ("@ + package_of(
                release,
                "android-tools"@,
                "adb"@,
                "android-tools"@,
            ) + ")"@
            &&& !environment.bluetooth ==> warnings.contains(
                "Bluetooth off: BlueZ is not running ("@ + package_of(
                    release,
                    "bluez"@,
                    "bluez"@,
                    "bluez"@,
                ) + ")"@,
            )
            &&& !environment.systemd ==> warnings.last()
                == "systemd is not running, so the service is not set up. Start it as root at boot with your init system:\n    PASSKEY_ADB_USER="@
                + environment.user@ + " "@ + environment.executable@ + " daemon"@
        }),
{
    reveal_with_fuel(count_of, 4);
    let warnings = environment.warnings();
    let a: int = if environment.adb {
        0
    } else {
        1
    };
    assert(!environment.bluetooth ==> warnings.contains(warnings[a]));
}

/// A computer is refused where it has no configuration or no modules of PAM, and else where something
/// is missing, with a line for each such thing.
pub proof fn law_refusals(environment: Environment)
    ensures
        !environment.pam_d || environment.modules is None ==> environment.refusal() == Some(
            "this system does not use Linux-PAM"@,
        ),
        environment.pam_d && environment.modules is Some ==> environment.refusal() == (
        if environment.missing().len() == 0 {
            None
        } else {
            Some(
                "missing, please install:"@ + "\n  "@ + join_of(environment.missing(), "\n  "@),
            )
        }),
        environment.modules matches Some(directory) ==> environment.directory() == directory@,
{
    reveal_strlit("missing, please install:\n  ");
    reveal_strlit("missing, please install:");
    reveal_strlit("\n  ");
    assert("missing, please install:\n  "@ =~= "missing, please install:"@ + "\n  "@);
}

} // verus!
