//! The command line: what is asked for, and what is said.

use vstd::prelude::*;
use vstd::string::*;
use vstd::utf8::*;

use crate::number::{decimal, decimal_of, lemma_decimal, number_of, read_number};
use crate::registry::{
    handles_for, handles_of, is_name, names_for, names_of, registration_of, StoreError,
};
use crate::text::{
    are_lines, begins, chars_of, contains, contains_char, index_of, is_line, is_space,
    law_first_place, law_patterns_are_found, law_replacing, law_trimming, lemma_lines_of_unlines,
    lines, lines_of, occurs, opt_view, position, replace, replaced, same, string_of, trim, trim_of,
    unlines,
};
use crate::unicode::{from_utf8_lossy, lossy_of, quoted, quoted_of};

verus! {

// ---------------------------------------------------------------------------
// Commands
// ---------------------------------------------------------------------------

/// What is said to who asks for help.
pub const HELP: &'static str = "Usage: passkey <command>\n\nCommands:\n  add [name]\n  list\n  remove <number or name>\n  status\n  uninstall";

/// A command.
#[derive(Debug)]
pub enum Command {
    /// Register a phone, under a name.
    Add(Option<String>),
    /// List the registered phones.
    List,
    /// Unregister a phone, by its number or name.
    Remove(String),
    /// Say what is connected and registered.
    Status,
    /// Undo the setup.
    Uninstall,
    /// As root: set up for a user.
    RootConfigure(String),
    /// As root: use one phone only, for a program.
    RootUse(Option<String>, Option<String>),
    /// As root: register for a user.
    RootStore(String),
    /// As root: unregister a user's handle.
    RootRemove(String, String),
    /// As root: undo the setup.
    RootUninstall,
    /// Say how the program is used.
    Help,
}

/// What a command stands for.
pub enum Order {
    /// Register a phone, under a name.
    Add(Option<Seq<char>>),
    /// List the registered phones.
    List,
    /// Unregister a phone, by its number or name.
    Remove(Seq<char>),
    /// Say what is connected and registered.
    Status,
    /// Undo the setup.
    Uninstall,
    /// As root: set up for a user.
    RootConfigure(Seq<char>),
    /// As root: use one phone only, for a program.
    RootUse(Option<Seq<char>>, Option<Seq<char>>),
    /// As root: register for a user.
    RootStore(Seq<char>),
    /// As root: unregister a user's handle.
    RootRemove(Seq<char>, Seq<char>),
    /// As root: undo the setup.
    RootUninstall,
    /// Say how the program is used.
    Help,
}

impl View for Command {
    type V = Order;

    open spec fn view(&self) -> Order {
        match self {
            Command::Add(name) => Order::Add(opt_view(*name)),
            Command::List => Order::List,
            Command::Remove(which) => Order::Remove(which@),
            Command::Status => Order::Status,
            Command::Uninstall => Order::Uninstall,
            Command::RootConfigure(user) => Order::RootConfigure(user@),
            Command::RootUse(device, pid) => Order::RootUse(opt_view(*device), opt_view(*pid)),
            Command::RootStore(user) => Order::RootStore(user@),
            Command::RootRemove(user, handle) => Order::RootRemove(user@, handle@),
            Command::RootUninstall => Order::RootUninstall,
            Command::Help => Order::Help,
        }
    }
}

/// An argument, where it is there.
pub open spec fn argument(args: Seq<Seq<char>>, i: int) -> Option<Seq<char>> {
    if i < args.len() {
        Some(args[i])
    } else {
        None
    }
}

/// What a command of root's is where this program is root's.
pub open spec fn root_order(command: Seq<char>, args: Seq<Seq<char>>) -> Result<Order, Seq<char>> {
    if command == "root-use"@ {
        Ok(Order::RootUse(argument(args, 0), argument(args, 1)))
    } else if command == "root-uninstall"@ {
        Ok(Order::RootUninstall)
    } else if args.len() == 0 {
        Err("missing user"@)
    } else if command == "root-configure"@ {
        Ok(Order::RootConfigure(args[0]))
    } else if command == "root-store"@ {
        Ok(Order::RootStore(args[0]))
    } else if args.len() == 1 {
        Err("missing credential"@)
    } else {
        Ok(Order::RootRemove(args[0], args[1]))
    }
}

/// The commands of root.
pub open spec fn is_root_command(command: Seq<char>) -> bool {
    ||| command == "root-configure"@
    ||| command == "root-use"@
    ||| command == "root-store"@
    ||| command == "root-remove"@
    ||| command == "root-uninstall"@
}

/// What a command and its arguments ask for, or what is said of them.
pub open spec fn order_of(command: Seq<char>, args: Seq<Seq<char>>, root: bool) -> Result<
    Order,
    Seq<char>,
> {
    if command == "add"@ {
        Ok(Order::Add(argument(args, 0)))
    } else if command == "list"@ {
        Ok(Order::List)
    } else if command == "remove"@ {
        if args.len() == 0 {
            Err("usage: passkey remove <number or name>"@)
        } else {
            Ok(Order::Remove(args[0]))
        }
    } else if command == "status"@ {
        Ok(Order::Status)
    } else if command == "uninstall"@ {
        Ok(Order::Uninstall)
    } else if is_root_command(command) {
        if root {
            root_order(command, args)
        } else {
            Err("this internal command must run as root"@)
        }
    } else if command == "help"@ || command == "--help"@ || command == "-h"@ {
        Ok(Order::Help)
    } else {
        Err("unknown command "@ + quoted_of(command) + "; run `passkey help`"@)
    }
}

/// A copy of an argument, where it is there.
fn given(args: &Vec<String>, i: usize) -> (found: Option<String>)
    ensures
        opt_view(found) == argument(args.deep_view(), i as int),
{
    if i < args.len() {
        assert(args.deep_view()[i as int] == args@[i as int]@);
        Some(args[i].as_str().to_string())
    } else {
        None
    }
}

/// What a command of root's asks for.
fn root_command(command: &str, args: &Vec<String>) -> (order: Result<Command, String>)
    requires
        is_root_command(command@),
    ensures
        order is Ok <==> root_order(command@, args.deep_view()) is Ok,
        order matches Ok(order) ==> order@ == root_order(command@, args.deep_view())->Ok_0,
        order matches Err(error) ==> error@ == root_order(command@, args.deep_view())->Err_0,
{
    if same(command, "root-use") {
        return Ok(Command::RootUse(given(args, 0), given(args, 1)));
    }
    if same(command, "root-uninstall") {
        return Ok(Command::RootUninstall);
    }
    let user = match given(args, 0) {
        Some(user) => user,
        None => return Err("missing user".to_string()),
    };
    if same(command, "root-configure") {
        return Ok(Command::RootConfigure(user));
    }
    if same(command, "root-store") {
        return Ok(Command::RootStore(user));
    }
    match given(args, 1) {
        Some(handle) => Ok(Command::RootRemove(user, handle)),
        None => Err("missing credential".to_string()),
    }
}

/// What a command and its arguments ask for, or what is said of them.
pub fn run(command: &str, args: &Vec<String>, root: bool) -> (order: Result<Command, String>)
    ensures
        order is Ok <==> order_of(command@, args.deep_view(), root) is Ok,
        order matches Ok(order) ==> order@ == order_of(command@, args.deep_view(), root)->Ok_0,
        order matches Err(error) ==> error@ == order_of(command@, args.deep_view(), root)->Err_0,
{
    if same(command, "add") {
        return Ok(Command::Add(given(args, 0)));
    }
    if same(command, "list") {
        return Ok(Command::List);
    }
    if same(command, "remove") {
        return match given(args, 0) {
            Some(which) => Ok(Command::Remove(which)),
            None => Err("usage: passkey remove <number or name>".to_string()),
        };
    }
    if same(command, "status") {
        return Ok(Command::Status);
    }
    if same(command, "uninstall") {
        return Ok(Command::Uninstall);
    }
    if same(command, "root-configure") || same(command, "root-use") || same(command, "root-store")
        || same(command, "root-remove") || same(command, "root-uninstall") {
        if !root {
            return Err("this internal command must run as root".to_string());
        }
        return root_command(command, args);
    }
    if same(command, "help") || same(command, "--help") || same(command, "-h") {
        return Ok(Command::Help);
    }
    let mut message = "unknown command ".to_string();
    message.append(quoted(command).as_str());
    message.append("; run `passkey help`");
    Err(message)
}

// ---------------------------------------------------------------------------
// Registering a phone
// ---------------------------------------------------------------------------

/// What a phone is called by default, before a number makes the name one of its own.
pub open spec fn base_name(label: Option<Seq<char>>) -> Seq<char> {
    if label is Some && trim_of(label->0).len() > 0 {
        trim_of(label->0)
    } else {
        "Android device"@
    }
}

/// A name with a number.
pub open spec fn numbered_name(base: Seq<char>, n: nat) -> Seq<char> {
    base.push(' ') + decimal_of(n)
}

/// A name is the one that is offered: the base where it is free, or else the base with the
/// least number from two on that makes it free.
pub open spec fn is_offered(name: Seq<char>, existing: Seq<Seq<char>>, base: Seq<char>) -> bool {
    if !existing.contains(base) {
        name == base
    } else {
        !existing.contains(name) && exists|n: nat|
            n >= 2 && name == #[trigger] numbered_name(base, n) && (forall|m: nat|
                2 <= m < n ==> existing.contains(#[trigger] numbered_name(base, m)))
    }
}

/// Whether a name is taken.
fn is_taken(name: &str, existing: &Vec<String>) -> (taken: bool)
    ensures
        taken == existing.deep_view().contains(name@),
{
    let mut i: usize = 0;
    while i < existing.len()
        invariant
            i <= existing@.len(),
            forall|k: int| 0 <= k < i ==> (#[trigger] existing.deep_view()[k]) != name@,
        decreases existing@.len() - i,
    {
        assert(existing.deep_view()[i as int] == existing@[i as int]@);
        if same(existing[i].as_str(), name) {
            return true;
        }
        i = i + 1;
    }
    false
}

/// Names with different numbers differ.
proof fn lemma_numbered_names_differ(base: Seq<char>, n: nat, m: nat)
    requires
        n != m,
    ensures
        numbered_name(base, n) != numbered_name(base, m),
{
    if numbered_name(base, n) == numbered_name(base, m) {
        let k = base.len() as int + 1;
        assert(numbered_name(base, n).skip(k) =~= decimal_of(n));
        assert(numbered_name(base, m).skip(k) =~= decimal_of(m));
        lemma_decimal(n);
        lemma_decimal(m);
    }
}

/// As many numbered names are taken as there are names at most.
proof fn lemma_numbers_run_out(existing: Seq<Seq<char>>, base: Seq<char>, n: nat)
    requires
        n >= 2,
        forall|m: nat| 2 <= m < n ==> existing.contains(#[trigger] numbered_name(base, m)),
    ensures
        n - 2 <= existing.len(),
{
    let taken = Seq::new((n - 2) as nat, |i: int| numbered_name(base, (i + 2) as nat));
    assert(taken.no_duplicates()) by {
        assert forall|i: int, j: int| 0 <= i < taken.len() && 0 <= j < taken.len() && i
            != j implies taken[i] != taken[j] by {
            lemma_numbered_names_differ(base, (i + 2) as nat, (j + 2) as nat);
        }
    }
    taken.unique_seq_to_set();
    existing.lemma_cardinality_of_set();
    assert(taken.to_set().subset_of(existing.to_set())) by {
        assert forall|name: Seq<char>| taken.to_set().contains(name) implies existing.to_set().contains(
            name,
        ) by {
            let i = choose|i: int| 0 <= i < taken.len() && taken[i] == name;
            assert(existing.contains(numbered_name(base, (i + 2) as nat)));
        }
    }
    vstd::set_lib::lemma_len_subset(taken.to_set(), existing.to_set());
}

/// The name that is offered for a phone, by what it calls itself and the names that are
/// taken.
pub fn default_name(label: Option<&str>, existing: &Vec<String>) -> (name: String)
    ensures
        is_offered(
            name@,
            existing.deep_view(),
            base_name(
                match label {
                    Some(label) => Some(label@),
                    None => None,
                },
            ),
        ),
{
    let mut base = "Android device".to_string();
    if let Some(label) = label {
        let trimmed = trim(label);
        if !trimmed.as_str().is_empty() {
            base = trimmed;
        }
    }
    let ghost wanted = base_name(
        match label {
            Some(label) => Some(label@),
            None => None,
        },
    );
    assert(base@ == wanted);
    if !is_taken(base.as_str(), existing) {
        return base;
    }
    let mut suffix: u128 = 2;
    loop
        invariant
            base@ == wanted,
            wanted == base_name(
                match label {
                    Some(label) => Some(label@),
                    None => None,
                },
            ),
            existing.deep_view().contains(base@),
            2 <= suffix <= existing@.len() + 2,
            forall|m: nat|
                2 <= m < suffix ==> existing.deep_view().contains(
                    #[trigger] numbered_name(base@, m),
                ),
        decreases existing@.len() + 3 - suffix,
    {
        let mut name = base.as_str().to_string();
        name.push(' ');
        name.append(decimal(suffix).as_str());
        assert(name@ == numbered_name(base@, suffix as nat));
        if !is_taken(name.as_str(), existing) {
            return name;
        }
        proof {
            assert(existing@.len() == existing.len());
            assert forall|m: nat| 2 <= m < suffix + 1 implies existing.deep_view().contains(
                #[trigger] numbered_name(base@, m),
            ) by {
                assert(m < suffix || m == suffix);
            }
            lemma_numbers_run_out(existing.deep_view(), base@, (suffix + 1) as nat);
        }
        suffix = suffix + 1;
    }
}

/// Whether the user is asked for a name: where none is given, and where there is somebody to
/// ask.
pub fn asks_for_name(given: Option<&str>, terminal: bool) -> (asks: bool)
    ensures
        asks == ((given is None || trim_of(given->0@).len() == 0) && terminal),
{
    match given {
        Some(given) => trim(given).as_str().is_empty() && terminal,
        None => terminal,
    }
}

/// The name that is meant: the one that is given, or else the one that is typed, or else the
/// one that is offered.
pub open spec fn meant_name(
    given: Option<Seq<char>>,
    typed: Option<Seq<char>>,
    offered: Seq<char>,
) -> Seq<char> {
    if given is Some && trim_of(given->0).len() > 0 {
        trim_of(given->0)
    } else if typed is Some && trim_of(typed->0).len() > 0 {
        trim_of(typed->0)
    } else {
        offered
    }
}

/// A name with spaces for what cannot be kept.
pub open spec fn kept_name(name: Seq<char>) -> Seq<char> {
    replaced(name, seq!['\t', '\n', '\r'], ' ')
}

/// The name under which a phone is registered, or what is said where it is taken.
pub fn device_name(
    given: Option<&str>,
    typed: Option<&str>,
    offered: &str,
    existing: &Vec<String>,
) -> (name: Result<String, String>)
    ensures
        ({
            let wanted = kept_name(
                meant_name(
                    match given {
                        Some(given) => Some(given@),
                        None => None,
                    },
                    match typed {
                        Some(typed) => Some(typed@),
                        None => None,
                    },
                    offered@,
                ),
            );
            &&& name is Ok <==> !existing.deep_view().contains(wanted)
            &&& name matches Ok(name) ==> name@ == wanted
            &&& name matches Err(error) ==> error@ == "device name "@ + quoted_of(wanted)
                + " is already used"@
        }),
{
    let mut meant = match given {
        Some(given) => trim(given),
        None => String::new(),
    };
    if meant.as_str().is_empty() {
        if let Some(typed) = typed {
            meant = trim(typed);
        }
    }
    if meant.as_str().is_empty() {
        meant = offered.to_string();
    }
    let signs: Vec<char> = vec!['\t', '\n', '\r'];
    assert(signs@ =~= seq!['\t', '\n', '\r']);
    let name = replace(meant.as_str(), signs.as_slice(), ' ');
    if is_taken(name.as_str(), existing) {
        let mut error = "device name ".to_string();
        error.append(quoted(name.as_str()).as_str());
        error.append(" is already used");
        return Err(error);
    }
    Ok(name)
}

/// Where the user is known: this machine.
pub open spec fn origin_of(hostname: Seq<char>) -> Seq<char> {
    "pam://"@ + hostname
}

/// The arguments of pamu2fcfg for a new credential of a user.
pub fn registration_arguments(user: &str, hostname: &str) -> (arguments: Vec<String>)
    ensures
        arguments.deep_view() == seq![
            "-u"@,
            user@,
            "-o"@,
            origin_of(hostname@),
            "-i"@,
            origin_of(hostname@),
            "-V"@,
            "-n"@,
        ],
{
    let mut origin = "pam://".to_string();
    origin.append(hostname);
    let mut arguments: Vec<String> = Vec::new();
    arguments.push("-u".to_string());
    arguments.push(user.to_string());
    arguments.push("-o".to_string());
    arguments.push(origin.as_str().to_string());
    arguments.push("-i".to_string());
    arguments.push(origin);
    arguments.push("-V".to_string());
    arguments.push("-n".to_string());
    assert(arguments.deep_view() =~= seq![
        "-u"@,
        user@,
        "-o"@,
        origin_of(hostname@),
        "-i"@,
        origin_of(hostname@),
        "-V"@,
        "-n"@,
    ]);
    arguments
}

/// Why what pamu2fcfg wrote is no credential.
#[derive(Debug)]
pub enum CredentialError {
    /// It is no text.
    NotText(std::string::FromUtf8Error),
    /// It is none in form.
    Invalid,
}

/// What is said of a credential that is none in form.
pub const INVALID_CREDENTIAL: &'static str = "pamu2fcfg returned an invalid credential";

/// A credential in form: it begins with a colon, and has a comma.
pub open spec fn is_credential(text: Seq<char>) -> bool {
    text.len() > 0 && text[0] == ':' && text.contains(',')
}

/// The credential that pamu2fcfg wrote.
pub fn read_credential(output: Vec<u8>) -> (credential: Result<String, CredentialError>)
    ensures
        credential matches Err(CredentialError::NotText(_)) <==> !valid_utf8(output@),
        valid_utf8(output@) ==> (credential is Ok <==> is_credential(
            trim_of(decode_utf8(output@)),
        )),
        credential matches Ok(text) ==> text@ == trim_of(decode_utf8(output@)),
{
    match String::from_utf8(output) {
        Err(error) => Err(CredentialError::NotText(error)),
        Ok(text) => {
            let credential = trim(text.as_str());
            if !begins(credential.as_str(), ':') || !contains_char(credential.as_str(), ',') {
                return Err(CredentialError::Invalid);
            }
            Ok(credential)
        },
    }
}

/// What a program said before it failed.
pub fn failure_text(stderr: &[u8]) -> (text: String)
    ensures
        text@ == trim_of(lossy_of(stderr@)),
        valid_utf8(stderr@) ==> text@ == trim_of(decode_utf8(stderr@)),
{
    trim(from_utf8_lossy(stderr).as_str())
}

/// The text that registers a credential under a name.
pub open spec fn registration_text_of(credential: Seq<char>, name: Seq<char>) -> Seq<char> {
    credential.push('\n') + name.push('\n')
}

/// The text that registers a credential under a name.
pub fn registration_text(credential: &str, name: &str) -> (text: String)
    ensures
        text@ == registration_text_of(credential@, name@),
{
    let mut text = credential.to_string();
    text.push('\n');
    text.append(name);
    text.push('\n');
    assert(text@ =~= registration_text_of(credential@, name@));
    text
}

/// What is said of a phone that is registered.
pub fn registered_message(name: &str) -> (text: String)
    ensures
        text@ == "Done: "@ + quoted_of(name@) + " is registered."@,
{
    let mut text = "Done: ".to_string();
    text.append(quoted(name).as_str());
    text.append(" is registered.");
    text
}

// ---------------------------------------------------------------------------
// Unregistering a phone
// ---------------------------------------------------------------------------

/// A phone is meant by its number, counted from one, or by its name.
pub open spec fn is_meant(which: Seq<char>, names: Seq<Seq<char>>, i: int) -> bool {
    which == decimal_of((i + 1) as nat) || which == names[i]
}

/// The position of the first phone that is meant, or the number of phones.
pub open spec fn meant_from(which: Seq<char>, names: Seq<Seq<char>>, from: int) -> int
    decreases names.len() - from,
{
    if from >= names.len() || is_meant(which, names, from) {
        from
    } else {
        meant_from(which, names, from + 1)
    }
}

/// The position of the phone that is meant, or what is said where there is none.
pub fn find_device(which: &str, names: &Vec<String>) -> (index: Result<usize, String>)
    ensures
        ({
            let at = meant_from(which@, names.deep_view(), 0);
            &&& index is Ok <==> at < names@.len()
            &&& index matches Ok(index) ==> index == at
            &&& index matches Err(error) ==> error@ == "no registered device "@ + quoted_of(which@)
        }),
{
    let mut i: usize = 0;
    while i < names.len()
        invariant
            i <= names@.len(),
            meant_from(which@, names.deep_view(), 0) == meant_from(
                which@,
                names.deep_view(),
                i as int,
            ),
        decreases names@.len() - i,
    {
        assert(names.deep_view()[i as int] == names@[i as int]@);
        if same(which, decimal(i as u128 + 1).as_str()) || same(which, names[i].as_str()) {
            return Ok(i);
        }
        i = i + 1;
    }
    let mut error = "no registered device ".to_string();
    error.append(quoted(which).as_str());
    Err(error)
}

/// A phone that is to be unregistered.
#[derive(Debug)]
pub struct Unregistered {
    /// Its handle.
    pub handle: String,
    /// Its name.
    pub name: String,
}

/// The phone of a user that is to be unregistered, or what is said where there is none.
pub fn remove(which: &str, keys: &str, names: &str, user: &str) -> (found: Result<
    Unregistered,
    String,
>)
    ensures
        ({
            let listed = names_of(keys@, names@, user@);
            let at = meant_from(which@, listed, 0);
            &&& found is Ok <==> at < listed.len()
            &&& found matches Ok(found) ==> found.handle@ == handles_of(keys@, user@)[at]
                && found.name@ == listed[at]
            &&& found matches Err(error) ==> error@ == "no registered device "@ + quoted_of(which@)
        }),
{
    let listed = names_for(keys, names, user);
    let handles = handles_for(keys, user);
    let index = match find_device(which, &listed) {
        Ok(index) => index,
        Err(error) => return Err(error),
    };
    assert(handles.deep_view()[index as int] == handles@[index as int]@);
    assert(listed.deep_view()[index as int] == listed@[index as int]@);
    Ok(
        Unregistered {
            handle: handles[index].as_str().to_string(),
            name: listed[index].as_str().to_string(),
        },
    )
}

/// What is said of a phone that is unregistered.
pub fn removed_message(name: &str) -> (text: String)
    ensures
        text@ == "Removed "@ + quoted_of(name@) + "."@,
{
    let mut text = "Removed ".to_string();
    text.append(quoted(name).as_str());
    text.append(".");
    text
}

// ---------------------------------------------------------------------------
// What is said of phones
// ---------------------------------------------------------------------------

/// A line for a phone: its number and its name.
pub open spec fn numbered_line(i: int, name: Seq<char>) -> Seq<char> {
    "  "@ + decimal_of((i + 1) as nat) + "  "@ + name
}

/// Lines for phones, numbered from one.
pub open spec fn numbered_lines(names: Seq<Seq<char>>) -> Seq<char>
    decreases names.len(),
{
    if names.len() == 0 {
        Seq::empty()
    } else {
        numbered_lines(names.drop_last()) + numbered_line(names.len() - 1, names.last()).push('\n')
    }
}

/// Appends a line for a phone.
fn append_numbered(text: &mut String, i: usize, name: &str)
    ensures
        final(text)@ == old(text)@ + numbered_line(i as int, name@).push('\n'),
{
    let ghost before = text@;
    text.append("  ");
    text.append(decimal(i as u128 + 1).as_str());
    text.append("  ");
    text.append(name);
    text.push('\n');
    assert(text@ =~= before + numbered_line(i as int, name@).push('\n'));
}

/// The list of the registered phones.
pub open spec fn device_table_of(names: Seq<Seq<char>>) -> Seq<char> {
    if names.len() == 0 {
        "  No devices registered.\n"@
    } else {
        numbered_lines(names)
    }
}

/// The list of the registered phones.
pub fn print_devices(names: &Vec<String>) -> (text: String)
    ensures
        text@ == device_table_of(names.deep_view()),
{
    if names.len() == 0 {
        return "  No devices registered.\n".to_string();
    }
    let ghost all = names.deep_view();
    let mut text = String::new();
    let mut i: usize = 0;
    assert(text@ =~= numbered_lines(all.take(0)));
    while i < names.len()
        invariant
            all == names.deep_view(),
            i <= names@.len(),
            text@ == numbered_lines(all.take(i as int)),
        decreases names@.len() - i,
    {
        append_numbered(&mut text, i, names[i].as_str());
        proof {
            assert(all.take(i + 1).drop_last() =~= all.take(i as int));
            assert(all.take(i + 1).last() == names@[i as int]@);
        }
        i = i + 1;
    }
    assert(all.take(i as int) =~= all);
    text
}

/// What is said of the service, of the phone that is connected and of the services that are
/// set up.
pub open spec fn status_of(
    running: bool,
    device: Option<Seq<char>>,
    services: Seq<Seq<char>>,
) -> Seq<char> {
    let service = if running {
        "service: running\n"@
    } else {
        "service: not running\n"@
    };
    let connected = match device {
        Some(device) => device,
        None => "not connected"@,
    };
    service + "device: "@ + connected.push('\n') + service_lines(services)
}

/// A line for each service that is set up.
pub open spec fn service_lines(services: Seq<Seq<char>>) -> Seq<char>
    decreases services.len(),
{
    if services.len() == 0 {
        Seq::empty()
    } else {
        service_lines(services.drop_last()) + ("PAM: "@ + services.last()).push('\n')
    }
}

/// What is said of the service, of the phone that is connected and of the services that are
/// set up.
pub fn status(running: bool, device: Option<&str>, services: &Vec<String>) -> (text: String)
    ensures
        text@ == status_of(
            running,
            match device {
                Some(device) => Some(device@),
                None => None,
            },
            services.deep_view(),
        ),
{
    let ghost all = services.deep_view();
    let mut text = if running {
        "service: running\n".to_string()
    } else {
        "service: not running\n".to_string()
    };
    let ghost first = text@;
    text.append("device: ");
    let connected = match device {
        Some(device) => device,
        None => "not connected",
    };
    text.append(connected);
    text.push('\n');
    let ghost head = first + "device: "@ + connected@.push('\n');
    assert(text@ =~= head);
    assert(text@ =~= head + service_lines(all.take(0)));
    let mut i: usize = 0;
    while i < services.len()
        invariant
            all == services.deep_view(),
            i <= services@.len(),
            text@ == head + service_lines(all.take(i as int)),
        decreases services@.len() - i,
    {
        text.append("PAM: ");
        text.append(services[i].as_str());
        text.push('\n');
        proof {
            assert(all.take(i + 1).drop_last() =~= all.take(i as int));
            assert(all.take(i + 1).last() == services@[i as int]@);
            assert(text@ =~= head + service_lines(all.take(i + 1)));
        }
        i = i + 1;
    }
    assert(all.take(i as int) =~= all);
    text
}

/// What the virtual security key is listed by.
pub const OUR_KEY: &'static str = "vendor=0x1209, product=0x7ab1";

/// The position of the first line that lists the virtual security key, or the number of
/// lines.
pub open spec fn key_position(lines: Seq<Seq<char>>, from: int) -> int
    decreases lines.len() - from,
{
    if from >= lines.len() || occurs(lines[from], OUR_KEY@) {
        from
    } else {
        key_position(lines, from + 1)
    }
}

/// The device of the virtual security key: what stands before a colon on the first line that
/// lists it.
pub open spec fn key_device(text: Seq<char>) -> Option<Seq<char>> {
    let lines = lines_of(text);
    let at = key_position(lines, 0);
    if 0 <= at < lines.len() {
        Some(lines[at].take(position(lines[at], 0, ':')))
    } else {
        None
    }
}

/// The device of the virtual security key in a list of keys.
pub fn find_key(text: &str) -> (device: Option<String>)
    ensures
        opt_view(device) == key_device(text@),
{
    let all = lines(text);
    let mut i: usize = 0;
    while i < all.len()
        invariant
            all.deep_view() == lines_of(text@),
            i <= all@.len(),
            key_position(lines_of(text@), 0) == key_position(lines_of(text@), i as int),
        decreases all@.len() - i,
    {
        assert(lines_of(text@)[i as int] == all@[i as int]@);
        if contains(all[i].as_str(), OUR_KEY) {
            let chars = chars_of(all[i].as_str());
            let end = index_of(chars.as_slice(), 0, ':');
            let device = string_of(chars.as_slice(), 0, end);
            assert(device@ =~= chars@.take(end as int));
            return Some(device);
        }
        i = i + 1;
    }
    None
}

/// The device of the virtual security key in what fido2-token wrote.
pub fn virtual_device(output: &[u8]) -> (device: Option<String>)
    ensures
        opt_view(device) == key_device(lossy_of(output@)),
        valid_utf8(output@) ==> opt_view(device) == key_device(decode_utf8(output@)),
{
    find_key(from_utf8_lossy(output).as_str())
}

// ---------------------------------------------------------------------------
// Choosing a phone
// ---------------------------------------------------------------------------

/// Which of the phones that are connected is meant.
#[derive(Debug, Clone, Copy, PartialEq, Eq, Structural)]
pub enum Choice {
    /// None is connected.
    Nobody,
    /// The only one.
    Only,
    /// The user has to say.
    Ask,
}

/// What is said where the user has to say which phone is meant, and nobody can be asked.
pub const SEVERAL: &'static str = "several devices are connected; run in a terminal to choose one";

/// Which of the phones that are connected is meant.
pub fn select_connection(devices: &Vec<(String, String)>, terminal: bool) -> (choice: Result<
    Choice,
    &'static str,
>)
    ensures
        choice is Err <==> devices@.len() > 1 && !terminal,
        choice matches Err(error) ==> error@ == SEVERAL@,
        choice matches Ok(choice) ==> choice == (if devices@.len() == 0 {
            Choice::Nobody
        } else if devices@.len() == 1 {
            Choice::Only
        } else {
            Choice::Ask
        }),
{
    if devices.len() == 0 {
        return Ok(Choice::Nobody);
    }
    if devices.len() == 1 {
        return Ok(Choice::Only);
    }
    if !terminal {
        return Err(SEVERAL);
    }
    Ok(Choice::Ask)
}

/// The list that the user chooses from.
pub fn connection_table(devices: &Vec<(String, String)>) -> (text: String)
    ensures
        text@ == "Several devices are connected:\n"@ + numbered_lines(
            devices.deep_view().map_values(|device: (Seq<char>, Seq<char>)| device.1),
        ),
{
    let ghost labels = devices.deep_view().map_values(|device: (Seq<char>, Seq<char>)| device.1);
    let ghost head = "Several devices are connected:\n"@;
    let mut text = "Several devices are connected:\n".to_string();
    let mut i: usize = 0;
    assert(text@ =~= head + numbered_lines(labels.take(0)));
    while i < devices.len()
        invariant
            labels == devices.deep_view().map_values(
                |device: (Seq<char>, Seq<char>)| device.1,
            ),
            i <= devices@.len(),
            text@ == head + numbered_lines(labels.take(i as int)),
        decreases devices@.len() - i,
    {
        append_numbered(&mut text, i, devices[i].1.as_str());
        proof {
            assert(labels.take(i + 1).drop_last() =~= labels.take(i as int));
            assert(labels.take(i + 1).last() == (devices@[i as int].1)@);
            assert(text@ =~= head + numbered_lines(labels.take(i + 1)));
        }
        i = i + 1;
    }
    assert(labels.take(i as int) =~= labels);
    text
}

/// The position that an answer means: a number, counted from one; zero means the first too.
pub open spec fn answered_position(answer: Seq<char>, count: nat) -> Option<nat> {
    match number_of(trim_of(answer), 10, usize::MAX as nat) {
        Some(number) => {
            let position: nat = if number == 0 {
                0
            } else {
                (number - 1) as nat
            };
            if position < count {
                Some(position)
            } else {
                None
            }
        },
        None => None,
    }
}

/// The position that an answer means.
pub fn read_choice(answer: &str, count: usize) -> (position: Option<usize>)
    ensures
        position is Some <==> answered_position(answer@, count as nat) is Some,
        position matches Some(position) ==> answered_position(answer@, count as nat) == Some(
            position as nat,
        ),
{
    match read_number(trim(answer).as_str(), 10, usize::MAX as u64) {
        Some(number) => {
            let position: u64 = if number == 0 {
                0
            } else {
                number - 1
            };
            if position < count as u64 {
                Some(position as usize)
            } else {
                None
            }
        },
        None => None,
    }
}

// ---------------------------------------------------------------------------
// Running as root, and the setup
// ---------------------------------------------------------------------------

/// The command that runs this program as root.
pub open spec fn privileged_command(root: bool, executable: Seq<char>, args: Seq<Seq<char>>) -> Seq<
    Seq<char>,
> {
    if root {
        seq![executable] + args
    } else {
        seq!["sudo"@, executable] + args
    }
}

/// The command that runs this program as root, with arguments.
pub fn privileged(root: bool, executable: &str, args: &Vec<String>) -> (command: Vec<String>)
    ensures
        command.deep_view() == privileged_command(root, executable@, args.deep_view()),
{
    let ghost all = args.deep_view();
    let mut command: Vec<String> = Vec::new();
    if !root {
        command.push("sudo".to_string());
    }
    command.push(executable.to_string());
    let ghost head = command.deep_view();
    proof {
        assert(head =~= (if root {
            seq![executable@]
        } else {
            seq!["sudo"@, executable@]
        }));
        assert(command.deep_view() =~= head + all.take(0));
    }
    let mut i: usize = 0;
    while i < args.len()
        invariant
            all == args.deep_view(),
            i <= args@.len(),
            command.deep_view() == head + all.take(i as int),
        decreases args@.len() - i,
    {
        let ghost before = command.deep_view();
        command.push(args[i].as_str().to_string());
        proof {
            assert(command.deep_view() =~= before.push(all[i as int]));
            assert(head + all.take(i + 1) =~= (head + all.take(i as int)).push(all[i as int]));
        }
        i = i + 1;
    }
    assert(all.take(i as int) =~= all);
    command
}

/// What is said of a user who is not known.
pub fn no_user(uid: u32) -> (text: String)
    ensures
        text@ == "no user for uid "@ + decimal_of(uid as nat),
{
    let mut text = "no user for uid ".to_string();
    text.append(decimal(uid as u128).as_str());
    text
}

/// What tells the service for which user phones on USB are asked.
pub open spec fn dropin_of(user: Seq<char>) -> Seq<char> {
    "[Service]\nEnvironment=PASSKEY_ADB_USER="@ + user.push('\n')
}

/// What tells the service for which user phones on USB are asked.
pub fn dropin(user: &str) -> (text: String)
    ensures
        text@ == dropin_of(user@),
{
    let mut text = "[Service]\nEnvironment=PASSKEY_ADB_USER=".to_string();
    text.append(user);
    text.push('\n');
    assert(text@ =~= dropin_of(user@));
    text
}

// ---------------------------------------------------------------------------
// Laws
// ---------------------------------------------------------------------------

/// The name that is offered is free, and there is one such name.
pub proof fn law_offered_name_is_free(
    name: Seq<char>,
    other: Seq<char>,
    existing: Seq<Seq<char>>,
    base: Seq<char>,
)
    requires
        is_offered(name, existing, base),
        is_offered(other, existing, base),
    ensures
        !existing.contains(name),
        name == other,
{
    if existing.contains(base) {
        let n = choose|n: nat|
            n >= 2 && name == #[trigger] numbered_name(base, n) && (forall|m: nat|
                2 <= m < n ==> existing.contains(#[trigger] numbered_name(base, m)));
        let k = choose|k: nat|
            k >= 2 && other == #[trigger] numbered_name(base, k) && (forall|m: nat|
                2 <= m < k ==> existing.contains(#[trigger] numbered_name(base, m)));
        if n < k {
            assert(existing.contains(numbered_name(base, n)));
        } else if k < n {
            assert(existing.contains(numbered_name(base, k)));
        }
    }
}

/// A name that is kept can be stored.
pub proof fn law_kept_name_can_be_stored(name: Seq<char>)
    ensures
        is_name(kept_name(name)),
        kept_name(name).len() == name.len(),
{
    let signs = seq!['\t', '\n', '\r'];
    let kept = kept_name(name);
    assert(signs[0] == '\t' && signs[1] == '\n' && signs[2] == '\r');
    assert(signs.contains('\t') && signs.contains('\n') && signs.contains('\r'));
    assert forall|k: int| 0 <= k < kept.len() implies !signs.contains(#[trigger] kept[k]) by {
        assert(!signs.contains(' '));
    }
}

/// What registers a credential under a name is read back as these two.
pub proof fn law_registration_is_read_back(credential: Seq<char>, name: Seq<char>)
    requires
        is_credential(credential),
        is_line(credential),
        is_name(name),
    ensures
        registration_of(registration_text_of(credential, name)) == Ok::<
            (Seq<char>, Seq<char>),
            StoreError,
        >((credential, name)),
{
    let parts = seq![credential, name];
    assert(is_line(name)) by {
        if name.len() > 0 {
            assert(name.contains(name.last()));
        }
    }
    assert(are_lines(parts)) by {
        assert forall|i: int| 0 <= i < parts.len() implies is_line(#[trigger] parts[i]) by {
            assert(i == 0 || i == 1);
        }
    }
    lemma_lines_of_unlines(parts);
    assert(unlines(parts) =~= registration_text_of(credential, name)) by {
        reveal_with_fuel(unlines, 3);
        assert(parts.drop_last() =~= seq![credential]);
        assert(seq![credential].drop_last() =~= Seq::empty());
    }
}

/// A registered phone can be unregistered by its number, where that is not the name of one
/// before it.
pub proof fn law_phone_is_found_by_number(names: Seq<Seq<char>>, i: int)
    requires
        0 <= i < names.len(),
        forall|k: int| 0 <= k < i ==> (#[trigger] names[k]) != decimal_of((i + 1) as nat),
    ensures
        meant_from(decimal_of((i + 1) as nat), names, 0) == i,
{
    let number = decimal_of((i + 1) as nat);
    assert forall|k: int| 0 <= k < i implies !(#[trigger] is_meant(number, names, k)) by {
        lemma_decimal((i + 1) as nat);
        lemma_decimal((k + 1) as nat);
        assert(names[k] != number);
    }
    lemma_meant_from(number, names, 0, i);
}

/// A registered phone can be unregistered by its name, where that is neither the name nor
/// the number of one before it.
pub proof fn law_phone_is_found_by_name(names: Seq<Seq<char>>, i: int)
    requires
        0 <= i < names.len(),
        forall|k: int| 0 <= k < i ==> !(#[trigger] is_meant(names[i], names, k)),
    ensures
        meant_from(names[i], names, 0) == i,
{
    lemma_meant_from(names[i], names, 0, i);
}

/// The first phone that is meant is the only one of its kind.
proof fn lemma_meant_from(which: Seq<char>, names: Seq<Seq<char>>, from: int, at: int)
    requires
        0 <= from <= at < names.len(),
        is_meant(which, names, at),
        forall|k: int| from <= k < at ==> !(#[trigger] is_meant(which, names, k)),
    ensures
        meant_from(which, names, from) == at,
    decreases at - from,
{
    if from < at {
        assert(!is_meant(which, names, from));
        lemma_meant_from(which, names, from + 1, at);
    }
}

/// What the commands of a user ask for. Only the first argument counts, where one is taken; the
/// command `remove` has to have one.
pub proof fn law_commands(first: Seq<char>, more: Seq<Seq<char>>, args: Seq<Seq<char>>, root: bool)
    ensures
        order_of("add"@, seq![first] + more, root) == Ok::<Order, Seq<char>>(
            Order::Add(Some(first)),
        ),
        order_of("add"@, Seq::empty(), root) == Ok::<Order, Seq<char>>(Order::Add(None)),
        order_of("list"@, args, root) == Ok::<Order, Seq<char>>(Order::List),
        order_of("remove"@, seq![first] + more, root) == Ok::<Order, Seq<char>>(
            Order::Remove(first),
        ),
        order_of("remove"@, Seq::empty(), root) == Err::<Order, Seq<char>>(
            "usage: passkey remove <number or name>"@,
        ),
        order_of("status"@, args, root) == Ok::<Order, Seq<char>>(Order::Status),
        order_of("uninstall"@, args, root) == Ok::<Order, Seq<char>>(Order::Uninstall),
        order_of("help"@, args, root) == Ok::<Order, Seq<char>>(Order::Help),
        order_of("--help"@, args, root) == Ok::<Order, Seq<char>>(Order::Help),
        order_of("-h"@, args, root) == Ok::<Order, Seq<char>>(Order::Help),
{
    lemma_commands_differ();
    assert((seq![first] + more)[0] == first);
}

/// What the commands of root ask for. They need a user, and the one that unregisters a handle too,
/// unless they are about one phone only or about the whole setup. Who is not root gets none of
/// them.
pub proof fn law_commands_of_root(
    user: Seq<char>,
    handle: Seq<char>,
    more: Seq<Seq<char>>,
    args: Seq<Seq<char>>,
    command: Seq<char>,
)
    ensures
        order_of("root-use"@, Seq::empty(), true) == Ok::<Order, Seq<char>>(
            Order::RootUse(None, None),
        ),
        order_of("root-use"@, seq![user], true) == Ok::<Order, Seq<char>>(
            Order::RootUse(Some(user), None),
        ),
        order_of("root-use"@, seq![user, handle] + more, true) == Ok::<Order, Seq<char>>(
            Order::RootUse(Some(user), Some(handle)),
        ),
        order_of("root-uninstall"@, args, true) == Ok::<Order, Seq<char>>(Order::RootUninstall),
        order_of("root-configure"@, seq![user] + more, true) == Ok::<Order, Seq<char>>(
            Order::RootConfigure(user),
        ),
        order_of("root-store"@, seq![user] + more, true) == Ok::<Order, Seq<char>>(
            Order::RootStore(user),
        ),
        order_of("root-remove"@, seq![user, handle] + more, true) == Ok::<Order, Seq<char>>(
            Order::RootRemove(user, handle),
        ),
        order_of("root-remove"@, seq![user], true) == Err::<Order, Seq<char>>(
            "missing credential"@,
        ),
        command == "root-configure"@ || command == "root-store"@ || command == "root-remove"@
            ==> order_of(command, Seq::empty(), true) == Err::<Order, Seq<char>>("missing user"@),
        command == "root-configure"@ || command == "root-use"@ || command == "root-store"@
            || command == "root-remove"@ || command == "root-uninstall"@ ==> order_of(
            command,
            args,
            false,
        ) == Err::<Order, Seq<char>>("this internal command must run as root"@),
{
    lemma_commands_differ();
    assert((seq![user] + more)[0] == user);
    let two = seq![user, handle] + more;
    assert(two[0] == user && two[1] == handle);
}

/// No command is another.
proof fn lemma_commands_differ()
    ensures
        "add"@.len() == 3,
        "list"@.len() == 4,
        "remove"@.len() == 6,
        "status"@.len() == 6,
        "uninstall"@.len() == 9,
        "root-configure"@.len() == 14,
        "root-use"@.len() == 8,
        "root-store"@.len() == 10,
        "root-remove"@.len() == 11,
        "root-uninstall"@.len() == 14,
        "help"@.len() == 4,
        "--help"@.len() == 6,
        "-h"@.len() == 2,
        "list"@ != "help"@,
        "remove"@ != "status"@,
        "remove"@ != "--help"@,
        "status"@ != "--help"@,
        "root-configure"@ != "root-uninstall"@,
{
    reveal_strlit("add");
    reveal_strlit("list");
    reveal_strlit("remove");
    reveal_strlit("status");
    reveal_strlit("uninstall");
    reveal_strlit("root-configure");
    reveal_strlit("root-use");
    reveal_strlit("root-store");
    reveal_strlit("root-remove");
    reveal_strlit("root-uninstall");
    reveal_strlit("help");
    reveal_strlit("--help");
    reveal_strlit("-h");
    assert("list"@[0] != "help"@[0]);
    assert("remove"@[0] != "status"@[0]);
    assert("remove"@[0] != "--help"@[0]);
    assert("status"@[0] != "--help"@[0]);
    assert("root-configure"@[5] != "root-uninstall"@[5]);
}

/// Nothing else is a command.
pub proof fn law_other_commands(command: Seq<char>, args: Seq<Seq<char>>, root: bool)
    requires
        command != "add"@,
        command != "list"@,
        command != "remove"@,
        command != "status"@,
        command != "uninstall"@,
        command != "root-configure"@,
        command != "root-use"@,
        command != "root-store"@,
        command != "root-remove"@,
        command != "root-uninstall"@,
        command != "help"@,
        command != "--help"@,
        command != "-h"@,
    ensures
        order_of(command, args, root) == Err::<Order, Seq<char>>(
            "unknown command "@ + quoted_of(command) + "; run `passkey help`"@,
        ),
{
}

/// A phone is called what it calls itself, without white space around it, and `Android device` where
/// it calls itself nothing.
pub proof fn law_default_names(front: Seq<char>, name: Seq<char>, back: Seq<char>)
    requires
        forall|i: int| 0 <= i < front.len() ==> is_space(#[trigger] front[i]),
        forall|i: int| 0 <= i < back.len() ==> is_space(#[trigger] back[i]),
        name.len() > 0 ==> !is_space(name[0]) && !is_space(name.last()),
    ensures
        base_name(Some(front + name + back)) == (if name.len() > 0 {
            name
        } else {
            "Android device"@
        }),
        base_name(None) == "Android device"@,
{
    law_trimming(front, name, back);
}

/// What is given counts before what is typed, and that before what is offered, each without white
/// space around it, and where it is not empty.
pub proof fn law_names_that_are_meant(
    front: Seq<char>,
    name: Seq<char>,
    back: Seq<char>,
    other: Option<Seq<char>>,
    offered: Seq<char>,
)
    requires
        forall|i: int| 0 <= i < front.len() ==> is_space(#[trigger] front[i]),
        forall|i: int| 0 <= i < back.len() ==> is_space(#[trigger] back[i]),
        name.len() > 0 ==> !is_space(name[0]) && !is_space(name.last()),
    ensures
        name.len() > 0 ==> meant_name(Some(front + name + back), other, offered) == name,
        name.len() == 0 ==> meant_name(Some(front + name + back), other, offered) == meant_name(
            None,
            other,
            offered,
        ),
        name.len() > 0 ==> meant_name(None, Some(front + name + back), offered) == name,
        name.len() == 0 ==> meant_name(None, Some(front + name + back), offered) == offered,
        meant_name(None, None, offered) == offered,
{
    law_trimming(front, name, back);
}

/// Where a name is taken, and so are those with a space and each number from two on up to some one,
/// the name with that number is offered.
pub proof fn law_names_are_numbered(base: Seq<char>, existing: Seq<Seq<char>>, n: nat)
    requires
        n >= 2,
        existing.contains(base),
        forall|m: nat|
            2 <= m < n ==> existing.contains(base + seq![' '] + (#[trigger] decimal_of(m))),
        !existing.contains(base + seq![' '] + decimal_of(n)),
    ensures
        is_offered(base + seq![' '] + decimal_of(n), existing, base),
        !is_offered(base, existing, base),
{
    assert(base + seq![' '] + decimal_of(n) =~= numbered_name(base, n));
    assert forall|m: nat| 2 <= m < n implies existing.contains(#[trigger] numbered_name(base, m)) by {
        assert(base + seq![' '] + decimal_of(m) =~= numbered_name(base, m));
    }
}

/// A name that is free is offered as it is.
pub proof fn law_free_names_are_offered(base: Seq<char>, name: Seq<char>, existing: Seq<Seq<char>>)
    requires
        !existing.contains(base),
    ensures
        is_offered(name, existing, base) <==> name == base,
{
}

/// Tabs, line feeds and carriage returns become spaces in a name that is kept, and every other
/// character stays.
pub proof fn law_names_are_kept(name: Seq<char>, i: int)
    requires
        0 <= i < name.len(),
    ensures
        kept_name(name).len() == name.len(),
        kept_name(name)[i] == (if name[i] == '\t' || name[i] == '\n' || name[i] == '\r' {
            ' '
        } else {
            name[i]
        }),
{
    let signs = seq!['\t', '\n', '\r'];
    assert(signs[0] == '\t' && signs[1] == '\n' && signs[2] == '\r');
    law_replacing(name, signs, ' ', i);
}

/// A credential is a colon and something with a comma in it. It is registered by a line of its own,
/// before the line of its name; the user is known by `pam://` and the name of this machine.
pub proof fn law_credentials_are_registered(
    front: Seq<char>,
    back: Seq<char>,
    text: Seq<char>,
    name: Seq<char>,
)
    ensures
        is_credential(seq![':'] + front + seq![','] + back),
        is_credential(text) ==> text[0] == ':' && text.contains(','),
        registration_text_of(text, name) == text + seq!['\n'] + name + seq!['\n'],
        origin_of(name) == seq!['p', 'a', 'm', ':', '/', '/'] + name,
{
    let whole = seq![':'] + front + seq![','] + back;
    assert(whole[0] == ':');
    assert(whole[1 + front.len() as int] == ',');
    assert(registration_text_of(text, name) =~= text + seq!['\n'] + name + seq!['\n']);
    reveal_strlit("pam://");
    assert("pam://"@ =~= seq!['p', 'a', 'm', ':', '/', '/']);
}

/// The first phone that has the number or the name is meant, numbers counted from one; and none,
/// where none has.
pub proof fn law_which_phone_is_meant(which: Seq<char>, names: Seq<Seq<char>>, at: int)
    ensures
        0 <= at < names.len() && (which == names[at] || which == decimal_of((at + 1) as nat)) && (
        forall|k: int|
            0 <= k < at ==> which != (#[trigger] names[k]) && which != decimal_of((k + 1) as nat))
            ==> meant_from(which, names, 0) == at,
        (forall|k: int|
            0 <= k < names.len() ==> which != (#[trigger] names[k]) && which != decimal_of(
                (k + 1) as nat,
            )) ==> meant_from(which, names, 0) == names.len(),
{
    if 0 <= at < names.len() && (which == names[at] || which == decimal_of((at + 1) as nat)) && (
    forall|k: int|
        0 <= k < at ==> which != (#[trigger] names[k]) && which != decimal_of((k + 1) as nat)) {
        assert forall|k: int| 0 <= k < at implies !(#[trigger] is_meant(which, names, k)) by {
            assert(which != names[k]);
        }
        lemma_meant_from(which, names, 0, at);
    }
    if forall|k: int|
        0 <= k < names.len() ==> which != (#[trigger] names[k]) && which != decimal_of(
            (k + 1) as nat,
        ) {
        lemma_none_is_meant(which, names, 0);
    }
}

/// Where no phone is meant all are passed over.
proof fn lemma_none_is_meant(which: Seq<char>, names: Seq<Seq<char>>, from: int)
    requires
        0 <= from <= names.len(),
        forall|k: int|
            0 <= k < names.len() ==> which != (#[trigger] names[k]) && which != decimal_of(
                (k + 1) as nat,
            ),
    ensures
        meant_from(which, names, from) == names.len(),
    decreases names.len() - from,
{
    if from < names.len() {
        assert(which != names[from]);
        lemma_none_is_meant(which, names, from + 1);
    }
}

/// The list of phones has a line for each, in their order: two spaces, its number, two spaces, its
/// name. There is one line where there is no phone.
pub proof fn law_table_of_phones(names: Seq<Seq<char>>, name: Seq<char>)
    ensures
        numbered_lines(Seq::empty()) == Seq::<char>::empty(),
        numbered_lines(names.push(name)) == numbered_lines(names) + seq![' ', ' '] + decimal_of(
            names.len() + 1,
        ) + seq![' ', ' '] + name + seq!['\n'],
        device_table_of(names.push(name)) == numbered_lines(names.push(name)),
        device_table_of(Seq::empty()) == "  No devices registered.\n"@,
{
    reveal_strlit("  ");
    assert("  "@ =~= seq![' ', ' ']);
    assert(names.push(name).drop_last() =~= names);
    assert(numbered_lines(names.push(name)) =~= numbered_lines(names) + seq![' ', ' ']
        + decimal_of(names.len() + 1) + seq![' ', ' '] + name + seq!['\n']);
}

/// What is said of the service and the phone, and then of each service that is set up, in their
/// order.
pub proof fn law_status(
    device: Seq<char>,
    running: bool,
    services: Seq<Seq<char>>,
    service: Seq<char>,
)
    ensures
        status_of(true, Some(device), Seq::empty()) == "service: running\n"@ + "device: "@ + device
            + seq!['\n'],
        status_of(false, Some(device), Seq::empty()) == "service: not running\n"@ + "device: "@
            + device + seq!['\n'],
        status_of(running, None, services) == status_of(running, Some("not connected"@), services),
        status_of(running, Some(device), services.push(service)) == status_of(
            running,
            Some(device),
            services,
        ) + "PAM: "@ + service + seq!['\n'],
{
    assert(services.push(service).drop_last() =~= services);
    assert(status_of(true, Some(device), Seq::empty()) =~= "service: running\n"@ + "device: "@
        + device + seq!['\n']);
    assert(status_of(false, Some(device), Seq::empty()) =~= "service: not running\n"@ + "device: "@
        + device + seq!['\n']);
    assert(status_of(running, Some(device), services.push(service)) =~= status_of(
        running,
        Some(device),
        services,
    ) + "PAM: "@ + service + seq!['\n']);
}

/// The virtual security key is the first that is listed with its vendor and its product, and its
/// device stands before the colon on that line.
pub proof fn law_virtual_key_is_found(
    before: Seq<Seq<char>>,
    device: Seq<char>,
    front: Seq<char>,
    back: Seq<char>,
    behind: Seq<Seq<char>>,
)
    requires
        are_lines(before),
        are_lines(behind),
        is_line(device.push(':') + front + "vendor=0x1209, product=0x7ab1"@ + back),
        !device.contains(':'),
        forall|i: int|
            0 <= i < before.len() ==> !occurs(#[trigger] before[i], "vendor=0x1209, product=0x7ab1"@),
    ensures
        ({
            let line = device.push(':') + front + "vendor=0x1209, product=0x7ab1"@ + back;
            key_device(unlines(before + seq![line] + behind)) == Some(device)
        }),
        key_device(unlines(before)) is None,
{
    let key = "vendor=0x1209, product=0x7ab1"@;
    let line = device.push(':') + front + key + back;
    let lines = before + seq![line] + behind;
    assert forall|i: int| 0 <= i < lines.len() implies is_line(#[trigger] lines[i]) by {
        if i < before.len() {
            assert(lines[i] == before[i]);
        } else if i > before.len() {
            assert(lines[i] == behind[i - before.len() - 1]);
        }
    }
    lemma_lines_of_unlines(lines);
    lemma_lines_of_unlines(before);
    law_patterns_are_found(line, device.push(':') + front, key, back);
    assert(lines[before.len() as int] == line);
    assert forall|k: int| 0 <= k < before.len() implies !occurs(#[trigger] lines[k], OUR_KEY@) by {
        assert(lines[k] == before[k]);
    }
    lemma_key_position(lines, 0, before.len() as int);
    lemma_key_position(before, 0, before.len() as int);
    law_first_place(device, front + key + back, ':');
    assert(line =~= device.push(':') + (front + key + back));
    assert(line.take(device.len() as int) =~= device);
}

/// The position of the line that lists the virtual security key.
proof fn lemma_key_position(lines: Seq<Seq<char>>, from: int, at: int)
    requires
        0 <= from <= at <= lines.len(),
        at < lines.len() ==> occurs(lines[at], OUR_KEY@),
        forall|k: int| from <= k < at ==> !occurs(#[trigger] lines[k], OUR_KEY@),
    ensures
        key_position(lines, from) == at,
    decreases at - from,
{
    if from < at {
        assert(!occurs(lines[from], OUR_KEY@));
        lemma_key_position(lines, from + 1, at);
    }
}

/// An answer is a number, with or without white space around it. It means the phone of that number,
/// counted from one; zero means the first; and one that no phone has means none, as does whatever is
/// no number.
pub proof fn law_answers_are_read(
    front: Seq<char>,
    text: Seq<char>,
    back: Seq<char>,
    n: nat,
    count: nat,
)
    requires
        forall|i: int| 0 <= i < front.len() ==> is_space(#[trigger] front[i]),
        forall|i: int| 0 <= i < back.len() ==> is_space(#[trigger] back[i]),
        text.len() > 0 ==> !is_space(text[0]) && !is_space(text.last()),
    ensures
        number_of(text, 10, usize::MAX as nat) == Some(n) && 1 <= n <= count ==> answered_position(
            front + text + back,
            count,
        ) == Some((n - 1) as nat),
        number_of(text, 10, usize::MAX as nat) == Some(n) && n > count ==> answered_position(
            front + text + back,
            count,
        ) is None,
        number_of(text, 10, usize::MAX as nat) == Some(0nat) && count > 0 ==> answered_position(
            front + text + back,
            count,
        ) == Some(0nat),
        number_of(text, 10, usize::MAX as nat) is None ==> answered_position(
            front + text + back,
            count,
        ) is None,
        answered_position(front + text + back, 0) is None,
{
    law_trimming(front, text, back);
}

/// Root runs this program by itself, and everybody else by `sudo`, with the same arguments. The
/// service is told of a user by a line that sets a variable.
pub proof fn law_running_as_root(executable: Seq<char>, args: Seq<Seq<char>>, user: Seq<char>)
    ensures
        privileged_command(true, executable, args) == seq![executable] + args,
        privileged_command(false, executable, args) == seq!["sudo"@] + privileged_command(
            true,
            executable,
            args,
        ),
        dropin_of(user) == "[Service]\nEnvironment=PASSKEY_ADB_USER="@ + user + seq!['\n'],
{
    assert(seq!["sudo"@, executable] + args =~= seq!["sudo"@] + (seq![executable] + args));
    assert(dropin_of(user) =~= "[Service]\nEnvironment=PASSKEY_ADB_USER="@ + user + seq!['\n']);
}

} // verus!
