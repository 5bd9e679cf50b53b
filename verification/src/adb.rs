//! Phones on USB: what is said to the ADB server, whom it is trusted for, and when a phone
//! is tried.

use vstd::prelude::*;
use vstd::string::*;
use vstd::utf8::*;

use crate::bytes::{le_value, lemma_le_value_4, read_le32};
use crate::number::{
    digit_value, hexadecimal, hexadecimal4_of, lemma_hexadecimal4, number_of, read_digit,
    read_number, value_of,
};
use crate::text::{
    before_suffix, is_line, is_space, join_of, law_fields_are_parted, law_prefixes_and_suffixes,
    law_trimming, lemma_join_of_split, lemma_lines_of_cons, lemma_split_of_cons, lines, lines_of,
    same, split, split_of, strip_suffix, trim, trim_of, words, words_of,
};
use crate::unicode::{from_utf8_lossy, lossy_of, to_uppercase, uppercase_of};

verus! {

// ---------------------------------------------------------------------------
// Requests and answers
// ---------------------------------------------------------------------------

/// A request for a service: the length of its name in four hexadecimal digits, and its name.
pub open spec fn request_of(service: Seq<char>) -> Seq<char> {
    hexadecimal4_of(encode_utf8(service).len()) + service
}

/// A request for a service.
pub fn adb_request(service: &str) -> (request: String)
    ensures
        request@ == request_of(service@),
{
    let digits = hexadecimal(service.as_bytes().len() as u64);
    let mut request = String::new();
    let mut i: usize = digits.as_str().unicode_len();
    let ghost n = digits@.len();
    proof {
        assert(request@ =~= Seq::new(0, |k: int| '0'));
    }
    while i < 4
        invariant
            n <= i,
            n < 4 ==> i <= 4,
            n >= 4 ==> i == n,
            request@ == Seq::new((i - n) as nat, |k: int| '0'),
        decreases 4 - i,
    {
        request.push('0');
        proof {
            assert(request@ =~= Seq::new((i + 1 - n) as nat, |k: int| '0'));
        }
        i = i + 1;
    }
    request.append(digits.as_str());
    request.append(service);
    assert(request@ =~= request_of(service@));
    request
}

/// What the server says when it grants a request.
pub open spec fn granted(status: Seq<u8>) -> bool {
    status == seq![0x4fu8, 0x4bu8, 0x41u8, 0x59u8]
}

/// Whether the server grants a request for a service; what is said of it if not.
pub fn adb_status(status: &[u8], service: &str) -> (answer: Result<(), String>)
    ensures
        answer is Ok <==> granted(status@),
        answer matches Err(message) ==> message@ == "adb rejected "@ + service@,
{
    if status.len() == 4 && status[0] == 0x4f && status[1] == 0x4b && status[2] == 0x41 && status[3]
        == 0x59 {
        assert(status@ =~= seq![0x4fu8, 0x4bu8, 0x41u8, 0x59u8]);
        return Ok(());
    }
    let mut message = "adb rejected ".to_string();
    message.append(service);
    Err(message)
}

/// The service that leads to a phone.
pub fn transport_service(serial: &str) -> (service: String)
    ensures
        service@ == "host:transport:"@ + serial@,
{
    let mut service = "host:transport:".to_string();
    service.append(serial);
    service
}

/// The service that leads to a socket on the phone.
pub fn socket_service(socket: &str) -> (service: String)
    ensures
        service@ == "localabstract:"@ + socket@,
{
    let mut service = "localabstract:".to_string();
    service.append(socket);
    service
}

/// The service that reads a setting of the phone.
pub fn setting_service(setting: &str) -> (service: String)
    ensures
        service@ == "shell:settings get "@ + setting@,
{
    let mut service = "shell:settings get ".to_string();
    service.append(setting);
    service
}

/// The length that four characters before an answer give; zero where they are no number.
pub open spec fn length_of(header: Seq<u8>) -> nat {
    match number_of(header.map_values(|byte: u8| byte as char), 16, 0xffff) {
        Some(length) => length,
        None => 0,
    }
}

/// The length that four characters before an answer give; zero where they are no number.
pub fn answer_length(header: &[u8]) -> (length: usize)
    requires
        header@.len() == 4,
    ensures
        length == length_of(header@),
{
    let ghost chars = header@.map_values(|byte: u8| byte as char);
    let mut text = String::new();
    let mut i: usize = 0;
    proof {
        assert(text@ =~= chars.take(0));
    }
    while i < header.len()
        invariant
            i <= header@.len(),
            chars == header@.map_values(|byte: u8| byte as char),
            text@ == chars.take(i as int),
        decreases header@.len() - i,
    {
        text.push(header[i] as char);
        proof {
            assert(text@ =~= chars.take(i + 1));
        }
        i = i + 1;
    }
    assert(chars.take(i as int) =~= chars);
    match read_number(text.as_str(), 16, 0xffff) {
        Some(length) => length as usize,
        None => 0,
    }
}

/// The phones that lines name as ready: what stands before a tab and `device`.
pub open spec fn ready_on(lines: Seq<Seq<char>>) -> Seq<Seq<char>>
    decreases lines.len(),
{
    if lines.len() == 0 {
        Seq::empty()
    } else {
        let before = ready_on(lines.drop_last());
        match before_suffix(lines.last(), "\tdevice"@) {
            Some(serial) => before.push(serial),
            None => before,
        }
    }
}

/// The phones that a list names as ready.
pub fn ready_devices(text: &str) -> (serials: Vec<String>)
    ensures
        serials.deep_view() == ready_on(lines_of(text@)),
{
    let all = lines(text);
    let ghost whole = all.deep_view();
    let mut serials: Vec<String> = Vec::new();
    let mut i: usize = 0;
    assert(serials.deep_view() =~= Seq::empty());
    while i < all.len()
        invariant
            whole == all.deep_view(),
            i <= all@.len(),
            serials.deep_view() == ready_on(whole.take(i as int)),
        decreases all@.len() - i,
    {
        let ghost before = serials.deep_view();
        proof {
            assert(whole.take(i + 1).drop_last() =~= whole.take(i as int));
            assert(whole.take(i + 1).last() == all@[i as int]@);
        }
        if let Some(serial) = strip_suffix(all[i].as_str(), "\tdevice") {
            serials.push(serial);
            assert(serials.deep_view() =~= before.push(serial@));
        }
        i = i + 1;
    }
    assert(whole.take(i as int) =~= whole);
    serials
}

/// The phones that the server's answer names as ready.
pub fn adb_devices(data: &[u8]) -> (serials: Vec<String>)
    ensures
        serials.deep_view() == ready_on(lines_of(lossy_of(data@))),
        valid_utf8(data@) ==> serials.deep_view() == ready_on(lines_of(decode_utf8(data@))),
{
    let text = from_utf8_lossy(data);
    ready_devices(text.as_str())
}

/// A setting in what the phone answers: nothing where it is not set.
pub open spec fn setting_in(output: Seq<char>) -> Seq<char> {
    if trim_of(output) == "null"@ {
        Seq::empty()
    } else {
        trim_of(output)
    }
}

/// A setting in what the phone answers: nothing where it is not set.
pub fn adb_setting(output: &str) -> (setting: String)
    ensures
        setting@ == setting_in(output@),
{
    let setting = trim(output);
    if same(setting.as_str(), "null") {
        return String::new();
    }
    setting
}

// ---------------------------------------------------------------------------
// Which phone it is
// ---------------------------------------------------------------------------

/// Two hexadecimal digits.
pub open spec fn is_octet(field: Seq<char>) -> bool {
    field.len() == 2 && digit_value(field[0], 16) is Some && digit_value(field[1], 16) is Some
}

/// A Bluetooth address: six times two hexadecimal digits, with colons between.
pub open spec fn is_address(value: Seq<char>) -> bool {
    let fields = split_of(value, ':');
    fields.len() == 6 && forall|i: int| 0 <= i < 6 ==> is_octet(#[trigger] fields[i])
}

/// Whether a value is a Bluetooth address.
pub fn is_bt_address(value: &str) -> (found: bool)
    ensures
        found == is_address(value@),
{
    let fields = split(value, ':');
    if fields.len() != 6 {
        return false;
    }
    let mut i: usize = 0;
    while i < 6
        invariant
            fields@.len() == 6,
            fields.deep_view() == split_of(value@, ':'),
            i <= 6,
            forall|k: int| 0 <= k < i ==> is_octet(#[trigger] split_of(value@, ':')[k]),
        decreases 6 - i,
    {
        let field = fields[i].as_str();
        assert(split_of(value@, ':')[i as int] == field@);
        if field.unicode_len() != 2 {
            return false;
        }
        if read_digit(field.get_char(0), 16).is_none() || read_digit(
            field.get_char(1),
            16,
        ).is_none() {
            return false;
        }
        i = i + 1;
    }
    true
}

/// What a phone on USB is called by its link.
pub open spec fn usb_name_of(serial: Seq<char>) -> Seq<char> {
    "usb:"@ + serial
}

/// What a phone on USB is called by its link.
pub fn usb_name(serial: &str) -> (name: String)
    ensures
        name@ == usb_name_of(serial@),
{
    let mut name = "usb:".to_string();
    name.append(serial);
    name
}

/// Which phone it is: its Bluetooth address where it has told one, or else its serial number
/// on USB.
pub open spec fn device_id_of(address: Seq<char>, serial: Seq<char>) -> Seq<char> {
    if is_address(address) {
        address
    } else {
        usb_name_of(serial)
    }
}

/// Which phone it is, by its address in upper case.
pub fn device_id(address: &str, serial: &str) -> (id: String)
    ensures
        id@ == device_id_of(address@, serial@),
{
    if is_bt_address(address) {
        address.to_string()
    } else {
        usb_name(serial)
    }
}

/// Which phone it is, by what it tells of its address.
pub fn adb_device_id(address: &str, serial: &str) -> (id: String)
    ensures
        id@ == device_id_of(uppercase_of(address@), serial@),
{
    device_id(to_uppercase(address).as_str(), serial)
}

// ---------------------------------------------------------------------------
// Whom the server is trusted for
// ---------------------------------------------------------------------------

/// A connection or a listener, as the kernel lists it.
#[derive(Debug)]
pub struct TcpRow {
    /// The address and the port on this side.
    pub local: String,
    /// The address and the port on the other side.
    pub remote: String,
    /// The state.
    pub state: String,
    /// The user it belongs to.
    pub uid: u32,
}

/// A connection or a listener.
pub struct Row {
    /// The address and the port on this side.
    pub local: Seq<char>,
    /// The address and the port on the other side.
    pub remote: Seq<char>,
    /// The state.
    pub state: Seq<char>,
    /// The user it belongs to.
    pub uid: u32,
}

impl View for TcpRow {
    type V = Row;

    open spec fn view(&self) -> Row {
        Row { local: self.local@, remote: self.remote@, state: self.state@, uid: self.uid }
    }
}

/// The rows of a table.
pub open spec fn rows_of(rows: Seq<TcpRow>) -> Seq<Row> {
    rows.map_values(|row: TcpRow| row@)
}

/// The row on a line: its second, third, fourth and eighth word.
pub open spec fn row_on(line: Seq<char>) -> Option<Row> {
    let fields = words_of(line);
    if fields.len() < 8 {
        None
    } else {
        match number_of(fields[7], 10, u32::MAX as nat) {
            Some(uid) => Some(
                Row { local: fields[1], remote: fields[2], state: fields[3], uid: uid as u32 },
            ),
            None => None,
        }
    }
}

/// The rows on lines.
pub open spec fn rows_on(lines: Seq<Seq<char>>) -> Seq<Row>
    decreases lines.len(),
{
    if lines.len() == 0 {
        Seq::empty()
    } else {
        let before = rows_on(lines.drop_last());
        match row_on(lines.last()) {
            Some(row) => before.push(row),
            None => before,
        }
    }
}

/// The rows of a table: one for each line behind its first that has all the fields.
pub open spec fn table_of(text: Seq<char>) -> Seq<Row> {
    if lines_of(text).len() == 0 {
        Seq::empty()
    } else {
        rows_on(lines_of(text).skip(1))
    }
}

/// The row on a line.
fn tcp_row(line: &str) -> (row: Option<TcpRow>)
    ensures
        row is Some <==> row_on(line@) is Some,
        row matches Some(row) ==> row_on(line@) == Some(row@),
{
    let fields = words(line);
    let ghost found = fields.deep_view();
    assert(found == words_of(line@));
    if fields.len() < 8 {
        return None;
    }
    assert(found[1] == fields@[1]@ && found[2] == fields@[2]@ && found[3] == fields@[3]@ && found[7]
        == fields@[7]@);
    match read_number(fields[7].as_str(), 10, u32::MAX as u64) {
        Some(uid) => Some(
            TcpRow {
                local: fields[1].as_str().to_string(),
                remote: fields[2].as_str().to_string(),
                state: fields[3].as_str().to_string(),
                uid: uid as u32,
            },
        ),
        None => None,
    }
}

/// The rows of the kernel's table of connections.
pub fn proc_tcp(text: &str) -> (rows: Vec<TcpRow>)
    ensures
        rows_of(rows@) == table_of(text@),
{
    let all = lines(text);
    let mut rows: Vec<TcpRow> = Vec::new();
    assert(rows_of(rows@) =~= Seq::empty());
    if all.len() == 0 {
        return rows;
    }
    let ghost whole = all.deep_view().skip(1);
    let mut i: usize = 1;
    assert(whole.take(0) =~= Seq::empty());
    while i < all.len()
        invariant
            whole == all.deep_view().skip(1),
            1 <= i <= all@.len(),
            rows_of(rows@) == rows_on(whole.take(i - 1)),
        decreases all@.len() - i,
    {
        let ghost before = rows_of(rows@);
        proof {
            assert(whole.take(i as int).drop_last() =~= whole.take(i - 1));
            assert(whole.take(i as int).last() == all@[i as int]@);
        }
        if let Some(row) = tcp_row(all[i].as_str()) {
            rows.push(row);
            assert(rows_of(rows@) =~= before.push(row@));
        }
        i = i + 1;
    }
    assert(whole.take(i - 1) =~= whole);
    rows
}

/// The users whose server is trusted: root, this program's, and the one that is named.
pub fn allowed_adb_uids(effective: u32, user: Option<u32>) -> (allowed: Vec<u32>)
    ensures
        forall|uid: u32|
            allowed@.contains(uid) <==> uid == 0 || uid == effective || user == Some(uid),
{
    let mut allowed: Vec<u32> = vec![0u32, effective];
    assert(allowed@ =~= seq![0u32, effective]);
    assert(allowed@[0] == 0 && allowed@[1] == effective);
    if let Some(uid) = user {
        allowed.push(uid);
        assert(allowed@[2] == uid && allowed@[0] == 0 && allowed@[1] == effective);
    }
    allowed
}

/// Whether a user is allowed.
fn allows(allowed: &Vec<u32>, uid: u32) -> (found: bool)
    ensures
        found == allowed@.contains(uid),
{
    let mut i: usize = 0;
    while i < allowed.len()
        invariant
            i <= allowed@.len(),
            forall|k: int| 0 <= k < i ==> allowed@[k] != uid,
        decreases allowed@.len() - i,
    {
        if allowed[i] == uid {
            return true;
        }
        i = i + 1;
    }
    false
}

/// A row that shows the server to listen, for one of the users.
pub open spec fn is_server(row: Row, allowed: Seq<u32>) -> bool {
    &&& row.local == "0100007F:13AD"@ || row.local == "00000000:13AD"@
    &&& row.state == "0A"@
    &&& allowed.contains(row.uid)
}

/// Whether the server on this machine belongs to one of the users.
pub fn adb_server_trusted(rows: &Vec<TcpRow>, allowed: &Vec<u32>) -> (trusted: bool)
    ensures
        trusted == exists|i: int|
            0 <= i < rows@.len() && is_server((#[trigger] rows@[i])@, allowed@),
{
    let mut i: usize = 0;
    while i < rows.len()
        invariant
            i <= rows@.len(),
            forall|k: int| 0 <= k < i ==> !is_server((#[trigger] rows@[k])@, allowed@),
        decreases rows@.len() - i,
    {
        let row = &rows[i];
        if (same(row.local.as_str(), "0100007F:13AD") || same(row.local.as_str(), "00000000:13AD"))
            && same(row.state.as_str(), "0A") && allows(allowed, row.uid) {
            return true;
        }
        i = i + 1;
    }
    false
}

/// A hexadecimal digit in upper case.
pub open spec fn upper_digit(d: nat) -> char {
    if d < 10 {
        (48 + d) as char
    } else {
        (55 + d) as char
    }
}

/// A number in a count of hexadecimal digits in upper case.
pub open spec fn upper_digits(n: nat, width: nat) -> Seq<char>
    decreases width,
{
    if width == 0 {
        Seq::empty()
    } else {
        upper_digits(n / 16, (width - 1) as nat).push(upper_digit(n % 16))
    }
}

/// A number in a count of hexadecimal digits in upper case.
fn upper_number(n: u32, width: usize) -> (digits: String)
    ensures
        digits@ == upper_digits(n as nat, width as nat),
    decreases width,
{
    if width == 0 {
        return String::new();
    }
    let mut digits = upper_number(n / 16, width - 1);
    let d: u32 = n % 16;
    let digit: u8 = if d < 10 {
        48 + d as u8
    } else {
        55 + d as u8
    };
    digits.push(digit as char);
    digits
}

/// An address and a port as the kernel lists them: the address as a number of the machine's
/// order, here the least byte first.
pub open spec fn endpoint_of(octets: Seq<u8>, port: u16) -> Seq<char> {
    upper_digits(le_value(octets), 8).push(':') + upper_digits(port as nat, 4)
}

/// An address and a port as the kernel lists them.
pub fn endpoint(octets: &[u8], port: u16) -> (text: String)
    requires
        octets@.len() == 4,
    ensures
        text@ == endpoint_of(octets@, port),
{
    assert(octets@.subrange(0, 4) =~= octets@);
    let mut text = upper_number(read_le32(octets, 0), 8);
    text.push(':');
    text.append(upper_number(port as u32, 4).as_str());
    text
}

/// A row that shows the server's end of a connection, for one of the users.
pub open spec fn is_peer(row: Row, ours: Seq<char>, allowed: Seq<u32>) -> bool {
    &&& row.local == "0100007F:13AD"@
    &&& row.remote == ours
    &&& allowed.contains(row.uid)
}

/// Whether the other end of a connection from an endpoint belongs to one of the users.
pub fn adb_peer_trusted(rows: &Vec<TcpRow>, ours: &str, allowed: &Vec<u32>) -> (trusted: bool)
    ensures
        trusted == exists|i: int|
            0 <= i < rows@.len() && is_peer((#[trigger] rows@[i])@, ours@, allowed@),
{
    let mut i: usize = 0;
    while i < rows.len()
        invariant
            i <= rows@.len(),
            forall|k: int| 0 <= k < i ==> !is_peer((#[trigger] rows@[k])@, ours@, allowed@),
        decreases rows@.len() - i,
    {
        let row = &rows[i];
        if same(row.local.as_str(), "0100007F:13AD") && same(row.remote.as_str(), ours) && allows(
            allowed,
            row.uid,
        ) {
            return true;
        }
        i = i + 1;
    }
    false
}

/// The command that starts the server: as the user that is named, where this program is
/// root's.
pub open spec fn start_command(effective: u32, user: Option<Seq<char>>) -> Seq<Seq<char>> {
    if effective == 0 && user is Some && user->0.len() > 0 {
        seq!["runuser"@, "-u"@, user->0, "--"@, "adb"@, "start-server"@]
    } else {
        seq!["adb"@, "start-server"@]
    }
}

/// The command that starts the server.
pub fn adb_start_server(effective: u32, user: Option<&str>) -> (command: Vec<String>)
    ensures
        command.deep_view() == start_command(
            effective,
            match user {
                Some(user) => Some(user@),
                None => None,
            },
        ),
{
    let mut command: Vec<String> = Vec::new();
    if effective == 0 {
        if let Some(user) = user {
            if !user.is_empty() {
                command.push("runuser".to_string());
                command.push("-u".to_string());
                command.push(user.to_string());
                command.push("--".to_string());
                command.push("adb".to_string());
                command.push("start-server".to_string());
                assert(command.deep_view() =~= seq![
                    "runuser"@,
                    "-u"@,
                    user@,
                    "--"@,
                    "adb"@,
                    "start-server"@,
                ]);
                return command;
            }
        }
    }
    command.push("adb".to_string());
    command.push("start-server".to_string());
    assert(command.deep_view() =~= seq!["adb"@, "start-server"@]);
    command
}

// ---------------------------------------------------------------------------
// When a phone is tried
// ---------------------------------------------------------------------------

/// How long the server is left alone after it was started, in milliseconds.
pub const START_PAUSE: u64 = 60_000;

/// How long a phone is left alone after it did not answer, in milliseconds.
pub const RETRY_PAUSE: u64 = 10_000;

/// What to do next.
#[derive(Debug, Clone, Copy, PartialEq, Eq, Structural)]
pub enum UsbStep {
    /// Ask the server which phones are ready.
    List,
    /// Start the server.
    Start,
    /// Nothing.
    Wait,
}

/// What became of a try.
#[derive(Debug, Clone, Copy, PartialEq, Eq, Structural)]
pub enum Tried {
    /// The phone has a link.
    Linked,
    /// The phone answered, and the connection could not be set up.
    Dropped,
    /// The phone did not answer.
    Failed,
}

/// A phone that is left alone.
#[derive(Debug)]
pub struct Pause {
    /// The phone.
    pub serial: String,
    /// Until when.
    pub until: u64,
}

/// When the server was started and which phones are left alone. Times are in milliseconds
/// from a common start.
#[derive(Debug)]
pub struct UsbState {
    /// When the server was started last.
    pub started: Option<u64>,
    /// The phones that are left alone.
    pub pauses: Vec<Pause>,
}

/// What the state stands for.
#[verifier::ext_equal]
pub struct Usb {
    /// When the server was started last.
    pub started: Option<u64>,
    /// Until when a phone is left alone.
    pub pauses: Map<Seq<char>, u64>,
}

/// Until when each phone is left alone.
pub open spec fn pauses_of(pauses: Seq<Pause>) -> Map<Seq<char>, u64>
    decreases pauses.len(),
{
    if pauses.len() == 0 {
        Map::empty()
    } else {
        pauses_of(pauses.drop_last()).insert(pauses.last().serial@, pauses.last().until)
    }
}

impl View for UsbState {
    type V = Usb;

    open spec fn view(&self) -> Usb {
        Usb { started: self.started, pauses: pauses_of(self.pauses@) }
    }
}

/// What a phone's pause is, and that it is there.
proof fn lemma_pauses_of(pauses: Seq<Pause>, serial: Seq<char>)
    ensures
        pauses_of(pauses).contains_key(serial) <==> exists|i: int|
            0 <= i < pauses.len() && (#[trigger] pauses[i]).serial@ == serial,
        forall|i: int|
            0 <= i < pauses.len() && (#[trigger] pauses[i]).serial@ == serial && (forall|j: int|
                i < j < pauses.len() ==> (#[trigger] pauses[j]).serial@ != serial)
                ==> pauses_of(pauses)[serial] == pauses[i].until,
    decreases pauses.len(),
{
    if pauses.len() > 0 {
        let init = pauses.drop_last();
        lemma_pauses_of(init, serial);
        if pauses_of(pauses).contains_key(serial) {
            if pauses.last().serial@ == serial {
                assert(pauses[pauses.len() - 1].serial@ == serial);
            } else {
                let i = choose|i: int|
                    0 <= i < init.len() && (#[trigger] init[i]).serial@ == serial;
                assert(pauses[i].serial@ == serial);
            }
        }
        assert forall|i: int| 0 <= i < pauses.len() && (#[trigger] pauses[i]).serial@ == serial && (
        forall|j: int| i < j < pauses.len() ==> (#[trigger] pauses[j]).serial@ != serial) implies
            pauses_of(pauses)[serial] == pauses[i].until by {
            if i < init.len() {
                assert(init[i] == pauses[i]);
                assert(pauses[pauses.len() - 1].serial@ != serial);
                assert forall|j: int| i < j < init.len() implies (#[trigger] init[j]).serial@
                    != serial by {
                    assert(init[j] == pauses[j]);
                }
            }
        }
        if exists|i: int| 0 <= i < pauses.len() && (#[trigger] pauses[i]).serial@ == serial {
            let i = choose|i: int|
                0 <= i < pauses.len() && (#[trigger] pauses[i]).serial@ == serial;
            if i < init.len() {
                assert(init[i].serial@ == serial);
            }
        }
    }
}

impl Usb {
    /// The server may be started: it was not yet, or long enough ago.
    pub open spec fn may_start(self, now: u64) -> bool {
        self.started is None || now - self.started->0 > START_PAUSE
    }

    /// A phone is to be tried: it has no link, and is not left alone.
    pub open spec fn wants(self, serial: Seq<char>, names: Seq<Seq<char>>, now: u64) -> bool {
        &&& !names.contains(usb_name_of(serial))
        &&& !(self.pauses.contains_key(serial) && self.pauses[serial] > now)
    }

    /// The state after a try.
    pub open spec fn after(self, serial: Seq<char>, tried: Tried, now: u64) -> Usb {
        match tried {
            Tried::Linked => Usb { pauses: self.pauses.remove(serial), ..self },
            Tried::Dropped => self,
            Tried::Failed => Usb {
                pauses: self.pauses.insert(serial, (now + RETRY_PAUSE) as u64),
                ..self
            },
        }
    }
}

impl UsbState {
    /// Nothing was started or tried.
    pub fn new() -> (state: UsbState)
        ensures
            state@ == (Usb { started: None, pauses: Map::empty() }),
    {
        UsbState { started: None, pauses: Vec::new() }
    }

    /// What to do now: ask a trusted server; start one where none is, now and then.
    pub fn wake(&mut self, now: u64, trusted: bool) -> (step: UsbStep)
        ensures
            step == (if trusted {
                UsbStep::List
            } else if old(self)@.may_start(now) {
                UsbStep::Start
            } else {
                UsbStep::Wait
            }),
            final(self)@ == (if step == UsbStep::Start {
                Usb { started: Some(now), ..old(self)@ }
            } else {
                old(self)@
            }),
    {
        if trusted {
            return UsbStep::List;
        }
        let may = match self.started {
            None => true,
            Some(started) => now > started && now - started > START_PAUSE,
        };
        if may {
            self.started = Some(now);
            UsbStep::Start
        } else {
            UsbStep::Wait
        }
    }

    /// Whether a phone is to be tried now, by the names of the links that stand.
    pub fn wants(&self, serial: &str, names: &Vec<String>, now: u64) -> (wanted: bool)
        ensures
            wanted == self@.wants(serial@, names.deep_view(), now),
    {
        let name = usb_name(serial);
        let mut i: usize = 0;
        while i < names.len()
            invariant
                name@ == usb_name_of(serial@),
                i <= names@.len(),
                forall|k: int| 0 <= k < i ==> (#[trigger] names.deep_view()[k]) != name@,
            decreases names@.len() - i,
        {
            assert(names.deep_view()[i as int] == names@[i as int]@);
            if same(names[i].as_str(), name.as_str()) {
                assert(names.deep_view().contains(name@));
                return false;
            }
            i = i + 1;
        }
        proof {
            lemma_pauses_of(self.pauses@, serial@);
        }
        let mut i: usize = self.pauses.len();
        while i > 0
            invariant
                !names.deep_view().contains(usb_name_of(serial@)),
                i <= self.pauses@.len(),
                forall|k: int|
                    i <= k < self.pauses@.len() ==> (#[trigger] self.pauses@[k]).serial@ != serial@,
            decreases i,
        {
            i = i - 1;
            if same(self.pauses[i].serial.as_str(), serial) {
                proof {
                    lemma_pauses_of(self.pauses@, serial@);
                    assert(self.pauses@[i as int].serial@ == serial@);
                }
                return self.pauses[i].until <= now;
            }
        }
        true
    }

    /// No phone of that serial number is left alone.
    fn forget(&mut self, serial: &str)
        ensures
            final(self)@ == (Usb { pauses: old(self)@.pauses.remove(serial@), ..old(self)@ }),
    {
        let mut kept: Vec<Pause> = Vec::new();
        let mut i: usize = 0;
        let ghost all = self.pauses@;
        proof {
            assert(all.take(0) =~= Seq::empty());
            assert(pauses_of(kept@) =~= pauses_of(all.take(0)).remove(serial@));
        }
        while i < self.pauses.len()
            invariant
                all == self.pauses@,
                i <= all.len(),
                pauses_of(kept@) == pauses_of(all.take(i as int)).remove(serial@),
            decreases all.len() - i,
        {
            let pause = &self.pauses[i];
            let ghost before = kept@;
            proof {
                assert(all.take(i + 1).drop_last() =~= all.take(i as int));
                assert(all.take(i + 1).last() == all[i as int]);
            }
            if !same(pause.serial.as_str(), serial) {
                kept.push(Pause { serial: pause.serial.as_str().to_string(), until: pause.until });
                assert(kept@.drop_last() =~= before);
            }
            assert(pauses_of(kept@) =~= pauses_of(all.take(i + 1)).remove(serial@));
            i = i + 1;
        }
        assert(all.take(i as int) =~= all);
        self.pauses = kept;
    }

    /// What became of a try.
    pub fn tried(&mut self, serial: &str, tried: Tried, now: u64)
        requires
            now + RETRY_PAUSE <= u64::MAX,
        ensures
            final(self)@ == old(self)@.after(serial@, tried, now),
    {
        match tried {
            Tried::Linked => self.forget(serial),
            Tried::Dropped => {},
            Tried::Failed => {
                self.forget(serial);
                let ghost before = self.pauses@;
                self.pauses.push(Pause { serial: serial.to_string(), until: now + RETRY_PAUSE });
                assert(self.pauses@.drop_last() =~= before);
                assert(self@.pauses =~= old(self)@.pauses.insert(
                    serial@,
                    (now + RETRY_PAUSE) as u64,
                ));
            },
        }
    }
}

// ---------------------------------------------------------------------------
// Laws
// ---------------------------------------------------------------------------

/// A phone known by its serial number on USB is never taken for one known by its address.
pub proof fn law_usb_name_is_no_address(serial: Seq<char>)
    ensures
        !is_address(usb_name_of(serial)),
{
    reveal_strlit("usb:");
    let name = usb_name_of(serial);
    let first = seq!['u', 's', 'b'];
    assert(name =~= first.push(':') + serial);
    lemma_split_of_cons(first, serial, ':');
    assert(split_of(name, ':')[0] == first);
    assert(!is_octet(split_of(name, ':')[0]));
}

/// A digit is an ASCII character, and the one that its byte stands for.
proof fn lemma_digit_is_ascii(c: char)
    requires
        digit_value(c, 16) is Some,
    ensures
        '\0' <= c <= '\u{7f}',
        (c as u8) as char == c,
{
}

/// The length in a request is the one that its receiver reads, where four digits can hold
/// it.
pub proof fn law_length_is_read_back(service: Seq<char>)
    requires
        encode_utf8(service).len() <= 0xffff,
    ensures
        ({
            let digits = request_of(service).take(4);
            length_of(encode_utf8(digits)) == encode_utf8(service).len()
        }),
{
    let n = encode_utf8(service).len();
    lemma_hexadecimal4(n);
    let digits = hexadecimal4_of(n);
    assert(request_of(service).take(4) =~= digits);
    assert forall|i| 0 <= i < digits.len() implies '\0' <= #[trigger] digits[i] <= '\u{7f}' by {
        lemma_digit_is_ascii(digits[i]);
    }
    is_ascii_chars_encode_utf8(digits);
    let header = encode_utf8(digits);
    let read = header.map_values(|byte: u8| byte as char);
    assert forall|i: int| 0 <= i < digits.len() implies read[i] == #[trigger] digits[i] by {
        lemma_digit_is_ascii(digits[i]);
    }
    assert(read =~= digits);
    assert(digit_value(digits[0], 16) is Some);
}

/// After a phone did not answer it is not tried before its pause is over, and then again.
pub proof fn law_failed_phone_is_tried_later(
    usb: Usb,
    serial: Seq<char>,
    names: Seq<Seq<char>>,
    now: u64,
    later: u64,
)
    requires
        now + RETRY_PAUSE <= u64::MAX,
        !names.contains(usb_name_of(serial)),
    ensures
        usb.after(serial, Tried::Failed, now).wants(serial, names, later) <==> later >= now
            + RETRY_PAUSE,
{
}

/// What becomes of one phone changes nothing for another.
pub proof fn law_phones_are_tried_apart(
    usb: Usb,
    serial: Seq<char>,
    other: Seq<char>,
    tried: Tried,
    names: Seq<Seq<char>>,
    now: u64,
    later: u64,
)
    requires
        other != serial,
    ensures
        usb.after(serial, tried, now).wants(other, names, later) == usb.wants(other, names, later),
{
}

/// A request is the name of its service behind four digits, and only `OKAY` grants it.
pub proof fn law_requests_and_grants(service: Seq<char>, status: Seq<u8>)
    ensures
        encode_utf8(service).len() <= 0xffff ==> request_of(service).len() == service.len() + 4
            && request_of(service).skip(4) == service,
        granted(status) <==> status.len() == 4 && forall|i: int|
            0 <= i < 4 ==> (#[trigger] status[i]) as u32 == "OKAY"@[i] as u32,
{
    reveal_strlit("OKAY");
    if encode_utf8(service).len() <= 0xffff {
        lemma_hexadecimal4(encode_utf8(service).len());
        assert(request_of(service).skip(4) =~= service);
    }
    if status.len() == 4 && forall|i: int|
        0 <= i < 4 ==> (#[trigger] status[i]) as u32 == "OKAY"@[i] as u32 {
        assert(status[0] as u32 == "OKAY"@[0] as u32);
        assert(status[1] as u32 == "OKAY"@[1] as u32);
        assert(status[2] as u32 == "OKAY"@[2] as u32);
        assert(status[3] as u32 == "OKAY"@[3] as u32);
        assert(status =~= seq![0x4fu8, 0x4bu8, 0x41u8, 0x59u8]);
    }
}

/// The length before an answer is what its four hexadecimal digits are worth; with a character
/// among them that is none, and no plus sign before them, it is zero.
pub proof fn law_lengths_are_read(header: Seq<u8>, i: int)
    requires
        header.len() == 4,
    ensures
        (forall|k: int| 0 <= k < 4 ==> digit_value((#[trigger] header[k]) as char, 16) is Some)
            ==> length_of(header) == digit_value(header[0] as char, 16)->0 * 0x1000 + digit_value(
            header[1] as char,
            16,
        )->0 * 0x100 + digit_value(header[2] as char, 16)->0 * 0x10 + digit_value(
            header[3] as char,
            16,
        )->0,
        0 <= i < 4 && digit_value(header[i] as char, 16) is None && header[0] != 0x2b ==> length_of(
            header,
        ) == 0,
{
    let chars = header.map_values(|byte: u8| byte as char);
    assert(chars.len() == 4);
    if forall|k: int| 0 <= k < 4 ==> digit_value((#[trigger] header[k]) as char, 16) is Some {
        assert forall|k: int| 0 <= k < 4 implies digit_value(#[trigger] chars[k], 16) is Some by {
            assert(chars[k] == header[k] as char);
        }
        assert(chars[0] == header[0] as char);
        assert(digit_value('+', 16) is None);
        reveal_with_fuel(value_of, 5);
    }
    if 0 <= i < 4 && digit_value(header[i] as char, 16) is None {
        assert(chars[i] == header[i] as char);
        assert(chars[0] == header[0] as char);
    }
}

/// A phone is ready where a line ends with a tab and `device`; what stands before is its serial
/// number. Phones come in the order of their lines, and other lines name none.
pub proof fn law_ready_phones(lines: Seq<Seq<char>>, serial: Seq<char>, other: Seq<char>)
    requires
        !("\tdevice"@.is_suffix_of(other)),
    ensures
        ready_on(Seq::empty()) == Seq::<Seq<char>>::empty(),
        ready_on(lines.push(serial + "\tdevice"@)) == ready_on(lines).push(serial),
        ready_on(lines.push(other)) == ready_on(lines),
{
    law_prefixes_and_suffixes(serial, "\tdevice"@);
    law_prefixes_and_suffixes(other, "\tdevice"@);
    assert(lines.push(serial + "\tdevice"@).drop_last() =~= lines);
    assert(lines.push(other).drop_last() =~= lines);
    if before_suffix(other, "\tdevice"@) is Some {
        let n = other.len() - "\tdevice"@.len();
        assert(other.subrange(n, other.len() as int) =~= other.skip(n));
    }
}

/// A setting is what the phone answers, without white space around it; the answer `null` stands for
/// none.
pub proof fn law_settings_are_read(front: Seq<char>, setting: Seq<char>, back: Seq<char>)
    requires
        forall|i: int| 0 <= i < front.len() ==> is_space(#[trigger] front[i]),
        forall|i: int| 0 <= i < back.len() ==> is_space(#[trigger] back[i]),
        setting.len() > 0 ==> !is_space(setting[0]) && !is_space(setting.last()),
    ensures
        setting_in(front + setting + back) == (if setting == seq!['n', 'u', 'l', 'l'] {
            Seq::empty()
        } else {
            setting
        }),
{
    reveal_strlit("null");
    assert("null"@ =~= seq!['n', 'u', 'l', 'l']);
    law_trimming(front, setting, back);
}

/// An address has seventeen characters: each third is a colon, and all others are hexadecimal
/// digits.
pub proof fn law_addresses(value: Seq<char>)
    ensures
        is_address(value) <==> value.len() == 17 && forall|i: int|
            0 <= i < 17 ==> if i % 3 == 2 {
                (#[trigger] value[i]) == ':'
            } else {
                digit_value(value[i], 16) is Some
            },
{
    if is_address(value) {
        lemma_address_has_places(value);
    }
    if value.len() == 17 && forall|i: int|
        0 <= i < 17 ==> if i % 3 == 2 {
            (#[trigger] value[i]) == ':'
        } else {
            digit_value(value[i], 16) is Some
        } {
        lemma_places_make_an_address(value, 0);
        let fields = split_of(value, ':');
        assert(value.skip(0) =~= value);
        assert forall|i: int| 0 <= i < 6 implies is_octet(#[trigger] fields[i]) by {
            assert(fields[i] == split_of(value.skip(3 * 0int), ':')[i - 0]);
            assert(fields[i] == value.subrange(3 * i, 3 * i + 2));
            assert(digit_value(value[3 * i], 16) is Some);
            assert(digit_value(value[3 * i + 1], 16) is Some);
        }
    }
}

/// The characters of an address.
proof fn lemma_address_has_places(value: Seq<char>)
    requires
        is_address(value),
    ensures
        value.len() == 17,
        forall|i: int|
            0 <= i < 17 ==> if i % 3 == 2 {
                (#[trigger] value[i]) == ':'
            } else {
                digit_value(value[i], 16) is Some
            },
{
    let fields = split_of(value, ':');
    let colon = seq![':'];
    lemma_join_of_split(value, ':');
    assert(is_octet(fields[0]) && is_octet(fields[1]) && is_octet(fields[2]));
    assert(is_octet(fields[3]) && is_octet(fields[4]) && is_octet(fields[5]));
    lemma_joined_octets(fields, 6);
    assert(fields.take(6) =~= fields);
    assert forall|i: int| 0 <= i < 17 implies if i % 3 == 2 {
        (#[trigger] value[i]) == ':'
    } else {
        digit_value(value[i], 16) is Some
    } by {
        assert(value[i] == join_of(fields.take(6), colon)[i]);
        if i % 3 != 2 {
            assert(is_octet(fields[i / 3]));
        }
    }
}

/// Octets that are joined stand three characters apart.
proof fn lemma_joined_octets(fields: Seq<Seq<char>>, n: int)
    requires
        1 <= n <= fields.len(),
        forall|i: int| 0 <= i < fields.len() ==> is_octet(#[trigger] fields[i]),
    ensures
        join_of(fields.take(n), seq![':']).len() == 3 * n - 1,
        forall|i: int|
            0 <= i < 3 * n - 1 ==> (#[trigger] join_of(fields.take(n), seq![':'])[i]) == (if i % 3
                == 2 {
                ':'
            } else {
                fields[i / 3][i % 3]
            }),
    decreases n,
{
    let taken = fields.take(n);
    assert(is_octet(fields[n - 1]));
    if n > 1 {
        lemma_joined_octets(fields, n - 1);
        assert(taken.drop_last() =~= fields.take(n - 1));
        let before = join_of(fields.take(n - 1), seq![':']);
        let joined = join_of(taken, seq![':']);
        assert(joined == before + seq![':'] + fields[n - 1]);
        assert forall|i: int| 0 <= i < 3 * n - 1 implies (#[trigger] joined[i]) == (if i % 3 == 2 {
            ':'
        } else {
            fields[i / 3][i % 3]
        }) by {
            if i < 3 * n - 4 {
                assert(joined[i] == before[i]);
            } else if i == 3 * n - 4 {
                assert(joined[i] == ':');
            } else {
                assert(joined[i] == fields[n - 1][i - (3 * n - 3)]);
            }
        }
    }
}

/// The fields of what has the places of an address, from the octet `k` on.
proof fn lemma_places_make_an_address(value: Seq<char>, k: int)
    requires
        0 <= k <= 5,
        value.len() == 17,
        forall|i: int|
            0 <= i < 17 ==> if i % 3 == 2 {
                (#[trigger] value[i]) == ':'
            } else {
                digit_value(value[i], 16) is Some
            },
    ensures
        split_of(value.skip(3 * k), ':').len() == 6 - k,
        forall|i: int|
            k <= i < 6 ==> #[trigger] split_of(value.skip(3 * k), ':')[i - k] == value.subrange(
                3 * i,
                3 * i + 2,
            ),
    decreases 5 - k,
{
    let octet = value.subrange(3 * k, 3 * k + 2);
    assert(digit_value(value[3 * k], 16) is Some);
    assert(digit_value(value[3 * k + 1], 16) is Some);
    assert(digit_value(':', 16) is None);
    assert(octet[0] == value[3 * k] && octet[1] == value[3 * k + 1]);
    assert(!octet.contains(':'));
    if k == 5 {
        assert(value.skip(3 * k) =~= octet);
        law_fields_are_parted(octet, octet, ':');
    } else {
        let rest = value.skip(3 * (k + 1));
        lemma_places_make_an_address(value, k + 1);
        assert(value[3 * k + 2] == ':');
        assert(value.skip(3 * k) =~= octet.push(':') + rest);
        law_fields_are_parted(octet, rest, ':');
        let fields = split_of(value.skip(3 * k), ':');
        assert(fields =~= seq![octet] + split_of(rest, ':'));
        assert forall|i: int| k <= i < 6 implies #[trigger] fields[i - k] == value.subrange(
            3 * i,
            3 * i + 2,
        ) by {
            if i > k {
                assert(fields[i - k] == split_of(rest, ':')[i - (k + 1)]);
            }
        }
    }
}

/// A phone is known by its address where it is one, and else by `usb:` and its serial number.
pub proof fn law_phones_are_known(address: Seq<char>, serial: Seq<char>)
    ensures
        is_address(address) ==> device_id_of(address, serial) == address,
        !is_address(address) ==> device_id_of(address, serial) == seq!['u', 's', 'b', ':'] + serial,
        usb_name_of(serial) == seq!['u', 's', 'b', ':'] + serial,
{
    reveal_strlit("usb:");
    assert("usb:"@ =~= seq!['u', 's', 'b', ':']);
}

/// A line of the kernel's table has eight words or more. The second is the address on this side,
/// the third that on the other, the fourth the state, and the eighth a user's number.
pub proof fn law_rows_are_read(line: Seq<char>)
    ensures
        row_on(line) is Some <==> words_of(line).len() >= 8 && number_of(
            words_of(line)[7],
            10,
            0xffff_ffff,
        ) is Some,
        row_on(line) matches Some(row) ==> {
            &&& row.local == words_of(line)[1]
            &&& row.remote == words_of(line)[2]
            &&& row.state == words_of(line)[3]
            &&& Some(row.uid as nat) == number_of(words_of(line)[7], 10, 0xffff_ffff)
        },
{
}

/// The first line of the table is its heading, whatever it says. Every line behind it that is a row
/// gives one, in the order of the lines.
pub proof fn law_tables_are_read(
    heading: Seq<char>,
    text: Seq<char>,
    lines: Seq<Seq<char>>,
    line: Seq<char>,
)
    requires
        is_line(heading),
    ensures
        table_of(heading.push('\n') + text) == rows_on(lines_of(text)),
        rows_on(Seq::empty()) == Seq::<Row>::empty(),
        rows_on(lines.push(line)) == (match row_on(line) {
            Some(row) => rows_on(lines).push(row),
            None => rows_on(lines),
        }),
{
    lemma_lines_of_cons(heading, text);
    assert((seq![heading] + lines_of(text)).skip(1) =~= lines_of(text));
    assert(lines.push(line).drop_last() =~= lines);
}

/// How the kernel writes an address and a port: the bytes of the address from the last to the first,
/// each in two digits, a colon, and the port in four; all digits hexadecimal, in upper case.
pub proof fn law_endpoints_are_written(octets: Seq<u8>, port: u16, i: int)
    requires
        octets.len() == 4,
        0 <= i < 4,
    ensures
        endpoint_of(octets, port).len() == 13,
        endpoint_of(octets, port)[2 * i] == "0123456789ABCDEF"@[octets[3 - i] as int / 16],
        endpoint_of(octets, port)[2 * i + 1] == "0123456789ABCDEF"@[octets[3 - i] as int % 16],
        endpoint_of(octets, port)[8] == ':',
        endpoint_of(octets, port)[9] == "0123456789ABCDEF"@[port as int / 0x1000],
        endpoint_of(octets, port)[10] == "0123456789ABCDEF"@[port as int / 0x100 % 16],
        endpoint_of(octets, port)[11] == "0123456789ABCDEF"@[port as int / 0x10 % 16],
        endpoint_of(octets, port)[12] == "0123456789ABCDEF"@[port as int % 16],
{
    lemma_le_value_4(octets);
    let n = le_value(octets);
    lemma_upper_digits_8(n);
    lemma_upper_digits_4(port as nat);
    lemma_upper_digit(octets[3 - i] as nat / 16);
    lemma_upper_digit(octets[3 - i] as nat % 16);
    lemma_upper_digit(port as nat / 0x1000);
    lemma_upper_digit(port as nat / 0x100 % 16);
    lemma_upper_digit(port as nat / 0x10 % 16);
    lemma_upper_digit(port as nat % 16);
    lemma_octets_of(n, octets[0] as nat, octets[1] as nat, octets[2] as nat, octets[3] as nat);
}

/// A digit in upper case.
proof fn lemma_upper_digit(d: nat)
    requires
        d < 16,
    ensures
        upper_digit(d) == "0123456789ABCDEF"@[d as int],
{
    reveal_strlit("0123456789ABCDEF");
}

/// Four digits.
proof fn lemma_upper_digits_4(n: nat)
    ensures
        upper_digits(n, 4) == seq![
            upper_digit(n / 0x1000 % 16),
            upper_digit(n / 0x100 % 16),
            upper_digit(n / 0x10 % 16),
            upper_digit(n % 16),
        ],
{
    reveal_with_fuel(upper_digits, 5);
    assert(n / 16 / 16 == n / 0x100);
    assert(n / 16 / 16 / 16 == n / 0x1000);
    assert(upper_digits(n, 4) =~= seq![
        upper_digit(n / 0x1000 % 16),
        upper_digit(n / 0x100 % 16),
        upper_digit(n / 0x10 % 16),
        upper_digit(n % 16),
    ]);
}

/// Eight digits.
proof fn lemma_upper_digits_8(n: nat)
    ensures
        upper_digits(n, 8) == upper_digits(n / 0x1_0000, 4) + upper_digits(n, 4),
        upper_digits(n, 8).len() == 8,
{
    reveal_with_fuel(upper_digits, 9);
    assert(n / 16 / 16 / 16 / 16 == n / 0x1_0000);
    assert(upper_digits(n, 8) =~= upper_digits(n / 0x1_0000, 4) + upper_digits(n, 4));
}

/// The digits of four bytes.
proof fn lemma_octets_of(n: nat, a: nat, b: nat, c: nat, d: nat)
    requires
        n == a + b * 0x100 + c * 0x1_0000 + d * 0x100_0000,
        a < 256,
        b < 256,
        c < 256,
        d < 256,
    ensures
        upper_digits(n, 8) == seq![
            upper_digit(d / 16),
            upper_digit(d % 16),
            upper_digit(c / 16),
            upper_digit(c % 16),
            upper_digit(b / 16),
            upper_digit(b % 16),
            upper_digit(a / 16),
            upper_digit(a % 16),
        ],
{
    let low = a + b * 0x100;
    let high = c + d * 0x100;
    lemma_upper_digits_8(n);
    lemma_upper_half(n, low, high);
    lemma_two_octets(a, b);
    lemma_two_octets(c, d);
    assert(upper_digits(n, 8) =~= seq![
        upper_digit(d / 16),
        upper_digit(d % 16),
        upper_digit(c / 16),
        upper_digit(c % 16),
        upper_digit(b / 16),
        upper_digit(b % 16),
        upper_digit(a / 16),
        upper_digit(a % 16),
    ]);
}

/// The digits of two bytes.
proof fn lemma_two_octets(a: nat, b: nat)
    requires
        a < 256,
        b < 256,
    ensures
        upper_digits(a + b * 0x100, 4) == seq![
            upper_digit(b / 16),
            upper_digit(b % 16),
            upper_digit(a / 16),
            upper_digit(a % 16),
        ],
{
    let n = a + b * 0x100;
    reveal_with_fuel(upper_digits, 5);
    lemma_one_digit(a, b * 16);
    lemma_one_digit(a / 16, b);
    assert(n / 16 == a / 16 + b * 16);
    assert(n / 16 / 16 == b);
    assert(upper_digits(n, 4) =~= seq![
        upper_digit(b / 16),
        upper_digit(b % 16),
        upper_digit(a / 16),
        upper_digit(a % 16),
    ]);
}

/// The last four digits are those of what is left behind the first.
proof fn lemma_upper_half(n: nat, low: nat, high: nat)
    requires
        n == low + high * 0x1_0000,
        low < 0x1_0000,
    ensures
        n / 0x1_0000 == high,
        upper_digits(n, 4) == upper_digits(low, 4),
{
    reveal_with_fuel(upper_digits, 5);
    lemma_one_digit(low, high * 0x1000);
    lemma_one_digit(low / 16, high * 0x100);
    lemma_one_digit(low / 16 / 16, high * 0x10);
    lemma_one_digit(low / 16 / 16 / 16, high);
}

/// What is sixteen times something changes no last digit, and adds that thing to the others.
proof fn lemma_one_digit(low: nat, high: nat)
    ensures
        (low + high * 16) / 16 == low / 16 + high,
        (low + high * 16) % 16 == low % 16,
{
}

/// The server is known by its port, 5037, at this machine's own address, or at all of them where it
/// listens, and belongs to one of the users. The state of a listener is ten.
pub proof fn law_the_server_is_known(row: Row, ours: Seq<char>, allowed: Seq<u32>)
    ensures
        is_server(row, allowed) <==> (row.local == endpoint_of(seq![127u8, 0u8, 0u8, 1u8], 5037)
            || row.local == endpoint_of(seq![0u8, 0u8, 0u8, 0u8], 5037)) && row.state
            == upper_digits(10, 2) && allowed.contains(row.uid),
        is_peer(row, ours, allowed) <==> row.local == endpoint_of(
            seq![127u8, 0u8, 0u8, 1u8],
            5037,
        ) && row.remote == ours && allowed.contains(row.uid),
{
    lemma_le_value_4(seq![127u8, 0u8, 0u8, 1u8]);
    lemma_le_value_4(seq![0u8, 0u8, 0u8, 0u8]);
    lemma_octets_of(0x0100_007f, 127, 0, 0, 1);
    lemma_octets_of(0, 0, 0, 0, 0);
    lemma_upper_digits_4(5037);
    reveal_with_fuel(upper_digits, 3);
    reveal_strlit("0100007F:13AD");
    reveal_strlit("00000000:13AD");
    reveal_strlit("0A");
    assert(endpoint_of(seq![127u8, 0u8, 0u8, 1u8], 5037) =~= "0100007F:13AD"@);
    assert(endpoint_of(seq![0u8, 0u8, 0u8, 0u8], 5037) =~= "00000000:13AD"@);
    assert(upper_digits(10, 2) =~= "0A"@);
}

/// The server is started by `adb start-server`; before that stands who it is started for, where root
/// starts it for somebody.
pub proof fn law_the_server_is_started(effective: u32, user: Option<Seq<char>>)
    ensures
        ({
            let command = start_command(effective, user);
            let n = command.len() as int;
            &&& command.skip(n - 2) == seq!["adb"@, "start-server"@]
            &&& effective == 0 && user is Some && user->0.len() > 0 ==> command.take(n - 2) == seq![
                "runuser"@,
                "-u"@,
                user->0,
                "--"@,
            ]
            &&& effective != 0 || user is None || user->0.len() == 0 ==> n == 2
        }),
{
    let command = start_command(effective, user);
    let n = command.len() as int;
    assert(command.skip(n - 2) =~= seq!["adb"@, "start-server"@]);
    if n == 6 {
        assert(command.take(4) =~= seq!["runuser"@, "-u"@, user->0, "--"@]);
    }
}

/// The server is started where it never was, and again when more than a minute has gone by since.
pub proof fn law_server_is_started_now_and_then(
    pauses: Map<Seq<char>, u64>,
    started: u64,
    now: u64,
)
    ensures
        (Usb { started: None, pauses }).may_start(now),
        (Usb { started: Some(started), pauses }).may_start(now) <==> now > started + 60_000,
{
}

/// A phone that has a link is not tried. One that has none is, unless it failed less than ten
/// seconds ago; that it was linked ends its pause, and that its connection was dropped neither
/// begins nor ends one.
pub proof fn law_phones_are_tried(
    usb: Usb,
    serial: Seq<char>,
    names: Seq<Seq<char>>,
    now: u64,
    later: u64,
)
    requires
        now + 10_000 <= u64::MAX,
    ensures
        names.contains(seq!['u', 's', 'b', ':'] + serial) ==> !usb.wants(serial, names, later),
        !names.contains(seq!['u', 's', 'b', ':'] + serial) ==> {
            &&& !usb.pauses.contains_key(serial) ==> usb.wants(serial, names, later)
            &&& usb.after(serial, Tried::Linked, now).wants(serial, names, later)
            &&& usb.after(serial, Tried::Failed, now).wants(serial, names, later) <==> later - now
                >= 10_000
        },
        usb.after(serial, Tried::Dropped, now) == usb,
        forall|tried: Tried| (#[trigger] usb.after(serial, tried, now)).started == usb.started,
{
    law_phones_are_known(serial, serial);
}

} // verus!
