//! The phones that are connected, each by one link or more.

use vstd::prelude::*;
use vstd::string::*;

use crate::number::{
    decimal_of, digit_value, lemma_decimal, lemma_number_of_decimal, number_of, read_number,
};
use crate::text::{
    are_lines, chars_of, index_of, is_line, is_space, is_word, lemma_lines_of_unlines,
    lemma_position_is, lemma_squeezed_lacks, lemma_words_from_cons, lines, lines_of, position, same,
    squeeze, squeezed, string_of, unlines, words, words_from, words_of,
};

verus! {

/// What is known of a link to a phone.
#[derive(Debug)]
pub struct Link {
    /// The phone: its Bluetooth address where it is known.
    pub device: String,
    /// What the phone calls itself, on one line.
    pub label: String,
    /// A lower one is preferred: USB before Bluetooth.
    pub priority: u8,
    /// Whether the link still stands.
    pub alive: bool,
}

/// How a phone's name is kept: its words with one space between each two.
pub fn link_label(label: &str) -> (kept: String)
    ensures
        kept@ == squeezed(label@),
{
    squeeze(label)
}

/// Link `a` is preferred to link `b`: by priority, and among equals the older.
pub open spec fn preferred(links: Seq<Link>, a: int, b: int) -> bool {
    links[a].priority < links[b].priority || (links[a].priority == links[b].priority && a < b)
}

/// Link `i` stands, and no other that stands leads to the same phone and is preferred.
pub open spec fn leads(links: Seq<Link>, i: int) -> bool {
    &&& 0 <= i < links.len()
    &&& links[i].alive
    &&& forall|j: int|
        0 <= j < links.len() && #[trigger] links[j].alive && links[j].device@ == links[i].device@
            ==> !preferred(links, j, i)
}

/// The link of each phone, in the order of preference.
pub open spec fn is_selection(links: Seq<Link>, order: Seq<usize>) -> bool {
    &&& forall|k: int| 0 <= k < order.len() ==> leads(links, (#[trigger] order[k]) as int)
    &&& forall|i: int| #[trigger] leads(links, i) ==> exists|k: int|
        0 <= k < order.len() && order[k] == i
    &&& forall|a: int, b: int|
        0 <= a < b < order.len() ==> preferred(
            links,
            (#[trigger] order[a]) as int,
            (#[trigger] order[b]) as int,
        )
}

/// Whether a link leads to its phone.
fn link_leads(links: &Vec<Link>, i: usize) -> (found: bool)
    requires
        i < links@.len(),
    ensures
        found == leads(links@, i as int),
{
    if !links[i].alive {
        return false;
    }
    let mut j: usize = 0;
    while j < links.len()
        invariant
            i < links@.len(),
            j <= links@.len(),
            links@[i as int].alive,
            forall|k: int|
                0 <= k < j && #[trigger] links@[k].alive && links@[k].device@
                    == links@[i as int].device@ ==> !preferred(links@, k, i as int),
        decreases links@.len() - j,
    {
        if links[j].alive && (links[j].priority < links[i].priority || (links[j].priority
            == links[i].priority && j < i)) && same(
            links[j].device.as_str(),
            links[i].device.as_str(),
        ) {
            assert(preferred(links@, j as int, i as int));
            return false;
        }
        j = j + 1;
    }
    true
}

/// The link of each phone, in the order of preference.
pub fn by_device(links: &Vec<Link>) -> (order: Vec<usize>)
    ensures
        is_selection(links@, order@),
{
    let mut order: Vec<usize> = Vec::new();
    let mut i: usize = 0;
    while i < links.len()
        invariant
            i <= links@.len(),
            forall|k: int|
                0 <= k < order@.len() ==> (#[trigger] order@[k]) < i && leads(
                    links@,
                    order@[k] as int,
                ),
            forall|j: int|
                j < i && #[trigger] leads(links@, j) ==> exists|k: int|
                    0 <= k < order@.len() && order@[k] == j,
            forall|a: int, b: int|
                0 <= a < b < order@.len() ==> preferred(
                    links@,
                    (#[trigger] order@[a]) as int,
                    (#[trigger] order@[b]) as int,
                ),
        decreases links@.len() - i,
    {
        if link_leads(links, i) {
            let mut at: usize = 0;
            while at < order.len() && links[order[at]].priority <= links[i].priority
                invariant
                    i < links@.len(),
                    at <= order@.len(),
                    forall|k: int| 0 <= k < order@.len() ==> (#[trigger] order@[k]) < i,
                    forall|k: int|
                        0 <= k < at ==> links@[(#[trigger] order@[k]) as int].priority
                            <= links@[i as int].priority,
                decreases order@.len() - at,
            {
                at = at + 1;
            }
            let ghost before = order@;
            order.insert(at, i);
            proof {
                let now = order@;
                assert(now == before.insert(at as int, i));
                assert forall|a: int, b: int| 0 <= a < b < now.len() implies preferred(
                    links@,
                    (#[trigger] now[a]) as int,
                    (#[trigger] now[b]) as int,
                ) by {
                    if a < at && b > at {
                        assert(now[a] == before[a] && now[b] == before[b - 1]);
                    } else if b < at {
                        assert(now[a] == before[a] && now[b] == before[b]);
                    } else if a > at {
                        assert(now[a] == before[a - 1] && now[b] == before[b - 1]);
                    } else if b == at {
                        assert(now[a] == before[a]);
                    } else {
                        assert(now[b] == before[b - 1]);
                        if b - 1 > at {
                            assert(preferred(
                                links@,
                                before[at as int] as int,
                                before[b - 1] as int,
                            ));
                        }
                        assert(links@[before[at as int] as int].priority
                            > links@[i as int].priority);
                    }
                }
                assert forall|j: int| j < i + 1 && #[trigger] leads(links@, j) implies exists|k: int|
                    0 <= k < now.len() && now[k] == j by {
                    if j == i {
                        assert(now[at as int] == j);
                    } else {
                        let k = choose|k: int| 0 <= k < before.len() && before[k] == j;
                        if k < at {
                            assert(now[k] == j);
                        } else {
                            assert(now[k + 1] == j);
                        }
                    }
                }
                assert forall|k: int| 0 <= k < now.len() implies (#[trigger] now[k]) < i + 1
                    && leads(links@, now[k] as int) by {
                    if k < at {
                        assert(now[k] == before[k]);
                    } else if k > at {
                        assert(now[k] == before[k - 1]);
                    }
                }
            }
        }
        i = i + 1;
    }
    order
}

/// A line of the list of phones: the phone, a tab, its name.
pub open spec fn device_line(link: Link) -> Seq<char> {
    link.device@.push('\t') + link.label@
}

/// The list of phones, a line for each.
pub open spec fn device_list(links: Seq<Link>, order: Seq<usize>) -> Seq<char> {
    unlines(order.map_values(|i: usize| device_line(links[i as int])))
}

/// The list of the phones that are connected, a line for each: the phone, a tab, its name.
pub fn publish(links: &Vec<Link>) -> (text: String)
    ensures
        exists|order: Seq<usize>|
            #[trigger] is_selection(links@, order) && text@ == device_list(links@, order),
{
    let order = by_device(links);
    let mut text = String::new();
    let mut k: usize = 0;
    proof {
        assert(order@.take(0).map_values(|i: usize| device_line(links@[i as int])) =~= Seq::empty());
    }
    while k < order.len()
        invariant
            is_selection(links@, order@),
            k <= order@.len(),
            text@ == device_list(links@, order@.take(k as int)),
        decreases order@.len() - k,
    {
        assert(leads(links@, order@[k as int] as int));
        let link = &links[order[k]];
        let ghost before = text@;
        text.append(link.device.as_str());
        text.push('\t');
        text.append(link.label.as_str());
        text.push('\n');
        proof {
            let line = |i: usize| device_line(links@[i as int]);
            let now = order@.take(k + 1).map_values(line);
            assert(now.drop_last() =~= order@.take(k as int).map_values(line));
            assert(now.last() == device_line(*link));
            assert(text@ =~= before + device_line(*link).push('\n'));
        }
        k = k + 1;
    }
    proof {
        assert(order@.take(k as int) =~= order@);
    }
    text
}

// ---------------------------------------------------------------------------
// Reading the list of phones
// ---------------------------------------------------------------------------

/// The phone and its name on a line of the list; the phone is its own name where there is
/// no tab.
pub open spec fn phone_on(line: Seq<char>) -> (Seq<char>, Seq<char>) {
    let end = position(line, 0, '\t');
    if end < line.len() {
        (line.take(end), line.skip(end + 1))
    } else {
        (line, line)
    }
}

/// The phones on lines of the list, and their names.
pub open spec fn phones_on(lines: Seq<Seq<char>>) -> Seq<(Seq<char>, Seq<char>)>
    decreases lines.len(),
{
    if lines.len() == 0 {
        Seq::empty()
    } else {
        let before = phones_on(lines.drop_last());
        let phone = phone_on(lines.last());
        if phone.0.len() == 0 {
            before
        } else {
            before.push(phone)
        }
    }
}

/// The phones of a list, and their names.
pub fn connected_devices(text: &str) -> (found: Vec<(String, String)>)
    ensures
        found.deep_view() == phones_on(lines_of(text@)),
{
    let all = lines(text);
    let ghost whole = all.deep_view();
    let mut found: Vec<(String, String)> = Vec::new();
    let mut i: usize = 0;
    assert(found.deep_view() =~= Seq::empty());
    while i < all.len()
        invariant
            whole == all.deep_view(),
            i <= all@.len(),
            found.deep_view() == phones_on(whole.take(i as int)),
        decreases all@.len() - i,
    {
        let ghost before = found.deep_view();
        let chars = chars_of(all[i].as_str());
        let end = index_of(chars.as_slice(), 0, '\t');
        proof {
            assert(whole.take(i + 1).drop_last() =~= whole.take(i as int));
            assert(whole.take(i + 1).last() == chars@);
        }
        let id = string_of(chars.as_slice(), 0, end);
        let label = if end < chars.len() {
            string_of(chars.as_slice(), end + 1, chars.len())
        } else {
            string_of(chars.as_slice(), 0, end)
        };
        proof {
            assert(id@ =~= phone_on(chars@).0);
            assert(label@ =~= phone_on(chars@).1);
        }
        if !id.as_str().is_empty() {
            found.push((id, label));
            assert(found.deep_view() =~= before.push(phone_on(chars@)));
        }
        i = i + 1;
    }
    assert(whole.take(i as int) =~= whole);
    found
}

// ---------------------------------------------------------------------------
// The phone that one program has chosen
// ---------------------------------------------------------------------------

/// The note that a program uses one phone only.
pub open spec fn use_note(device: Seq<char>, pid: Seq<char>) -> Seq<char> {
    device.push(' ') + pid.push('\n')
}

/// The note that a program uses one phone only; none where no phone is given. The program
/// must be given with the phone.
pub fn root_use(device: Option<&str>, pid: Option<&str>) -> (note: Result<
    Option<String>,
    &'static str,
>)
    ensures
        device is None ==> note == Ok::<Option<String>, &'static str>(None),
        device is Some && pid is None ==> note is Err && note->Err_0@ == "missing owner pid"@,
        device is Some && pid is Some ==> note is Ok && note->Ok_0 is Some && (note->Ok_0->0)@
            == use_note(device->0@, pid->0@),
{
    match device {
        None => Ok(None),
        Some(device) => match pid {
            None => Err("missing owner pid"),
            Some(pid) => {
                let mut note = device.to_string();
                note.push(' ');
                note.append(pid);
                note.push('\n');
                assert(note@ =~= use_note(device@, pid@));
                Ok(Some(note))
            },
        },
    }
}

/// The phone and the program in a note.
pub open spec fn chosen_in(note: Seq<char>) -> Option<(Seq<char>, nat)> {
    let words = words_of(note);
    if words.len() < 2 {
        None
    } else {
        match number_of(words[1], 10, u32::MAX as nat) {
            Some(pid) => Some((words[0], pid)),
            None => None,
        }
    }
}

/// The phone and the program in a note.
pub fn chosen_device(note: &str) -> (chosen: Option<(String, u32)>)
    ensures
        chosen is Some <==> chosen_in(note@) is Some,
        chosen matches Some((device, pid)) ==> chosen_in(note@) == Some((device@, pid as nat)),
{
    let found = words(note);
    assert(found.deep_view() == words_of(note@));
    if found.len() < 2 {
        return None;
    }
    assert(found.deep_view()[0] == found@[0]@ && found.deep_view()[1] == found@[1]@);
    match read_number(found[1].as_str(), 10, u32::MAX as u64) {
        Some(pid) => Some((found[0].as_str().to_string(), pid as u32)),
        None => None,
    }
}

// ---------------------------------------------------------------------------
// Laws
// ---------------------------------------------------------------------------

/// Two selections of the same links are equal on their first elements.
proof fn lemma_selections_agree(links: Seq<Link>, a: Seq<usize>, b: Seq<usize>, n: int)
    requires
        is_selection(links, a),
        is_selection(links, b),
        0 <= n <= a.len(),
        n <= b.len(),
    ensures
        a.take(n) == b.take(n),
    decreases n,
{
    if n > 0 {
        lemma_selections_agree(links, a, b, n - 1);
        assert forall|i: int| 0 <= i < n - 1 implies a[i] == b[i] by {
            assert(a.take(n - 1)[i] == b.take(n - 1)[i]);
        }
        assert(leads(links, a[n - 1] as int));
        assert(leads(links, b[n - 1] as int));
        let k = choose|k: int| 0 <= k < b.len() && b[k] == a[n - 1];
        let j = choose|j: int| 0 <= j < a.len() && a[j] == b[n - 1];
        if k < n - 1 {
            assert(a[k] == a[n - 1]);
            assert(preferred(links, a[k] as int, a[n - 1] as int));
        }
        if j < n - 1 {
            assert(b[j] == b[n - 1]);
            assert(preferred(links, b[j] as int, b[n - 1] as int));
        }
        if k > n - 1 && j > n - 1 {
            assert(preferred(links, b[n - 1] as int, b[k] as int));
            assert(preferred(links, a[n - 1] as int, a[j] as int));
        }
        assert(a.take(n) =~= b.take(n));
    } else {
        assert(a.take(0) =~= b.take(0));
    }
}

/// There is one selection of links.
pub proof fn law_selection_is_one(links: Seq<Link>, a: Seq<usize>, b: Seq<usize>)
    requires
        is_selection(links, a),
        is_selection(links, b),
    ensures
        a == b,
{
    let n = if a.len() <= b.len() {
        a.len() as int
    } else {
        b.len() as int
    };
    lemma_selections_agree(links, a, b, n);
    assert forall|i: int| 0 <= i < n implies a[i] == b[i] by {
        assert(a.take(n)[i] == b.take(n)[i]);
    }
    if a.len() < b.len() {
        assert(leads(links, b[n] as int));
        let k = choose|k: int| 0 <= k < a.len() && a[k] == b[n];
        assert(preferred(links, b[k] as int, b[n] as int));
    } else if b.len() < a.len() {
        assert(leads(links, a[n] as int));
        let k = choose|k: int| 0 <= k < b.len() && b[k] == a[n];
        assert(preferred(links, a[k] as int, a[n] as int));
    }
    assert(a =~= b);
}

/// Some link leads to the phone of each link that stands.
proof fn lemma_leader(links: Seq<Link>, i: int) -> (leader: int)
    requires
        0 <= i < links.len(),
        links[i].alive,
    ensures
        leads(links, leader),
        links[leader].device@ == links[i].device@,
    decreases links[i].priority, i,
{
    if leads(links, i) {
        i
    } else {
        let j = choose|j: int|
            0 <= j < links.len() && #[trigger] links[j].alive && links[j].device@
                == links[i].device@ && preferred(links, j, i);
        lemma_leader(links, j)
    }
}

/// Every phone that a link stands to is selected, and none twice.
pub proof fn law_every_phone_is_selected_once(links: Seq<Link>, order: Seq<usize>, i: int)
    requires
        is_selection(links, order),
        0 <= i < links.len(),
        links[i].alive,
    ensures
        exists|k: int|
            0 <= k < order.len() && links[(#[trigger] order[k]) as int].device@ == links[i].device@,
        forall|a: int, b: int|
            0 <= a < b < order.len() ==> links[(#[trigger] order[a]) as int].device@
                != links[(#[trigger] order[b]) as int].device@,
{
    let leader = lemma_leader(links, i);
    let k = choose|k: int| 0 <= k < order.len() && order[k] == leader;
    assert(links[order[k] as int].device@ == links[i].device@);
    assert forall|a: int, b: int| 0 <= a < b < order.len() implies links[(
    #[trigger] order[a]) as int].device@ != links[(#[trigger] order[b]) as int].device@ by {
        assert(preferred(links, order[a] as int, order[b] as int));
        assert(leads(links, order[a] as int) && leads(links, order[b] as int));
        assert(links[order[a] as int].alive);
    }
}

/// A phone that is connected twice is used by the link of the lower priority: one on both
/// USB and Bluetooth by USB.
pub proof fn law_lower_priority_is_used(
    links: Seq<Link>,
    order: Seq<usize>,
    preferred_link: int,
    other: int,
)
    requires
        is_selection(links, order),
        0 <= preferred_link < links.len(),
        0 <= other < links.len(),
        links[preferred_link].alive,
        links[preferred_link].device@ == links[other].device@,
        links[preferred_link].priority < links[other].priority,
    ensures
        forall|k: int| 0 <= k < order.len() ==> (#[trigger] order[k]) != other,
{
    assert forall|k: int| 0 <= k < order.len() implies (#[trigger] order[k]) != other by {
        assert(leads(links, order[k] as int));
        assert(links[preferred_link].alive);
        if order[k] == other {
            assert(preferred(links, preferred_link, other));
        }
    }
}

/// A phone that can be listed: it has a name of its own without tabs and line feeds, and
/// what it calls itself is on one line.
pub open spec fn can_list(link: Link) -> bool {
    &&& link.device@.len() > 0
    &&& !link.device@.contains('\t')
    &&& !link.device@.contains('\n')
    &&& !link.label@.contains('\n')
    &&& !link.label@.contains('\r')
}

/// What a phone calls itself is kept on one line.
pub proof fn law_labels_are_one_line(label: Seq<char>)
    ensures
        !squeezed(label).contains('\n'),
        !squeezed(label).contains('\r'),
        !squeezed(label).contains('\t'),
{
    lemma_squeezed_lacks(label, '\n');
    lemma_squeezed_lacks(label, '\r');
    lemma_squeezed_lacks(label, '\t');
}

/// What is read of a line of the list.
proof fn lemma_device_line(link: Link)
    requires
        can_list(link),
    ensures
        is_line(device_line(link)),
        phone_on(device_line(link)) == (link.device@, link.label@),
{
    let line = device_line(link);
    let n = link.device@.len() as int;
    assert forall|k: int| 0 <= k < n implies line[k] != '\t' && line[k] != '\n' by {
        assert(link.device@.contains(link.device@[k]));
    }
    lemma_position_is(line, 0, '\t', n);
    assert(line.take(n) =~= link.device@);
    assert(line.skip(n + 1) =~= link.label@);
    assert(!line.contains('\n')) by {
        assert forall|k: int| 0 <= k < line.len() implies line[k] != '\n' by {
            if k > n {
                assert(link.label@.contains(link.label@[k - n - 1]));
            }
        }
    }
    if link.label@.len() > 0 {
        assert(line.last() == link.label@.last());
        assert(link.label@.contains(link.label@.last()));
    }
}

/// What is read of lines of the list.
proof fn lemma_device_lines(links: Seq<Link>, order: Seq<usize>)
    requires
        forall|k: int| 0 <= k < order.len() ==> can_list(links[(#[trigger] order[k]) as int]),
    ensures
        ({
            let lines = order.map_values(|i: usize| device_line(links[i as int]));
            &&& are_lines(lines)
            &&& phones_on(lines) == order.map_values(
                |i: usize| (links[i as int].device@, links[i as int].label@),
            )
        }),
    decreases order.len(),
{
    let lines = order.map_values(|i: usize| device_line(links[i as int]));
    let phones = order.map_values(|i: usize| (links[i as int].device@, links[i as int].label@));
    assert forall|k: int| 0 <= k < lines.len() implies is_line(#[trigger] lines[k]) by {
        lemma_device_line(links[order[k] as int]);
    }
    if order.len() > 0 {
        let init = order.drop_last();
        assert forall|k: int| 0 <= k < init.len() implies can_list(
            links[(#[trigger] init[k]) as int],
        ) by {
            assert(init[k] == order[k]);
        }
        lemma_device_lines(links, init);
        assert(lines.drop_last() =~= init.map_values(|i: usize| device_line(links[i as int])));
        let last = links[order[order.len() - 1] as int];
        lemma_device_line(last);
        assert(lines.last() == device_line(last));
        assert(phones =~= init.map_values(
            |i: usize| (links[i as int].device@, links[i as int].label@),
        ).push((last.device@, last.label@)));
    } else {
        assert(phones =~= Seq::empty());
    }
}

/// Whoever reads the list that is published learns each phone and its name.
pub proof fn law_published_phones_are_read_back(links: Seq<Link>, order: Seq<usize>)
    requires
        is_selection(links, order),
        forall|k: int| 0 <= k < order.len() ==> can_list(links[(#[trigger] order[k]) as int]),
    ensures
        phones_on(lines_of(device_list(links, order))) == order.map_values(
            |i: usize| (links[i as int].device@, links[i as int].label@),
        ),
{
    lemma_device_lines(links, order);
    lemma_lines_of_unlines(order.map_values(|i: usize| device_line(links[i as int])));
}

/// Whoever reads the note that a program uses one phone learns the phone and the program,
/// where the phone is one word.
pub proof fn law_chosen_phone_is_read_back(device: Seq<char>, pid: u32)
    requires
        is_word(device),
    ensures
        chosen_in(use_note(device, decimal_of(pid as nat))) == Some((device, pid as nat)),
{
    let digits = decimal_of(pid as nat);
    let note = use_note(device, digits);
    let n = device.len() as int;
    let end = n + 1 + digits.len();
    lemma_number_of_decimal(pid as nat, u32::MAX as nat);
    lemma_decimal(pid as nat);
    assert forall|k: int| 0 <= k < digits.len() implies !is_space(#[trigger] digits[k]) by {
        assert(digit_value(digits[k], 10) is Some);
    }
    assert(note.subrange(0, n) =~= device);
    lemma_words_from_cons(note, 0, device);
    assert(note.subrange(n + 1, end) =~= digits);
    lemma_words_from_cons(note, n + 1, digits);
    assert(note.len() == end + 1);
    assert(words_from(note, end + 1) =~= Seq::empty());
    assert(words_of(note) =~= seq![device, digits]);
}

/// Which links are selected, and in which order. A link is selected where it stands and, of all
/// that stand and lead to its phone, has the lowest priority, and is the oldest of those that have
/// it. Links of a lower priority come first, and of the same priority the older.
pub proof fn law_which_links_are_selected(links: Seq<Link>, order: Seq<usize>, i: int, j: int)
    requires
        is_selection(links, order),
        0 <= i < links.len() <= usize::MAX,
    ensures
        order.contains(i as usize) ==> links[i].alive,
        order.contains(i as usize) && 0 <= j < links.len() && links[j].alive && links[j].device@
            == links[i].device@ ==> links[i].priority < links[j].priority || links[i].priority
            == links[j].priority && i <= j,
        links[i].alive && (forall|k: int|
            0 <= k < links.len() && #[trigger] links[k].alive && links[k].device@
                == links[i].device@ ==> links[i].priority < links[k].priority || links[i].priority
                == links[k].priority && i <= k) ==> order.contains(i as usize),
        forall|a: int, b: int|
            0 <= a < b < order.len() ==> links[(#[trigger] order[a]) as int].priority
                < links[(#[trigger] order[b]) as int].priority || links[order[a] as int].priority
                == links[order[b] as int].priority && order[a] < order[b],
{
    if order.contains(i as usize) {
        let k = choose|k: int| 0 <= k < order.len() && order[k] == i as usize;
        assert(leads(links, order[k] as int));
    }
    if links[i].alive && (forall|k: int|
        0 <= k < links.len() && #[trigger] links[k].alive && links[k].device@ == links[i].device@
            ==> links[i].priority < links[k].priority || links[i].priority == links[k].priority && i
            <= k) {
        assert(leads(links, i));
        let k = choose|k: int| 0 <= k < order.len() && order[k] == i;
        assert(order[k] == i as usize);
    }
    assert forall|a: int, b: int| 0 <= a < b < order.len() implies links[(
    #[trigger] order[a]) as int].priority < links[(#[trigger] order[b]) as int].priority
        || links[order[a] as int].priority == links[order[b] as int].priority && order[a]
        < order[b] by {
        assert(preferred(links, order[a] as int, order[b] as int));
    }
}

/// The list of phones has a line for each link that is selected, in their order: the phone, a tab,
/// its name and a line feed.
pub proof fn law_list_of_phones(links: Seq<Link>, order: Seq<usize>, i: usize)
    ensures
        device_list(links, Seq::empty()) == Seq::<char>::empty(),
        device_list(links, order.push(i)) == device_list(links, order) + links[i as int].device@
            + seq!['\t'] + links[i as int].label@ + seq!['\n'],
{
    let line = |k: usize| device_line(links[k as int]);
    assert(Seq::<usize>::empty().map_values(line) =~= Seq::empty());
    let lines = order.push(i).map_values(line);
    assert(lines.drop_last() =~= order.map_values(line));
    assert(lines.last() == device_line(links[i as int]));
    assert(device_list(links, order.push(i)) =~= device_list(links, order)
        + links[i as int].device@ + seq!['\t'] + links[i as int].label@ + seq!['\n']);
}

/// What a line of the list says: the phone is before the first tab and its name behind it, which may
/// have tabs itself; without a tab the phone is its own name.
pub proof fn law_lines_of_the_list(phone: Seq<char>, name: Seq<char>)
    requires
        !phone.contains('\t'),
    ensures
        phone_on(phone.push('\t') + name) == (phone, name),
        phone_on(phone) == (phone, phone),
{
    let line = phone.push('\t') + name;
    assert forall|k: int| 0 <= k < phone.len() implies phone[k] != '\t' && line[k] != '\t' by {
        assert(phone.contains(phone[k]));
    }
    lemma_position_is(line, 0, '\t', phone.len() as int);
    lemma_position_is(phone, 0, '\t', phone.len() as int);
    assert(line.take(phone.len() as int) =~= phone);
    assert(line.skip(phone.len() as int + 1) =~= name);
}

/// Every line that has a phone gives one, in the order of the lines.
pub proof fn law_phones_of_the_list(lines: Seq<Seq<char>>)
    ensures
        phones_on(lines) == lines.map_values(|line: Seq<char>| phone_on(line)).filter(
            |phone: (Seq<char>, Seq<char>)| phone.0.len() > 0,
        ),
    decreases lines.len(),
{
    reveal(Seq::filter);
    let phones = lines.map_values(|line: Seq<char>| phone_on(line));
    let has = |phone: (Seq<char>, Seq<char>)| phone.0.len() > 0;
    if lines.len() > 0 {
        let init = lines.drop_last();
        law_phones_of_the_list(init);
        assert(phones.drop_last() =~= init.map_values(|line: Seq<char>| phone_on(line)));
        assert(phones.last() == phone_on(lines.last()));
    } else {
        assert(phones_on(lines) =~= phones.filter(has));
    }
}

/// A note has two words at least: the phone, and a number of thirty-two bits. What stands between
/// them and behind them does not matter.
pub proof fn law_notes_are_read(note: Seq<char>)
    ensures
        chosen_in(note) is Some <==> words_of(note).len() >= 2 && number_of(
            words_of(note)[1],
            10,
            0xffff_ffff,
        ) is Some,
        chosen_in(note) matches Some(chosen) ==> chosen.0 == words_of(note)[0] && number_of(
            words_of(note)[1],
            10,
            0xffff_ffff,
        ) == Some(chosen.1),
{
}

} // verus!
