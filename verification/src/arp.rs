//! The neighbours that the operating system knows: hardware addresses from its
//! address table, and names from a reverse lookup.

use crate::numerals;
use crate::numerals::same_ignoring_case;
use crate::storage;
use crate::text;
use crate::text::{
    chars_of, find, lines, push_all, same_text, stands_at, string_of, trim, trim_start, trim_tail, words,
};
use crate::unicode;
use crate::unicode::from_utf8_lossy;
use vstd::hash_map::StringHashMap;
use vstd::prelude::*;
use vstd::slice::slice_subrange;
use vstd::utf8::*;

verus! {

/// The first place of `word` among `parts`.
pub open spec fn position_of(parts: Seq<Seq<char>>, word: Seq<char>, i: int) -> Option<int>
    decreases parts.len() - i,
{
    if i >= parts.len() {
        None
    } else if parts[i] == word {
        Some(i)
    } else {
        position_of(parts, word, i + 1)
    }
}

/// The entry in a line of `ip neigh show`: the address that the line begins
/// with, and the word that follows `lladdr`.
pub open spec fn neighbour_of(line: Seq<char>) -> Option<(Seq<char>, Seq<char>)> {
    let parts = text::word_seq(line);
    if parts.len() < 5 {
        None
    } else {
        match position_of(parts, "lladdr"@, 0) {
            Some(i) => if i + 1 < parts.len() {
                Some((parts[0], parts[i + 1]))
            } else {
                None
            },
            None => None,
        }
    }
}

/// The entry in a line of `/proc/net/arp`: its first and its fourth word. An
/// address of zeros stands for an incomplete entry.
pub open spec fn arp_entry_of(line: Seq<char>) -> Option<(Seq<char>, Seq<char>)> {
    let parts = text::word_seq(line);
    if parts.len() >= 4 && parts[3] != "00:00:00:00:00:00"@ {
        Some((parts[0], parts[3]))
    } else {
        None
    }
}

/// A table with one more entry, if there is one.
pub open spec fn with_entry(
    table: Map<Seq<char>, Seq<char>>,
    entry: Option<(Seq<char>, Seq<char>)>,
) -> Map<Seq<char>, Seq<char>> {
    match entry {
        Some((ip, mac)) => table.insert(ip, mac),
        None => table,
    }
}

/// The table in the output of `ip neigh show`; of two entries for one address
/// the later counts.
pub open spec fn neighbours(lines: Seq<Seq<char>>) -> Map<Seq<char>, Seq<char>>
    decreases lines.len(),
{
    if lines.len() == 0 {
        Map::empty()
    } else {
        with_entry(neighbours(lines.drop_last()), neighbour_of(lines.last()))
    }
}

/// The table in the lines of `/proc/net/arp` that follow its heading.
pub open spec fn arp_entries(lines: Seq<Seq<char>>) -> Map<Seq<char>, Seq<char>>
    decreases lines.len(),
{
    if lines.len() == 0 {
        Map::empty()
    } else {
        with_entry(arp_entries(lines.drop_last()), arp_entry_of(lines.last()))
    }
}

/// The lines below the first.
pub open spec fn below_heading(lines: Seq<Seq<char>>) -> Seq<Seq<char>> {
    if lines.len() == 0 {
        lines
    } else {
        lines.drop_first()
    }
}

/// Hardware addresses by network address.
pub struct ArpTable {
    entries: StringHashMap<String>,
}

impl View for ArpTable {
    type V = Map<Seq<char>, Seq<char>>;

    closed spec fn view(&self) -> Map<Seq<char>, Seq<char>> {
        self.entries@.map_values(|s: String| s@)
    }
}

fn find_word(parts: &Vec<&[char]>, word: &[char]) -> (res: Option<usize>)
    ensures
        match res {
            Some(i) => position_of(text::views(parts@), word@, 0) == Some(i as int) && i
                < parts@.len(),
            None => position_of(text::views(parts@), word@, 0) is None,
        },
{
    let mut i: usize = 0;
    while i < parts.len()
        invariant
            i <= parts@.len(),
            position_of(text::views(parts@), word@, i as int) == position_of(
                text::views(parts@),
                word@,
                0,
            ),
        decreases parts@.len() - i,
    {
        assert(text::views(parts@)[i as int] == parts@[i as int]@);
        if same_text(parts[i], word) {
            return Some(i);
        }
        i = i + 1;
    }
    None
}

fn read_neighbour(line: &[char]) -> (res: Option<(String, String)>)
    ensures
        match res {
            Some((ip, mac)) => neighbour_of(line@) == Some((ip@, mac@)),
            None => neighbour_of(line@) is None,
        },
{
    let parts = words(line);
    if parts.len() < 5 {
        return None;
    }
    assert(text::views(parts@)[0] == parts@[0]@);
    match find_word(&parts, &chars_of("lladdr")) {
        Some(i) => {
            if i + 1 < parts.len() {
                assert(text::views(parts@)[i + 1] == parts@[i + 1]@);
                Some((string_of(parts[0]), string_of(parts[i + 1])))
            } else {
                None
            }
        },
        None => None,
    }
}

fn read_arp_entry(line: &[char]) -> (res: Option<(String, String)>)
    ensures
        match res {
            Some((ip, mac)) => arp_entry_of(line@) == Some((ip@, mac@)),
            None => arp_entry_of(line@) is None,
        },
{
    let parts = words(line);
    if parts.len() < 4 {
        return None;
    }
    assert(text::views(parts@)[0] == parts@[0]@);
    assert(text::views(parts@)[3] == parts@[3]@);
    if same_text(parts[3], &chars_of("00:00:00:00:00:00")) {
        None
    } else {
        Some((string_of(parts[0]), string_of(parts[3])))
    }
}

impl ArpTable {
    /// A table without entries.
    pub fn new() -> (res: Self)
        ensures
            res@ == Map::<Seq<char>, Seq<char>>::empty(),
    {
        let res = ArpTable { entries: StringHashMap::new() };
        assert(res@ =~= Map::<Seq<char>, Seq<char>>::empty());
        res
    }

    /// Enters a hardware address, in place of one that is there already.
    pub fn enter(&mut self, ip: String, mac: String)
        ensures
            final(self)@ == old(self)@.insert(ip@, mac@),
    {
        let ghost before = self@;
        let ghost mac_text = mac@;
        self.entries.insert(ip, mac);
        assert(self@ =~= before.insert(ip@, mac_text));
    }

    /// The hardware address of `ip`.
    pub fn get(&self, ip: &str) -> (res: Option<String>)
        ensures
            match res {
                Some(mac) => self@.contains_key(ip@) && self@[ip@] == mac@,
                None => !self@.contains_key(ip@),
            },
    {
        match self.entries.get(ip) {
            Some(mac) => Some(mac.clone()),
            None => None,
        }
    }

    /// Whether the table has no entry.
    pub fn is_empty(&self) -> (res: bool)
        ensures
            res == (self@ == Map::<Seq<char>, Seq<char>>::empty()),
    {
        let res = self.entries.is_empty();
        proof {
            if res {
                assert(self@ =~= Map::<Seq<char>, Seq<char>>::empty());
            } else if self@ == Map::<Seq<char>, Seq<char>>::empty() {
                assert(self.entries@.dom() =~= self@.dom());
                assert(self.entries@ =~= Map::<Seq<char>, String>::empty());
            }
        }
        res
    }

    /// Reads the output of `ip neigh show`.
    pub fn from_neighbours(output: &[u8]) -> (res: Self)
        ensures
            res@ == neighbours(text::line_seq(unicode::lossy_text(output@))),
            valid_utf8(output@) ==> res@ == neighbours(text::line_seq(decode_utf8(output@))),
    {
        let body = from_utf8_lossy(output);
        let chars = chars_of(body.as_str());
        let all = lines(&chars);
        let ghost views = text::views(all@);
        let mut res = Self::new();
        let mut i: usize = 0;
        assert(views.take(0).len() == 0);
        while i < all.len()
            invariant
                i <= all@.len(),
                views == text::views(all@),
                res@ == neighbours(views.take(i as int)),
            decreases all@.len() - i,
        {
            proof {
                assert(views[i as int] == all@[i as int]@);
                assert(views.take(i + 1).drop_last() =~= views.take(i as int));
            }
            match read_neighbour(all[i]) {
                Some((ip, mac)) => res.enter(ip, mac),
                None => {},
            }
            i = i + 1;
        }
        assert(views.take(i as int) =~= views);
        res
    }

    /// Reads `/proc/net/arp`.
    pub fn from_proc(content: &str) -> (res: Self)
        ensures
            res@ == arp_entries(below_heading(text::line_seq(content@))),
    {
        let chars = chars_of(content);
        let all = lines(&chars);
        let ghost views = below_heading(text::views(all@));
        let mut res = Self::new();
        if all.len() == 0 {
            return res;
        }
        let mut i: usize = 1;
        assert(views.take(0).len() == 0);
        while i < all.len()
            invariant
                1 <= i <= all@.len(),
                views == text::views(all@).drop_first(),
                res@ == arp_entries(views.take(i - 1)),
            decreases all@.len() - i,
        {
            proof {
                assert(views[i - 1] == all@[i as int]@);
                assert(views.take(i as int).drop_last() =~= views.take(i - 1));
            }
            match read_arp_entry(all[i]) {
                Some((ip, mac)) => res.enter(ip, mac),
                None => {},
            }
            i = i + 1;
        }
        assert(views.take(i - 1) =~= views);
        res
    }
}

/// What is known of the neighbours, given what the command printed: that, or
/// else what the file holds.
pub open spec fn known_neighbours(
    printed: Option<Seq<char>>,
    content: Option<Seq<char>>,
) -> Map<Seq<char>, Seq<char>> {
    let first = match printed {
        Some(body) => neighbours(text::line_seq(body)),
        None => Map::empty(),
    };
    if first != Map::<Seq<char>, Seq<char>>::empty() {
        first
    } else {
        match content {
            Some(body) => arp_entries(below_heading(text::line_seq(body))),
            None => Map::empty(),
        }
    }
}

/// The text that a command printed.
pub open spec fn printed_text(output: Option<Seq<u8>>) -> Option<Seq<char>> {
    match output {
        Some(bytes) => Some(unicode::lossy_text(bytes)),
        None => None,
    }
}

/// What an optional slice holds.
pub open spec fn bytes_of(o: Option<&[u8]>) -> Option<Seq<u8>> {
    match o {
        Some(bytes) => Some(bytes@),
        None => None,
    }
}

/// Reads the neighbours from the output of `ip neigh show`, if the command
/// succeeded, and from `/proc/net/arp`, if the file could be read, where the
/// command names none.
pub fn read_arp_table(output: Option<&[u8]>, content: Option<&str>) -> (res: ArpTable)
    ensures
        res@ == known_neighbours(printed_text(bytes_of(output)), text::held(content)),
        output matches Some(bytes) ==> valid_utf8(bytes@) ==> res@ == known_neighbours(
            Some(decode_utf8(bytes@)),
            text::held(content),
        ),
{
    let printed = match output {
        Some(bytes) => ArpTable::from_neighbours(bytes),
        None => ArpTable::new(),
    };
    if !printed.is_empty() {
        return printed;
    }
    match content {
        Some(body) => ArpTable::from_proc(body),
        None => printed,
    }
}

/// A name as a lookup prints it: without white space around it and without the
/// dots at its end.
pub open spec fn printed_name(s: Seq<char>) -> Seq<char> {
    text::without_tail(text::trimmed(s), '.')
}

/// The name after `name =` in a line.
pub open spec fn assigned_name(line: Seq<char>) -> Option<Seq<char>> {
    match text::first_at(line, "name ="@) {
        Some(i) => if printed_name(line.skip(i + 6)).len() > 0 {
            Some(printed_name(line.skip(i + 6)))
        } else {
            None
        },
        None => None,
    }
}

/// The name after `Name:` at the head of a line, unless it is just the address.
pub open spec fn headed_name(line: Seq<char>, ip: Seq<char>) -> Option<Seq<char>> {
    let rest = text::trimmed_start(line);
    if text::begins_with(rest, "Name:"@) {
        let name = printed_name(rest.skip(5));
        if name.len() > 0 && numerals::lowered(name) != numerals::lowered(ip) {
            Some(name)
        } else {
            None
        }
    } else {
        None
    }
}

/// The name in a line of the output of `nslookup`.
pub open spec fn line_name(line: Seq<char>, ip: Seq<char>) -> Option<Seq<char>> {
    match assigned_name(line) {
        Some(name) => Some(name),
        None => headed_name(line, ip),
    }
}

/// The first name in the lines of the output from `i` on.
pub open spec fn name_from(lines: Seq<Seq<char>>, ip: Seq<char>, i: int) -> Option<Seq<char>>
    decreases lines.len() - i,
{
    if i >= lines.len() {
        None
    } else {
        match line_name(lines[i], ip) {
            Some(name) => Some(name),
            None => name_from(lines, ip, i + 1),
        }
    }
}

fn print_name(s: &[char]) -> (res: Option<Vec<char>>)
    ensures
        match res {
            Some(name) => name@ == printed_name(s@) && name@.len() > 0,
            None => printed_name(s@).len() == 0,
        },
{
    let name = trim_tail(trim(s), '.');
    if name.len() == 0 {
        return None;
    }
    let mut out: Vec<char> = Vec::new();
    push_all(&mut out, name);
    assert(out@ =~= name@);
    Some(out)
}

fn read_name(line: &[char], ip: &[char]) -> (res: Option<String>)
    ensures
        match res {
            Some(name) => line_name(line@, ip@) == Some(name@),
            None => line_name(line@, ip@) is None,
        },
{
    proof {
        reveal_strlit("name =");
        reveal_strlit("Name:");
    }
    let n = line.len();
    match find(line, &chars_of("name =")) {
        Some(i) => {
            let rest = slice_subrange(line, i + 6, n);
            assert(rest@ =~= line@.skip(i + 6));
            match print_name(rest) {
                Some(name) => {
                    return Some(string_of(&name));
                },
                None => {},
            }
        },
        None => {},
    }
    let rest = trim_start(line);
    if !stands_at(rest, &chars_of("Name:"), 0) {
        return None;
    }
    let tail = slice_subrange(rest, 5, rest.len());
    assert(tail@ =~= rest@.skip(5));
    match print_name(tail) {
        Some(name) => if same_ignoring_case(&name, ip) {
            None
        } else {
            Some(string_of(&name))
        },
        None => None,
    }
}

/// The name of `ip` in the output of a successful `nslookup`.
pub fn reverse_dns(output: &[u8], ip: &str) -> (res: Option<String>)
    ensures
        match res {
            Some(name) => name_from(text::line_seq(unicode::lossy_text(output@)), ip@, 0) == Some(
                name@,
            ),
            None => name_from(text::line_seq(unicode::lossy_text(output@)), ip@, 0) is None,
        },
        valid_utf8(output@) ==> storage::text_of(res) == name_from(
            text::line_seq(decode_utf8(output@)),
            ip@,
            0,
        ),
{
    let body = from_utf8_lossy(output);
    let chars = chars_of(body.as_str());
    let ip_chars = chars_of(ip);
    let all = lines(&chars);
    let ghost views = text::views(all@);
    let mut i: usize = 0;
    while i < all.len()
        invariant
            i <= all@.len(),
            ip_chars@ == ip@,
            views == text::views(all@),
            views == text::line_seq(unicode::lossy_text(output@)),
            valid_utf8(output@) ==> unicode::lossy_text(output@) == decode_utf8(output@),
            name_from(views, ip@, i as int) == name_from(views, ip@, 0),
        decreases all@.len() - i,
    {
        assert(views[i as int] == all@[i as int]@);
        match read_name(all[i], &ip_chars) {
            Some(name) => {
                return Some(name);
            },
            None => {},
        }
        i = i + 1;
    }
    None
}

/// A name that a lookup found has characters, the last of which is no dot.
pub proof fn law_found_name_is_bare(lines: Seq<Seq<char>>, ip: Seq<char>, i: int)
    requires
        0 <= i,
    ensures
        name_from(lines, ip, i) matches Some(name) ==> name.len() > 0 && name.last() != '.',
    decreases lines.len() - i,
{
    if i < lines.len() {
        let line = lines[i];
        law_found_name_is_bare(lines, ip, i + 1);
        if let Some(k) = text::first_at(line, "name ="@) {
            lemma_no_tail(text::trimmed(line.skip(k + 6)), '.');
        }
        lemma_no_tail(text::trimmed(text::trimmed_start(line).skip(5)), '.');
    }
}

proof fn lemma_no_tail(s: Seq<char>, c: char)
    ensures
        text::without_tail(s, c).len() > 0 ==> text::without_tail(s, c).last() != c,
    decreases s.len(),
{
    if s.len() > 0 && s.last() == c {
        lemma_no_tail(s.drop_last(), c);
    }
}

/// An incomplete entry never reaches the table.
pub proof fn law_no_zero_address(lines: Seq<Seq<char>>, ip: Seq<char>)
    ensures
        arp_entries(lines).contains_key(ip) ==> arp_entries(lines)[ip] != "00:00:00:00:00:00"@,
    decreases lines.len(),
{
    if lines.len() > 0 {
        law_no_zero_address(lines.drop_last(), ip);
    }
}

proof fn lemma_position(parts: Seq<Seq<char>>, word: Seq<char>, i: int, k: int)
    requires
        0 <= i <= k <= parts.len(),
        forall|j: int| i <= j < k ==> (#[trigger] parts[j]) != word,
        k < parts.len() ==> parts[k] == word,
    ensures
        position_of(parts, word, i) == (if k < parts.len() {
            Some(k)
        } else {
            None
        }),
    decreases k - i,
{
    if i < k {
        assert(parts[i] != word);
        lemma_position(parts, word, i + 1, k);
    }
}

/// A line of `ip neigh show` names a neighbour where one of its five or more
/// words is `lladdr`: the neighbour is the first word, and its hardware address
/// the word behind the first `lladdr`.
pub proof fn law_neighbour_line(line: Seq<char>, k: int)
    requires
        0 <= k <= text::word_seq(line).len(),
        forall|j: int| 0 <= j < k ==> (#[trigger] text::word_seq(line)[j]) != "lladdr"@,
        k < text::word_seq(line).len() ==> text::word_seq(line)[k] == "lladdr"@,
    ensures
        ({
            let words = text::word_seq(line);
            neighbour_of(line) == (if words.len() >= 5 && k + 1 < words.len() {
                Some((words[0], words[k + 1]))
            } else {
                None
            })
        }),
{
    lemma_position(text::word_seq(line), "lladdr"@, 0, k);
}

/// A line of `/proc/net/arp` names a neighbour by its first word, and its
/// hardware address by its fourth, unless that is all zero.
pub proof fn law_arp_line(line: Seq<char>)
    ensures
        ({
            let words = text::word_seq(line);
            &&& words.len() < 4 ==> arp_entry_of(line) is None
            &&& words.len() >= 4 && words[3] == "00:00:00:00:00:00"@ ==> arp_entry_of(line) is None
            &&& words.len() >= 4 && words[3] != "00:00:00:00:00:00"@ ==> arp_entry_of(line) == Some(
                (words[0], words[3]),
            )
        }),
{
}

/// Of the lines that name a neighbour the last one counts; one that no line names
/// is not in the table.
pub proof fn law_last_neighbour_counts(lines: Seq<Seq<char>>, ip: Seq<char>, k: int)
    requires
        -1 <= k < lines.len(),
        k >= 0 ==> neighbour_of(lines[k]) is Some && neighbour_of(lines[k])->Some_0.0 == ip,
        forall|j: int|
            k < j < lines.len() ==> !(neighbour_of(#[trigger] lines[j]) is Some && neighbour_of(
                lines[j],
            )->Some_0.0 == ip),
    ensures
        neighbours(lines).contains_key(ip) <==> k >= 0,
        k >= 0 ==> neighbours(lines)[ip] == neighbour_of(lines[k])->Some_0.1,
    decreases lines.len(),
{
    if lines.len() > 0 {
        let front = lines.drop_last();
        if k < front.len() {
            if k >= 0 {
                assert(front[k] == lines[k]);
            }
            assert forall|j: int| k < j < front.len() implies !(neighbour_of(
                #[trigger] front[j],
            ) is Some && neighbour_of(front[j])->Some_0.0 == ip) by {
                assert(front[j] == lines[j]);
            }
            law_last_neighbour_counts(front, ip, k);
            assert(lines[lines.len() - 1] == lines.last());
        }
    }
}

/// Of the lines of the file that name a neighbour the last one counts; one that
/// no line names is not in the table.
pub proof fn law_last_arp_entry_counts(lines: Seq<Seq<char>>, ip: Seq<char>, k: int)
    requires
        -1 <= k < lines.len(),
        k >= 0 ==> arp_entry_of(lines[k]) is Some && arp_entry_of(lines[k])->Some_0.0 == ip,
        forall|j: int|
            k < j < lines.len() ==> !(arp_entry_of(#[trigger] lines[j]) is Some && arp_entry_of(
                lines[j],
            )->Some_0.0 == ip),
    ensures
        arp_entries(lines).contains_key(ip) <==> k >= 0,
        k >= 0 ==> arp_entries(lines)[ip] == arp_entry_of(lines[k])->Some_0.1,
    decreases lines.len(),
{
    if lines.len() > 0 {
        let front = lines.drop_last();
        if k < front.len() {
            if k >= 0 {
                assert(front[k] == lines[k]);
            }
            assert forall|j: int| k < j < front.len() implies !(arp_entry_of(
                #[trigger] front[j],
            ) is Some && arp_entry_of(front[j])->Some_0.0 == ip) by {
                assert(front[j] == lines[j]);
            }
            law_last_arp_entry_counts(front, ip, k);
            assert(lines[lines.len() - 1] == lines.last());
        }
    }
}

/// What the command printed is the table where it names any neighbour; else the
/// file is, without its first line; and without a file there is none.
pub proof fn law_file_stands_in_for_command(
    printed: Seq<char>,
    heading: Seq<char>,
    below: Seq<char>,
    ip: Seq<char>,
)
    requires
        !heading.contains('\n'),
        heading.len() > 0 ==> heading[heading.len() - 1] != '\r',
    ensures
        neighbours(text::line_seq(printed)).contains_key(ip) ==> known_neighbours(
            Some(printed),
            Some(heading + seq!['\n'] + below),
        ) == neighbours(text::line_seq(printed)),
        (forall|any: Seq<char>| !#[trigger] neighbours(text::line_seq(printed)).contains_key(any))
            ==> known_neighbours(Some(printed), Some(heading + seq!['\n'] + below)) == arp_entries(
            text::line_seq(below),
        ),
        known_neighbours(None, Some(heading + seq!['\n'] + below)) == arp_entries(
            text::line_seq(below),
        ),
        known_neighbours(None, None) == Map::<Seq<char>, Seq<char>>::empty(),
{
    text::law_first_line(heading, false, below);
    let lines = text::line_seq(below);
    assert((seq![heading] + lines).drop_first() =~= lines);
    let first = neighbours(text::line_seq(printed));
    if forall|any: Seq<char>| !#[trigger] first.contains_key(any) {
        assert(first =~= Map::<Seq<char>, Seq<char>>::empty());
    }
    if first.contains_key(ip) {
        assert(!Map::<Seq<char>, Seq<char>>::empty().contains_key(ip));
    }
}

/// Whether a text can be told as a name: it has characters, and neither white
/// space nor, at its end, a dot stands around it.
pub open spec fn is_bare(name: Seq<char>) -> bool {
    &&& name.len() > 0
    &&& !text::is_space(name[0])
    &&& !text::is_space(name[name.len() - 1])
    &&& name[name.len() - 1] != '.'
}

proof fn lemma_printed(before: Seq<char>, name: Seq<char>, dots: nat, after: Seq<char>)
    requires
        forall|k: int| 0 <= k < before.len() ==> text::is_space(#[trigger] before[k]),
        forall|k: int| 0 <= k < after.len() ==> text::is_space(#[trigger] after[k]),
        is_bare(name),
    ensures
        printed_name(before + name + Seq::new(dots, |i: int| '.') + after) == name,
{
    let tail = Seq::new(dots, |i: int| '.');
    let s = name + tail;
    assert(before + name + tail + after =~= before + s + after);
    if dots > 0 {
        assert(s[s.len() - 1] == '.');
    } else {
        assert(s =~= name);
    }
    text::law_trim_around(before, s, after);
    text::law_tail_dropped(s, '.');
    let n = text::without_tail(s, '.').len() as int;
    if n < name.len() {
        assert(s[name.len() - 1] == name[name.len() - 1]);
    }
    if n > name.len() {
        assert(s[n - 1] == tail[n - 1 - name.len()]);
    }
    assert(s.take(n) =~= name);
}

/// A line in which `name =` stands tells the name behind the first of them,
/// without the white space around it and the dots at its end.
pub proof fn law_assigned_name(
    front: Seq<char>,
    before: Seq<char>,
    name: Seq<char>,
    dots: nat,
    after: Seq<char>,
    ip: Seq<char>,
)
    requires
        forall|k: int| 0 <= k < before.len() ==> text::is_space(#[trigger] before[k]),
        forall|k: int| 0 <= k < after.len() ==> text::is_space(#[trigger] after[k]),
        is_bare(name),
        ({
            let rest = before + name + Seq::new(dots, |i: int| '.') + after;
            forall|j: int|
                0 <= j < front.len() ==> #[trigger] (front + "name ="@ + rest).subrange(j, j + 6)
                    != "name ="@
        }),
    ensures
        line_name(
            front + "name ="@ + (before + name + Seq::new(dots, |i: int| '.') + after),
            ip,
        ) == Some(name),
{
    let rest = before + name + Seq::new(dots, |i: int| '.') + after;
    reveal_strlit("name =");
    let line = front + "name ="@ + rest;
    text::lemma_found_behind(front, "name ="@, rest);
    assert(line.skip(front.len() as int + 6) =~= rest);
    lemma_printed(before, name, dots, after);
}

/// A line that begins with `Name:` tells the name behind it, unless that is just
/// the address that was looked up.
pub proof fn law_headed_name(
    indent: Seq<char>,
    before: Seq<char>,
    name: Seq<char>,
    dots: nat,
    after: Seq<char>,
    ip: Seq<char>,
)
    requires
        forall|k: int| 0 <= k < indent.len() ==> text::is_space(#[trigger] indent[k]),
        forall|k: int| 0 <= k < before.len() ==> text::is_space(#[trigger] before[k]),
        forall|k: int| 0 <= k < after.len() ==> text::is_space(#[trigger] after[k]),
        is_bare(name),
    ensures
        ({
            let line = indent + "Name:"@ + (before + name + Seq::new(dots, |i: int| '.') + after);
            text::first_at(line, "name ="@) is None ==> line_name(line, ip) == (if numerals::lowered(
                name,
            ) == numerals::lowered(ip) {
                None
            } else {
                Some(name)
            })
        }),
{
    let rest = before + name + Seq::new(dots, |i: int| '.') + after;
    reveal_strlit("Name:");
    let line = indent + "Name:"@ + rest;
    let start = text::trimmed_start(line);
    lemma_indent(indent, "Name:"@ + rest);
    assert(line =~= indent + ("Name:"@ + rest));
    assert(start == "Name:"@ + rest);
    assert(start.subrange(0, 5) =~= "Name:"@);
    assert(start.skip(5) =~= rest);
    lemma_printed(before, name, dots, after);
}

proof fn lemma_indent(indent: Seq<char>, s: Seq<char>)
    requires
        forall|k: int| 0 <= k < indent.len() ==> text::is_space(#[trigger] indent[k]),
        s.len() > 0,
        !text::is_space(s[0]),
    ensures
        text::trimmed_start(indent + s) == s,
    decreases indent.len(),
{
    if indent.len() > 0 {
        let rest = indent.drop_first();
        assert forall|k: int| 0 <= k < rest.len() implies text::is_space(#[trigger] rest[k]) by {
            assert(rest[k] == indent[k + 1]);
        }
        lemma_indent(rest, s);
        assert(text::is_space(indent[0]));
        assert((indent + s)[0] == indent[0]);
        assert((indent + s).drop_first() =~= rest + s);
    } else {
        assert(indent + s =~= s);
    }
}

/// A line with neither of the two words tells no name.
pub proof fn law_other_lines_tell_no_name(line: Seq<char>, ip: Seq<char>)
    requires
        text::first_at(line, "name ="@) is None,
        !text::begins_with(text::trimmed_start(line), "Name:"@),
    ensures
        line_name(line, ip) is None,
{
}

/// The first line that tells a name decides.
pub proof fn law_first_name_decides(lines: Seq<Seq<char>>, ip: Seq<char>, i: int, k: int)
    requires
        0 <= i <= k <= lines.len(),
        forall|j: int| i <= j < k ==> line_name(#[trigger] lines[j], ip) is None,
        k < lines.len() ==> line_name(lines[k], ip) is Some,
    ensures
        name_from(lines, ip, i) == (if k < lines.len() {
            line_name(lines[k], ip)
        } else {
            None
        }),
    decreases k - i,
{
    if i < k {
        assert(line_name(lines[i], ip) is None);
        law_first_name_decides(lines, ip, i + 1, k);
    }
}

}
