//! The simple service discovery protocol: the search that a scan sends out,
//! and what the replies tell of a device.

use crate::http::Misaligned;
use crate::numerals;
use crate::numerals::{is_hex_digit, to_lower};
use crate::storage;
use crate::storage::copy_text;
use crate::text;
use crate::text::{
    chars_of, find, is_whitespace, lines, split_on, stands_at, string_of, trim,
};
use crate::unicode;
use crate::unicode::{from_utf8_lossy, to_lowercase};
use vstd::prelude::*;
use vstd::slice::slice_subrange;
use vstd::string::*;
use vstd::utf8::*;

verus! {

/// The message that asks every device on the network to report.
pub fn search_message() -> (res: String)
    ensures
        res@
            == "M-SEARCH * HTTP/1.1\r\nHOST: 239.255.255.250:1900\r\nMAN: \"ssdp:discover\"\r\nMX: 1\r\nST: ssdp:all\r\n\r\n"@,
{
    "M-SEARCH * HTTP/1.1\r\nHOST: 239.255.255.250:1900\r\nMAN: \"ssdp:discover\"\r\nMX: 1\r\nST: ssdp:all\r\n\r\n".to_string()
}

/// The first white space in `s` from `i` on, or its end.
pub open spec fn space_from(s: Seq<char>, i: int) -> int
    decreases s.len() - i,
{
    if i >= s.len() || text::is_space(s[i]) {
        i
    } else {
        space_from(s, i + 1)
    }
}

/// Where an identifier ends: before a double colon or white space, whichever
/// comes first.
pub open spec fn uuid_end(s: Seq<char>) -> int {
    match text::first_at(s, "::"@) {
        Some(k) => if k < space_from(s, 0) {
            k
        } else {
            space_from(s, 0)
        },
        None => space_from(s, 0),
    }
}

/// Whether every character of `s` is a hexadecimal digit.
pub open spec fn all_hex(s: Seq<char>) -> bool {
    forall|i: int| 0 <= i < s.len() ==> numerals::is_hex(#[trigger] s[i])
}

/// Twelve digits in pairs with colons between.
pub open spec fn colon_pairs(d: Seq<char>) -> Seq<char> {
    seq![
        d[0],
        d[1],
        ':',
        d[2],
        d[3],
        ':',
        d[4],
        d[5],
        ':',
        d[6],
        d[7],
        ':',
        d[8],
        d[9],
        ':',
        d[10],
        d[11],
    ]
}

/// The hardware address in an identifier, `rest` being what follows the word
/// that announces it: its last part, where that is twelve hexadecimal digits.
pub open spec fn uuid_mac(rest: Seq<char>) -> Option<Seq<char>> {
    let last = text::pieces(rest.take(uuid_end(rest)), '-').last();
    if last.len() == 12 && all_hex(last) {
        Some(numerals::lowered(colon_pairs(last)))
    } else {
        None
    }
}

/// The place behind the word `uuid:`, looked for in the line in lower case.
pub open spec fn uuid_start(lower: Seq<char>) -> Option<int> {
    match text::first_at(encode_utf8(lower), encode_utf8("uuid:"@)) {
        Some(k) => Some(k + 5),
        None => None,
    }
}

/// Whether the place found in the line in lower case lies between two
/// characters of the line itself.
pub open spec fn uuid_aligned(line: Seq<char>, lower: Seq<char>) -> bool {
    match uuid_start(lower) {
        Some(start) => is_char_boundary(encode_utf8(line), start),
        None => true,
    }
}

/// What stands in a text from the given byte on.
pub open spec fn text_from(s: Seq<char>, at: int) -> Seq<char> {
    decode_utf8(encode_utf8(s).skip(at))
}

/// The hardware address in a line, given the line in lower case too.
pub open spec fn line_mac(line: Seq<char>, lower: Seq<char>) -> Option<Seq<char>> {
    match uuid_start(lower) {
        Some(start) => uuid_mac(text_from(line, start)),
        None => None,
    }
}

/// Reads the text from a byte on.
fn read_from(s: &str, at: usize) -> (res: Vec<char>)
    requires
        is_char_boundary(encode_utf8(s@), at as int),
    ensures
        res@ == text_from(s@, at as int),
{
    let tail = s.split_at(at).1;
    proof {
        encode_utf8_valid_utf8(s@);
        unicode::lemma_boundary_within(encode_utf8(s@), at as int);
        assert(encode_utf8(s@).subrange(at as int, encode_utf8(s@).len() as int) =~= encode_utf8(
            s@,
        ).skip(at as int));
        encode_utf8_decode_utf8(tail@);
    }
    chars_of(tail)
}

fn find_uuid_end(s: &[char]) -> (res: usize)
    ensures
        res == uuid_end(s@),
        res <= s@.len(),
{
    let mut i: usize = 0;
    while i < s.len() && !is_whitespace(s[i])
        invariant
            i <= s@.len(),
            space_from(s@, i as int) == space_from(s@, 0),
        decreases s@.len() - i,
    {
        i = i + 1;
    }
    match find(s, &chars_of("::")) {
        Some(k) => if k < i {
            k
        } else {
            i
        },
        None => i,
    }
}

fn is_all_hex(s: &[char]) -> (res: bool)
    ensures
        res == all_hex(s@),
{
    let mut i: usize = 0;
    while i < s.len()
        invariant
            i <= s@.len(),
            forall|j: int| 0 <= j < i ==> numerals::is_hex(#[trigger] s@[j]),
        decreases s@.len() - i,
    {
        if !is_hex_digit(s[i]) {
            return false;
        }
        i = i + 1;
    }
    true
}

/// Writes twelve digits as a hardware address.
fn write_mac(d: &[char]) -> (res: String)
    requires
        d@.len() == 12,
    ensures
        res@ == numerals::lowered(colon_pairs(d@)),
{
    let mut out: Vec<char> = Vec::new();
    let mut i: usize = 0;
    while i < 6
        invariant
            i <= 6,
            d@.len() == 12,
            out@.len() == (if i == 0 {
                0
            } else {
                3 * i - 1
            }),
            forall|j: int|
                0 <= j < out@.len() ==> #[trigger] out@[j] == numerals::lowered(colon_pairs(d@))[j],
        decreases 6 - i,
    {
        if i > 0 {
            out.push(':');
        }
        out.push(to_lower(d[2 * i]));
        out.push(to_lower(d[2 * i + 1]));
        i = i + 1;
    }
    assert(out@ =~= numerals::lowered(colon_pairs(d@)));
    string_of(&out)
}

fn read_uuid(rest: &[char]) -> (res: Option<String>)
    ensures
        match res {
            Some(mac) => uuid_mac(rest@) == Some(mac@),
            None => uuid_mac(rest@) is None,
        },
{
    let end = find_uuid_end(rest);
    let uuid = slice_subrange(rest, 0, end);
    assert(uuid@ =~= rest@.take(end as int));
    let parts = split_on(uuid, '-');
    let last = parts[parts.len() - 1];
    assert(text::views(parts@).last() == last@);
    if last.len() == 12 && is_all_hex(last) {
        Some(write_mac(last))
    } else {
        None
    }
}

/// Finds the hardware address in a line, given the line in lower case too.
pub fn mac_in_line(line: &str, lower: &str) -> (res: Option<String>)
    requires
        uuid_aligned(line@, lower@),
    ensures
        match res {
            Some(mac) => line_mac(line@, lower@) == Some(mac@),
            None => line_mac(line@, lower@) is None,
        },
{
    proof {
        reveal_strlit("uuid:");
        is_ascii_chars_encode_utf8("uuid:"@);
    }
    let bytes = lower.as_bytes();
    let n = bytes.len();
    match find(bytes, "uuid:".as_bytes()) {
        Some(k) => read_uuid(&read_from(line, k + 5)),
        None => None,
    }
}

fn is_uuid_aligned(line: &str, lower: &str) -> (res: bool)
    ensures
        res == uuid_aligned(line@, lower@),
{
    proof {
        reveal_strlit("uuid:");
        is_ascii_chars_encode_utf8("uuid:"@);
    }
    let bytes = lower.as_bytes();
    let n = bytes.len();
    match find(bytes, "uuid:".as_bytes()) {
        Some(k) => line.is_char_boundary(k + 5),
        None => true,
    }
}

/// Pulls the hardware address out of an identifier such as
/// `uuid:xxxxxxxx-xxxx-xxxx-xxxx-AABBCCDDEEFF`.
pub fn extract_mac_from_uuid(line: &str) -> (res: Result<Option<String>, Misaligned>)
    ensures
        match res {
            Ok(Some(mac)) => uuid_aligned(line@, unicode::lower_text(line@)) && line_mac(
                line@,
                unicode::lower_text(line@),
            ) == Some(mac@),
            Ok(None) => uuid_aligned(line@, unicode::lower_text(line@)) && line_mac(
                line@,
                unicode::lower_text(line@),
            ) is None,
            Err(_) => !uuid_aligned(line@, unicode::lower_text(line@)),
        },
        is_ascii_chars(line@) ==> (res matches Ok(found) && storage::text_of(found) == line_mac(
            line@,
            numerals::lowered(line@),
        )),
{
    let lower = to_lowercase(line);
    proof {
        if is_ascii_chars(line@) {
            lemma_ascii_uuid_is_aligned(line@);
        }
    }
    if is_uuid_aligned(line, lower.as_str()) {
        Ok(mac_in_line(line, lower.as_str()))
    } else {
        Err(Misaligned)
    }
}

/// What a device told of itself: the software it runs and its address.
#[verifier::ext_equal]
pub struct FactsModel {
    pub server: Option<Seq<char>>,
    pub mac: Option<Seq<char>>,
}

/// What a device told of itself.
#[derive(Clone, Debug, Default)]
pub struct Facts {
    pub server: Option<String>,
    pub mac: Option<String>,
}

impl View for Facts {
    type V = FactsModel;

    open spec fn view(&self) -> FactsModel {
        FactsModel { server: storage::text_of(self.server), mac: storage::text_of(self.mac) }
    }
}

/// Nothing known yet.
pub open spec fn no_facts() -> FactsModel {
    FactsModel { server: None, mac: None }
}

/// Whether a line may tell the software: nothing told it before.
pub open spec fn tells_server(known: FactsModel, lower: Seq<char>) -> bool {
    known.server is None && text::begins_with(lower, "server:"@)
}

/// Whether a line may tell the address: nothing told it before.
pub open spec fn tells_mac(known: FactsModel, lower: Seq<char>) -> bool {
    known.mac is None && (text::begins_with(lower, "usn:"@) || text::begins_with(lower, "nt:"@))
}

/// Whether a line can be cut where it has to be.
pub open spec fn line_aligned(known: FactsModel, line: Seq<char>, lower: Seq<char>) -> bool {
    &&& tells_server(known, lower) ==> is_char_boundary(encode_utf8(line), 7)
    &&& tells_mac(known, lower) ==> uuid_aligned(line, lower)
}

/// What is known after one more line.
pub open spec fn with_line(known: FactsModel, line: Seq<char>, lower: Seq<char>) -> FactsModel {
    FactsModel {
        server: if tells_server(known, lower) && text::trimmed(text_from(line, 7)).len() > 0 {
            Some(text::trimmed(text_from(line, 7)))
        } else {
            known.server
        },
        mac: if tells_mac(known, lower) {
            line_mac(line, lower)
        } else {
            known.mac
        },
    }
}

/// What the lines of a reply tell, given each in lower case too: nothing where
/// one of them cannot be cut.
pub open spec fn told_by(lines: Seq<Seq<char>>, lowers: Seq<Seq<char>>) -> Option<FactsModel>
    decreases lines.len(),
{
    if lines.len() == 0 {
        Some(no_facts())
    } else {
        match told_by(lines.drop_last(), lowers.drop_last()) {
            Some(known) => if line_aligned(known, lines.last(), lowers.last()) {
                Some(with_line(known, lines.last(), lowers.last()))
            } else {
                None
            },
            None => None,
        }
    }
}

fn begins(s: &str, pat: &str) -> (res: bool)
    ensures
        res == text::begins_with(s@, pat@),
{
    stands_at(&chars_of(s), &chars_of(pat), 0)
}

/// Takes in one line of a reply, given the line in lower case too.
pub fn note_line(known: Facts, line: &str, lower: &str) -> (res: Facts)
    requires
        line_aligned(known@, line@, lower@),
    ensures
        res@ == with_line(known@, line@, lower@),
{
    let mut server = copy_text(&known.server);
    let mut mac = copy_text(&known.mac);
    if known.server.is_none() && begins(lower, "server:") {
        let tail = read_from(line, 7);
        let value = trim(&tail);
        if value.len() > 0 {
            server = Some(string_of(value));
        }
    }
    if known.mac.is_none() && (begins(lower, "usn:") || begins(lower, "nt:")) {
        mac = mac_in_line(line, lower);
    }
    Facts { server, mac }
}

fn is_line_aligned(known: &Facts, line: &str, lower: &str) -> (res: bool)
    ensures
        res == line_aligned(known@, line@, lower@),
{
    if known.server.is_none() && begins(lower, "server:") && !line.is_char_boundary(7) {
        return false;
    }
    if known.mac.is_none() && (begins(lower, "usn:") || begins(lower, "nt:")) {
        return is_uuid_aligned(line, lower);
    }
    true
}

/// Each text in lower case.
pub open spec fn lower_texts(lines: Seq<Seq<char>>) -> Seq<Seq<char>> {
    lines.map_values(|l: Seq<char>| unicode::lower_text(l))
}

/// Each text with its ASCII letters in lower case.
pub open spec fn lowered_texts(lines: Seq<Seq<char>>) -> Seq<Seq<char>> {
    lines.map_values(|l: Seq<char>| numerals::lowered(l))
}

/// Reads the reply of a device.
pub fn read_reply(packet: &[u8]) -> (res: Result<Facts, Misaligned>)
    ensures
        ({
            let all = text::line_seq(unicode::lossy_text(packet@));
            match res {
                Ok(facts) => told_by(all, lower_texts(all)) == Some(facts@),
                Err(_) => told_by(all, lower_texts(all)) is None,
            }
        }),
        valid_utf8(packet@) && is_ascii_chars(decode_utf8(packet@)) ==> ({
            let all = text::line_seq(decode_utf8(packet@));
            res matches Ok(facts) && told_by(all, lowered_texts(all)) == Some(facts@)
        }),
{
    let body = from_utf8_lossy(packet);
    let chars = chars_of(body.as_str());
    let parts = lines(&chars);
    let ghost all = text::views(parts@);
    let ghost ascii = is_ascii_chars(body@);
    proof {
        if ascii {
            text::lemma_lines_ascii(body@);
        }
    }
    let mut known = Facts { server: None, mac: None };
    let mut i: usize = 0;
    assert(all.take(0).len() == 0);
    assert(known@ =~= no_facts());
    while i < parts.len()
        invariant
            i <= parts@.len(),
            all == text::views(parts@),
            all == text::line_seq(unicode::lossy_text(packet@)),
            valid_utf8(packet@) && is_ascii_chars(decode_utf8(packet@)) ==> ascii,
            told_by(all.take(i as int), lower_texts(all).take(i as int)) == Some(known@),
            ascii ==> forall|j: int| 0 <= j < all.len() ==> is_ascii_chars(#[trigger] all[j]),
            ascii ==> told_by(all.take(i as int), lowered_texts(all).take(i as int)) == Some(
                known@,
            ),
        decreases parts@.len() - i,
    {
        let line = string_of(parts[i]);
        let lower = to_lowercase(line.as_str());
        proof {
            assert(all[i as int] == line@);
            lemma_one_more(all, lower_texts(all), i as int);
            lemma_one_more(all, lowered_texts(all), i as int);
            if ascii {
                lemma_ascii_line_is_aligned(known@, line@);
            }
        }
        if !is_line_aligned(&known, line.as_str(), lower.as_str()) {
            proof {
                lemma_stuck(all, lower_texts(all), i + 1);
            }
            return Err(Misaligned);
        }
        known = note_line(known, line.as_str(), lower.as_str());
        i = i + 1;
    }
    proof {
        assert(all.take(i as int) =~= all);
        assert(lower_texts(all).take(i as int) =~= lower_texts(all));
        assert(lowered_texts(all).take(i as int) =~= lowered_texts(all));
    }
    Ok(known)
}

proof fn lemma_one_more(lines: Seq<Seq<char>>, lowers: Seq<Seq<char>>, i: int)
    requires
        0 <= i < lines.len(),
        lines.len() == lowers.len(),
    ensures
        told_by(lines.take(i + 1), lowers.take(i + 1)) == match told_by(
            lines.take(i),
            lowers.take(i),
        ) {
            Some(known) => if line_aligned(known, lines[i], lowers[i]) {
                Some(with_line(known, lines[i], lowers[i]))
            } else {
                None
            },
            None => None,
        },
{
    assert(lines.take(i + 1).drop_last() =~= lines.take(i));
    assert(lowers.take(i + 1).drop_last() =~= lowers.take(i));
}

/// A reply that cannot be read up to some line cannot be read at all.
proof fn lemma_stuck(lines: Seq<Seq<char>>, lowers: Seq<Seq<char>>, i: int)
    requires
        0 <= i <= lines.len(),
        lines.len() == lowers.len(),
        told_by(lines.take(i), lowers.take(i)) is None,
    ensures
        told_by(lines, lowers) is None,
    decreases lines.len() - i,
{
    if i == lines.len() {
        assert(lines.take(i) =~= lines);
        assert(lowers.take(i) =~= lowers);
    } else {
        lemma_one_more(lines, lowers, i);
        lemma_stuck(lines, lowers, i + 1);
    }
}

/// An identifier can be cut out of a line in ASCII.
proof fn lemma_ascii_uuid_is_aligned(line: Seq<char>)
    requires
        is_ascii_chars(line),
    ensures
        uuid_aligned(line, numerals::lowered(line)),
{
    let lower = numerals::lowered(line);
    assert forall|i: int| 0 <= i < lower.len() implies '\0' <= #[trigger] lower[i] <= '\u{7f}' by {
        assert('\0' <= line[i] <= '\u{7f}');
    }
    reveal_strlit("uuid:");
    is_ascii_chars_encode_utf8("uuid:"@);
    unicode::lemma_ascii_boundaries(line);
    unicode::lemma_ascii_boundaries(lower);
    text::lemma_first_from(encode_utf8(lower), encode_utf8("uuid:"@), 0);
}

/// A line in ASCII can always be cut.
proof fn lemma_ascii_line_is_aligned(known: FactsModel, line: Seq<char>)
    requires
        is_ascii_chars(line),
    ensures
        line_aligned(known, line, numerals::lowered(line)),
{
    reveal_strlit("server:");
    lemma_ascii_uuid_is_aligned(line);
    unicode::lemma_ascii_boundaries(line);
}

/// What is known of each address that replied, in the order of first replies.
pub open spec fn place_of(heard: Seq<(Seq<char>, FactsModel)>, ip: Seq<char>) -> Option<int>
    decreases heard.len(),
{
    if heard.len() == 0 {
        None
    } else {
        match place_of(heard.drop_last(), ip) {
            Some(i) => Some(i),
            None => if heard.last().0 == ip {
                Some(heard.len() - 1)
            } else {
                None
            },
        }
    }
}

/// Facts filled up with later ones: what was told first stays.
pub open spec fn filled(known: FactsModel, more: FactsModel) -> FactsModel {
    FactsModel {
        server: if known.server is None {
            more.server
        } else {
            known.server
        },
        mac: if known.mac is None {
            more.mac
        } else {
            known.mac
        },
    }
}

/// What is known after one more reply.
pub open spec fn with_reply(
    heard: Seq<(Seq<char>, FactsModel)>,
    ip: Seq<char>,
    facts: FactsModel,
) -> Seq<(Seq<char>, FactsModel)> {
    match place_of(heard, ip) {
        Some(i) => heard.update(i, (ip, filled(heard[i].1, facts))),
        None => heard.push((ip, facts)),
    }
}

/// The replies to one search.
pub struct Replies {
    pub heard: Vec<(String, Facts)>,
}

impl View for Replies {
    type V = Seq<(Seq<char>, FactsModel)>;

    open spec fn view(&self) -> Seq<(Seq<char>, FactsModel)> {
        self.heard@.map_values(|e: (String, Facts)| (e.0@, e.1@))
    }
}

/// A place found is the first with that address.
pub proof fn lemma_place_of(heard: Seq<(Seq<char>, FactsModel)>, ip: Seq<char>)
    ensures
        match place_of(heard, ip) {
            Some(i) => 0 <= i < heard.len() && heard[i].0 == ip && forall|j: int|
                0 <= j < i ==> (#[trigger] heard[j]).0 != ip,
            None => forall|j: int| 0 <= j < heard.len() ==> (#[trigger] heard[j]).0 != ip,
        },
    decreases heard.len(),
{
    if heard.len() > 0 {
        lemma_place_of(heard.drop_last(), ip);
        assert forall|j: int| 0 <= j < heard.len() - 1 implies heard.drop_last()[j]
            == #[trigger] heard[j] by {}
    }
}

/// The one place at which an address stands is the one that is found.
proof fn lemma_place_unique(heard: Seq<(Seq<char>, FactsModel)>, ip: Seq<char>, i: int)
    requires
        0 <= i < heard.len(),
        heard[i].0 == ip,
        forall|j: int| 0 <= j < i ==> (#[trigger] heard[j]).0 != ip,
    ensures
        place_of(heard, ip) == Some(i),
{
    lemma_place_of(heard, ip);
    match place_of(heard, ip) {
        Some(k) => {
            assert(heard[k].0 == ip);
            if k < i {
                assert(heard[k].0 != ip);
            }
            if i < k {
                assert(heard[i].0 != ip);
            }
        },
        None => {
            assert(heard[i].0 != ip);
        },
    }
}

impl Replies {
    /// No replies yet.
    pub fn new() -> (res: Self)
        ensures
            res@ == Seq::<(Seq<char>, FactsModel)>::empty(),
    {
        let res = Replies { heard: Vec::new() };
        assert(res@ =~= Seq::<(Seq<char>, FactsModel)>::empty());
        res
    }

    fn find(&self, ip: &String) -> (res: Option<usize>)
        ensures
            match res {
                Some(i) => place_of(self@, ip@) == Some(i as int) && i < self.heard@.len(),
                None => place_of(self@, ip@) is None,
            },
    {
        let mut i: usize = 0;
        while i < self.heard.len()
            invariant
                i <= self.heard@.len(),
                forall|j: int| 0 <= j < i ==> (#[trigger] self@[j]).0 != ip@,
            decreases self.heard@.len() - i,
        {
            assert(self@[i as int].0 == self.heard@[i as int].0@);
            if self.heard[i].0 == *ip {
                proof {
                    lemma_place_unique(self@, ip@, i as int);
                }
                return Some(i);
            }
            i = i + 1;
        }
        proof {
            lemma_place_of(self@, ip@);
        }
        None
    }

    /// Takes in what the reply of `ip` told.
    pub fn note(&mut self, ip: String, facts: Facts)
        ensures
            final(self)@ == with_reply(old(self)@, ip@, facts@),
    {
        let ghost before = self@;
        match self.find(&ip) {
            Some(i) => {
                assert(before[i as int].1 == self.heard@[i as int].1@);
                let server = if self.heard[i].1.server.is_none() {
                    facts.server
                } else {
                    copy_text(&self.heard[i].1.server)
                };
                let mac = if self.heard[i].1.mac.is_none() {
                    facts.mac
                } else {
                    copy_text(&self.heard[i].1.mac)
                };
                self.heard[i] = (ip, Facts { server, mac });
                assert(self@ =~= with_reply(before, ip@, facts@));
            },
            None => {
                self.heard.push((ip, facts));
                assert(self@ =~= with_reply(before, ip@, facts@));
            },
        }
    }

    /// Takes in the packet that `ip` replied with.
    pub fn note_packet(&mut self, ip: String, packet: &[u8]) -> (res: Result<(), Misaligned>)
        ensures
            ({
                let all = text::line_seq(unicode::lossy_text(packet@));
                match told_by(all, lower_texts(all)) {
                    Some(facts) => res is Ok && final(self)@ == with_reply(old(self)@, ip@, facts),
                    None => res is Err && final(self)@ == old(self)@,
                }
            }),
            valid_utf8(packet@) && is_ascii_chars(decode_utf8(packet@)) ==> ({
                let all = text::line_seq(decode_utf8(packet@));
                &&& res is Ok
                &&& told_by(all, lowered_texts(all)) matches Some(facts) && final(self)@
                    == with_reply(old(self)@, ip@, facts)
            }),
    {
        match read_reply(packet) {
            Ok(facts) => {
                self.note(ip, facts);
                Ok(())
            },
            Err(_) => Err(Misaligned),
        }
    }
}

/// No address stands twice among the replies.
pub open spec fn heard_once(heard: Seq<(Seq<char>, FactsModel)>) -> bool {
    forall|i: int, j: int|
        0 <= i < j < heard.len() ==> (#[trigger] heard[i]).0 != (#[trigger] heard[j]).0
}

/// However often a device replies, it is listed once.
pub proof fn law_replies_stay_distinct(
    heard: Seq<(Seq<char>, FactsModel)>,
    ip: Seq<char>,
    facts: FactsModel,
)
    requires
        heard_once(heard),
    ensures
        heard_once(with_reply(heard, ip, facts)),
{
    lemma_place_of(heard, ip);
}

/// What a device told first is not overwritten by what it tells later, and
/// what other devices told is left alone.
pub proof fn law_first_reply_stays(
    heard: Seq<(Seq<char>, FactsModel)>,
    ip: Seq<char>,
    facts: FactsModel,
    i: int,
)
    requires
        heard_once(heard),
        0 <= i < heard.len(),
    ensures
        with_reply(heard, ip, facts).len() >= heard.len(),
        ({
            let before = heard[i];
            let after = with_reply(heard, ip, facts)[i];
            &&& after.0 == before.0
            &&& before.0 != ip ==> after == before
            &&& before.1.server is Some ==> after.1.server == before.1.server
            &&& before.1.mac is Some ==> after.1.mac == before.1.mac
        }),
{
    lemma_place_of(heard, ip);
}

/// An address out of an identifier is six pairs of digits in lower case with
/// colons between.
pub proof fn law_uuid_mac_shape(rest: Seq<char>)
    ensures
        uuid_mac(rest) matches Some(mac) ==> mac.len() == 17 && forall|i: int|
            0 <= i < 17 ==> if i % 3 == 2 {
                #[trigger] mac[i] == ':'
            } else {
                '0' <= mac[i] <= '9' || 'a' <= mac[i] <= 'f'
            },
{
    let last = text::pieces(rest.take(uuid_end(rest)), '-').last();
    if last.len() == 12 && all_hex(last) {
        assert(numerals::is_hex(last[0]) && numerals::is_hex(last[1]) && numerals::is_hex(last[2])
            && numerals::is_hex(last[3]) && numerals::is_hex(last[4]) && numerals::is_hex(last[5])
            && numerals::is_hex(last[6]) && numerals::is_hex(last[7]) && numerals::is_hex(last[8])
            && numerals::is_hex(last[9]) && numerals::is_hex(last[10]) && numerals::is_hex(
            last[11],
        ));
    }
}

/// What follows an identifier, if anything does: a double colon, or white space.
pub open spec fn ends_identifier(tail: Seq<char>) -> bool {
    ||| tail.len() == 0
    ||| text::is_space(tail[0])
    ||| tail.len() >= 2 && tail[0] == ':' && tail[1] == ':'
}

proof fn lemma_space_from(s: Seq<char>, i: int, n: int)
    requires
        0 <= i <= n <= s.len(),
        forall|k: int| i <= k < n ==> !text::is_space(#[trigger] s[k]),
    ensures
        space_from(s, i) == space_from(s, n),
        n == s.len() || text::is_space(s[n]) ==> space_from(s, i) == n,
        space_from(s, i) >= n,
    decreases s.len() - i,
{
    if i < n {
        assert(!text::is_space(s[i]));
        lemma_space_from(s, i + 1, n);
    } else if n < s.len() && !text::is_space(s[n]) {
        lemma_space_from(s, n + 1, n + 1);
    }
}

proof fn lemma_uuid_end(id: Seq<char>, tail: Seq<char>)
    requires
        forall|k: int| 0 <= k < id.len() ==> !text::is_space(#[trigger] id[k]) && id[k] != ':',
        ends_identifier(tail),
    ensures
        uuid_end(id + tail) == id.len(),
{
    let s = id + tail;
    let n = id.len() as int;
    reveal_strlit("::");
    let pat = "::"@;
    assert forall|k: int| 0 <= k < n implies !text::is_space(#[trigger] s[k]) by {
        assert(s[k] == id[k]);
    }
    lemma_space_from(s, 0, n);
    text::lemma_first_from(s, pat, 0);
    match text::first_at(s, pat) {
        Some(k) => {
            assert(s.subrange(k, k + 2)[0] == ':');
            if k < n {
                assert(s[k] == id[k]);
            }
            if tail.len() > 0 && !text::is_space(tail[0]) {
                assert(s.subrange(n, n + 2) =~= pat);
                assert(text::occurs_at(s, pat, n));
            }
        },
        None => {
            if tail.len() > 0 && !text::is_space(tail[0]) {
                assert(s.subrange(n, n + 2) =~= pat);
                assert(text::occurs_at(s, pat, n));
            }
        },
    }
}

/// The address in an identifier is the twelve digits that stand last in it,
/// behind a dash where anything is before them: all of them and in order, in
/// lower case, with a colon behind each second one but the last.
pub proof fn law_uuid_mac_digits(front: Seq<char>, digits: Seq<char>, tail: Seq<char>)
    requires
        front.len() > 0 ==> front[front.len() - 1] == '-',
        forall|k: int|
            0 <= k < front.len() ==> !text::is_space(#[trigger] front[k]) && front[k] != ':',
        digits.len() == 12,
        forall|k: int|
            0 <= k < 12 ==> '0' <= #[trigger] digits[k] <= '9' || 'a' <= digits[k] <= 'f' || 'A'
                <= digits[k] <= 'F',
        ends_identifier(tail),
    ensures
        uuid_mac(front + digits + tail) matches Some(mac) && {
            &&& mac.len() == 17
            &&& forall|i: int|
                0 <= i < 12 ==> #[trigger] mac[i + i / 2] as int == (if 'A' <= digits[i] <= 'F' {
                    digits[i] as int + 32
                } else {
                    digits[i] as int
                })
            &&& mac[2] == ':' && mac[5] == ':' && mac[8] == ':' && mac[11] == ':' && mac[14] == ':'
        },
{
    let id = front + digits;
    let rest = front + digits + tail;
    assert forall|k: int| 0 <= k < id.len() implies !text::is_space(#[trigger] id[k]) && id[k]
        != ':' by {
        if k < front.len() {
            assert(id[k] == front[k]);
        } else {
            assert(id[k] == digits[k - front.len()]);
        }
    }
    lemma_uuid_end(id, tail);
    assert(rest =~= id + tail);
    assert(rest.take(id.len() as int) =~= id);
    assert forall|k: int| 0 <= k < digits.len() implies #[trigger] digits[k] != '-' by {}
    text::lemma_one_piece(digits, '-');
    if front.len() > 0 {
        let head = front.drop_last();
        assert(id =~= head + seq!['-'] + digits);
        text::lemma_pieces_across(head, digits, '-');
        assert((text::pieces(head, '-') + seq![digits]).last() == digits);
    } else {
        assert(id =~= digits);
        assert(seq![digits].last() == digits);
    }
    assert(text::pieces(id, '-').last() == digits);
    assert(all_hex(digits));
    let mac = numerals::lowered(colon_pairs(digits));
    assert(uuid_mac(rest) == Some(mac));
    assert forall|i: int| 0 <= i < 12 implies #[trigger] mac[i + i / 2] as int == (if 'A'
        <= digits[i] <= 'F' {
        digits[i] as int + 32
    } else {
        digits[i] as int
    }) by {
        assert(i == 0 || i == 1 || i == 2 || i == 3 || i == 4 || i == 5 || i == 6 || i == 7 || i
            == 8 || i == 9 || i == 10 || i == 11);
        assert(mac[i + i / 2] == numerals::lower_char(digits[i]));
        assert('0' <= digits[i] <= '9' || 'a' <= digits[i] <= 'f' || 'A' <= digits[i] <= 'F');
    }
}

/// An identifier whose last part is anything but twelve hexadecimal digits
/// gives no address.
pub proof fn law_other_identifiers_give_none(front: Seq<char>, last: Seq<char>, tail: Seq<char>)
    requires
        front.len() > 0 ==> front[front.len() - 1] == '-',
        forall|k: int|
            0 <= k < front.len() ==> !text::is_space(#[trigger] front[k]) && front[k] != ':',
        forall|k: int|
            0 <= k < last.len() ==> !text::is_space(#[trigger] last[k]) && last[k] != ':' && last[k]
                != '-',
        last.len() != 12 || exists|k: int|
            0 <= k < last.len() && !('0' <= #[trigger] last[k] <= '9' || 'a' <= last[k] <= 'f'
                || 'A' <= last[k] <= 'F'),
        ends_identifier(tail),
    ensures
        uuid_mac(front + last + tail) is None,
{
    let id = front + last;
    let rest = front + last + tail;
    assert forall|k: int| 0 <= k < id.len() implies !text::is_space(#[trigger] id[k]) && id[k]
        != ':' by {
        if k < front.len() {
            assert(id[k] == front[k]);
        } else {
            assert(id[k] == last[k - front.len()]);
        }
    }
    lemma_uuid_end(id, tail);
    assert(rest =~= id + tail);
    assert(rest.take(id.len() as int) =~= id);
    text::lemma_one_piece(last, '-');
    if front.len() > 0 {
        let head = front.drop_last();
        assert(id =~= head + seq!['-'] + last);
        text::lemma_pieces_across(head, last, '-');
        assert((text::pieces(head, '-') + seq![last]).last() == last);
    } else {
        assert(id =~= last);
        assert(seq![last].last() == last);
    }
    assert(text::pieces(id, '-').last() == last);
    if last.len() == 12 {
        let k = choose|k: int|
            0 <= k < last.len() && !('0' <= #[trigger] last[k] <= '9' || 'a' <= last[k] <= 'f'
                || 'A' <= last[k] <= 'F');
        assert(!numerals::is_hex(last[k]));
    }
}

/// In a line of ASCII the identifier is what follows the first `uuid:`, in
/// whatever case that is written; a line without it gives no address.
pub proof fn law_identifier_follows_its_word(line: Seq<char>, k: int)
    requires
        is_ascii_chars(line),
        0 <= k <= line.len(),
        k + 5 <= line.len() ==> numerals::lowered(line).subrange(k, k + 5) == seq![
            'u',
            'u',
            'i',
            'd',
            ':',
        ],
        forall|j: int|
            0 <= j < k && j + 5 <= line.len() ==> #[trigger] numerals::lowered(line).subrange(
                j,
                j + 5,
            ) != seq!['u', 'u', 'i', 'd', ':'],
    ensures
        line_mac(line, numerals::lowered(line)) == (if k + 5 <= line.len() {
            uuid_mac(line.skip(k + 5))
        } else {
            None
        }),
{
    let lower = numerals::lowered(line);
    assert forall|i: int| 0 <= i < lower.len() implies '\0' <= #[trigger] lower[i] <= '\u{7f}' by {
        assert('\0' <= line[i] <= '\u{7f}');
    }
    reveal_strlit("uuid:");
    let pat = "uuid:"@;
    assert(pat =~= seq!['u', 'u', 'i', 'd', ':']);
    unicode::lemma_ascii_same_places(lower, pat, 0);
    text::lemma_first_from(lower, pat, 0);
    match text::first_at(lower, pat) {
        Some(found) => {
            if k + 5 <= line.len() && k < found {
                assert(!text::occurs_at(lower, pat, k));
            }
            if found < k {
                assert(lower.subrange(found, found + 5) == pat);
            }
            if k + 5 > line.len() {
                assert(found < k);
            }
            unicode::lemma_ascii_same_places(line, pat, k + 5);
        },
        None => {
            if k + 5 <= line.len() {
                assert(text::occurs_at(lower, pat, k));
            }
        },
    }
}

/// Whether a line of ASCII tells the software of a device: it begins with
/// `server:`, in whatever case, and something else follows.
pub open spec fn is_server_line(line: Seq<char>) -> bool {
    &&& line.len() >= 7
    &&& numerals::lowered(line).take(7) == seq!['s', 'e', 'r', 'v', 'e', 'r', ':']
    &&& text::trimmed(line.skip(7)).len() > 0
}

/// Whether a line of ASCII is one that announces a device: it begins with
/// `usn:` or `nt:`, in whatever case.
pub open spec fn is_device_line(line: Seq<char>) -> bool {
    ||| line.len() >= 4 && numerals::lowered(line).take(4) == seq!['u', 's', 'n', ':']
    ||| line.len() >= 3 && numerals::lowered(line).take(3) == seq!['n', 't', ':']
}

proof fn lemma_line_kinds(line: Seq<char>)
    requires
        is_ascii_chars(line),
    ensures
        ({
            let lower = numerals::lowered(line);
            &&& (text::begins_with(lower, "server:"@) && text::trimmed(text_from(line, 7)).len()
                > 0) <==> is_server_line(line)
            &&& text::begins_with(lower, "server:"@) ==> text_from(line, 7) == line.skip(7)
            &&& (text::begins_with(lower, "usn:"@) || text::begins_with(lower, "nt:"@))
                <==> is_device_line(line)
        }),
{
    let lower = numerals::lowered(line);
    reveal_strlit("server:");
    reveal_strlit("usn:");
    reveal_strlit("nt:");
    assert("server:"@ =~= seq!['s', 'e', 'r', 'v', 'e', 'r', ':']);
    assert("usn:"@ =~= seq!['u', 's', 'n', ':']);
    assert("nt:"@ =~= seq!['n', 't', ':']);
    if lower.len() >= 7 {
        assert(lower.subrange(0, 7) =~= lower.take(7));
        unicode::lemma_ascii_same_places(line, "nt:"@, 7);
    }
    if lower.len() >= 4 {
        assert(lower.subrange(0, 4) =~= lower.take(4));
    }
    if lower.len() >= 3 {
        assert(lower.subrange(0, 3) =~= lower.take(3));
    }
}

/// What a reply in ASCII tells. The software is in its first line that tells
/// any, without the word before it and the white space around it. The address
/// is that of its first line that announces a device and gives one.
pub proof fn law_reply_tells_first(lines: Seq<Seq<char>>, i: int, j: int)
    requires
        forall|k: int| 0 <= k < lines.len() ==> is_ascii_chars(#[trigger] lines[k]),
        0 <= i <= lines.len(),
        i < lines.len() ==> is_server_line(lines[i]),
        forall|k: int| 0 <= k < i ==> !is_server_line(#[trigger] lines[k]),
        0 <= j <= lines.len(),
        j < lines.len() ==> is_device_line(lines[j]) && line_mac(
            lines[j],
            numerals::lowered(lines[j]),
        ) is Some,
        forall|k: int|
            0 <= k < j ==> !(is_device_line(#[trigger] lines[k]) && line_mac(
                lines[k],
                numerals::lowered(lines[k]),
            ) is Some),
    ensures
        told_by(lines, lowered_texts(lines)) matches Some(facts) && {
            &&& facts.server == (if i < lines.len() {
                Some(text::trimmed(lines[i].skip(7)))
            } else {
                None
            })
            &&& facts.mac == (if j < lines.len() {
                line_mac(lines[j], numerals::lowered(lines[j]))
            } else {
                None
            })
        },
    decreases lines.len(),
{
    if lines.len() > 0 {
        let front = lines.drop_last();
        let line = lines.last();
        let n = front.len() as int;
        assert(line == lines[n]);
        let fi = if i < n {
            i
        } else {
            n
        };
        let fj = if j < n {
            j
        } else {
            n
        };
        assert forall|k: int| 0 <= k < front.len() implies is_ascii_chars(#[trigger] front[k]) by {
            assert(front[k] == lines[k]);
        }
        assert forall|k: int| 0 <= k < fi implies !is_server_line(#[trigger] front[k]) by {
            assert(front[k] == lines[k]);
        }
        assert forall|k: int| 0 <= k < fj implies !(is_device_line(#[trigger] front[k])
            && line_mac(front[k], numerals::lowered(front[k])) is Some) by {
            assert(front[k] == lines[k]);
        }
        if i < n {
            assert(front[i] == lines[i]);
        }
        if j < n {
            assert(front[j] == lines[j]);
        }
        law_reply_tells_first(front, fi, fj);
        assert(lowered_texts(lines).drop_last() =~= lowered_texts(front));
        assert(lowered_texts(lines).last() == numerals::lowered(line));
        let known = told_by(front, lowered_texts(front))->0;
        assert(is_ascii_chars(line));
        lemma_ascii_line_is_aligned(known, line);
        lemma_line_kinds(line);
        if i > n {
            assert(!is_server_line(lines[n]));
        }
        if j > n {
            assert(!(is_device_line(lines[n]) && line_mac(
                lines[n],
                numerals::lowered(lines[n]),
            ) is Some));
        }
    }
}

/// What a reply tells of a device that had not told it is kept; a device that
/// had not replied comes last in the list, with all that it told.
pub proof fn law_reply_fills_up(
    heard: Seq<(Seq<char>, FactsModel)>,
    ip: Seq<char>,
    facts: FactsModel,
    i: int,
)
    requires
        heard_once(heard),
        0 <= i < heard.len(),
    ensures
        heard[i].0 == ip ==> {
            let after = with_reply(heard, ip, facts)[i].1;
            &&& with_reply(heard, ip, facts).len() == heard.len()
            &&& heard[i].1.server is None ==> after.server == facts.server
            &&& heard[i].1.mac is None ==> after.mac == facts.mac
        },
        (forall|k: int| 0 <= k < heard.len() ==> (#[trigger] heard[k]).0 != ip) ==> with_reply(
            heard,
            ip,
            facts,
        ) == heard + seq![(ip, facts)],
{
    lemma_place_of(heard, ip);
    assert(heard.push((ip, facts)) =~= heard + seq![(ip, facts)]);
}

}
