//! Multicast DNS: the queries that a scan sends, and the answers that it reads.

use crate::text;
use crate::text::{chars_of, push_all, split_on, string_of, trim_tail, trim_tails};
use vstd::hash_map::StringHashMap;
use vstd::prelude::*;
use vstd::utf8::*;

verus! {

/// How many compression pointers a name may follow.
pub const MAX_HOPS: u8 = 16;

/// The record type of a pointer to a name.
pub const TYPE_PTR: u16 = 12;

/// The bytes of `buf` from `from` up to `to`, each taken as a character.
pub open spec fn label_text(buf: Seq<u8>, from: int, to: int) -> Seq<char> {
    buf.subrange(from, to).map_values(|b: u8| b as char)
}

/// The labels of the name that starts at `offset`, following at most `hops`
/// compression pointers; nothing where the name runs out of the packet or
/// follows too many.
pub open spec fn name_labels(buf: Seq<u8>, offset: int, hops: nat) -> Option<Seq<Seq<char>>>
    decreases hops, buf.len() - offset,
{
    if !(0 <= offset < buf.len()) {
        None
    } else if buf[offset] == 0 {
        Some(Seq::<Seq<char>>::empty())
    } else if buf[offset] >= 0xc0 {
        if offset + 1 >= buf.len() || hops == 0 {
            None
        } else {
            name_labels(buf, (buf[offset] - 0xc0) * 256 + buf[offset + 1], (hops - 1) as nat)
        }
    } else {
        let next = offset + 1 + buf[offset];
        if next > buf.len() {
            None
        } else {
            match name_labels(buf, next, hops) {
                Some(rest) => Some(seq![label_text(buf, offset + 1, next)] + rest),
                None => None,
            }
        }
    }
}

/// Where the bytes of the name that starts at `offset` end: after its closing
/// zero, or after the first compression pointer.
pub open spec fn name_end(buf: Seq<u8>, offset: int) -> int
    decreases buf.len() - offset,
{
    if !(0 <= offset < buf.len()) {
        offset
    } else if buf[offset] == 0 {
        offset + 1
    } else if buf[offset] >= 0xc0 {
        offset + 2
    } else {
        let next = offset + 1 + buf[offset];
        if next > buf.len() {
            next
        } else {
            name_end(buf, next)
        }
    }
}

/// The name that starts at `offset`, its labels joined by dots, and where its
/// bytes end.
pub open spec fn name_at(buf: Seq<u8>, offset: int) -> Option<(Seq<char>, int)> {
    match name_labels(buf, offset, MAX_HOPS as nat) {
        Some(labels) => Some((text::joined(labels, seq!['.']), name_end(buf, offset))),
        None => None,
    }
}

/// A name that was read ends inside the packet, behind where it starts.
pub proof fn lemma_name_end(buf: Seq<u8>, offset: int, hops: nat)
    requires
        name_labels(buf, offset, hops) is Some,
    ensures
        offset < name_end(buf, offset) <= buf.len(),
    decreases buf.len() - offset,
{
    if buf[offset] != 0 && buf[offset] < 0xc0 {
        lemma_name_end(buf, offset + 1 + buf[offset], hops);
    }
}

proof fn lemma_joined_push(labels: Seq<Seq<char>>, label: Seq<char>, name: Seq<char>)
    requires
        name == text::joined(labels, seq!['.']),
        forall|i: int| 0 <= i < labels.len() ==> (#[trigger] labels[i]).len() > 0,
    ensures
        (name.len() == 0) == (labels.len() == 0),
        text::joined(labels.push(label), seq!['.']) == (if name.len() == 0 {
            label
        } else {
            name + seq!['.'] + label
        }),
{
    let more = labels.push(label);
    assert(more.drop_last() =~= labels);
    assert(more.last() == label);
    if labels.len() == 0 {
        assert(more[0] == label);
    } else if labels.len() == 1 {
        assert(labels[0].len() > 0);
    } else {
        assert(labels[labels.len() - 1].len() > 0);
        assert(labels.last().len() > 0);
    }
}

/// Reads the name that starts at `start`, and where its bytes end.
pub fn parse_dns_name(buf: &[u8], start: usize) -> (res: Option<(String, usize)>)
    ensures
        match res {
            Some((name, next)) => name_at(buf@, start as int) == Some((name@, next as int)),
            None => name_at(buf@, start as int) is None,
        },
{
    let mut name: Vec<char> = Vec::new();
    let mut offset: usize = start;
    let mut after: Option<usize> = None;
    let mut hops: u8 = MAX_HOPS;
    let ghost mut labels: Seq<Seq<char>> = Seq::empty();
    let ghost whole = name_labels(buf@, start as int, MAX_HOPS as nat);
    proof {
        match whole {
            Some(rest) => assert(labels + rest =~= rest),
            None => {},
        }
    }
    loop
        invariant
            whole == name_labels(buf@, start as int, MAX_HOPS as nat),
            hops <= MAX_HOPS,
            name@ == text::joined(labels, seq!['.']),
            forall|i: int| 0 <= i < labels.len() ==> (#[trigger] labels[i]).len() > 0,
            match name_labels(buf@, offset as int, hops as nat) {
                Some(rest) => whole == Some(labels + rest),
                None => whole is None,
            },
            match after {
                Some(a) => a == name_end(buf@, start as int),
                None => name_end(buf@, offset as int) == name_end(buf@, start as int),
            },
        decreases hops, buf@.len() - offset,
    {
        let n = buf.len();
        if offset >= n {
            return None;
        }
        let len = buf[offset];
        if len == 0 {
            assert(labels + Seq::<Seq<char>>::empty() =~= labels);
            let next: usize = match after {
                Some(a) => a,
                None => offset + 1,
            };
            return Some((string_of(&name), next));
        }
        if len >= 0xc0 {
            if offset + 1 >= n || hops == 0 {
                return None;
            }
            let ptr: usize = (len - 0xc0) as usize * 256 + buf[offset + 1] as usize;
            if after.is_none() {
                after = Some(offset + 2);
            }
            offset = ptr;
            hops = hops - 1;
            continue ;
        }
        let from: usize = offset + 1;
        if n - from < len as usize {
            return None;
        }
        let to: usize = from + len as usize;
        let ghost label = label_text(buf@, from as int, to as int);
        let ghost name0 = name@;
        proof {
            lemma_joined_push(labels, label, name@);
        }
        if name.len() > 0 {
            name.push('.');
        }
        let ghost name1 = name@;
        let mut i: usize = from;
        assert(name1 + label_text(buf@, from as int, from as int) =~= name1);
        while i < to
            invariant
                from <= i <= to <= buf@.len(),
                name@ == name1 + label_text(buf@, from as int, i as int),
            decreases to - i,
        {
            name.push(buf[i] as char);
            assert(label_text(buf@, from as int, i + 1) =~= label_text(
                buf@,
                from as int,
                i as int,
            ).push(buf@[i as int] as char));
            i = i + 1;
        }
        proof {
            match name_labels(buf@, to as int, hops as nat) {
                Some(rest) => assert(labels + (seq![label] + rest) =~= labels.push(label) + rest),
                None => {},
            }
            if name0.len() == 0 {
                assert(name@ =~= label);
            } else {
                assert(name@ =~= name0 + seq!['.'] + label);
            }
            labels = labels.push(label);
        }
        offset = to;
    }
}

/// The big-endian number in the two bytes at `i`.
pub open spec fn be16(buf: Seq<u8>, i: int) -> int {
    buf[i] * 256 + buf[i + 1]
}

/// Reads the big-endian number in the two bytes at `i`.
pub fn read_be16(buf: &[u8], i: usize) -> (res: u16)
    requires
        i + 1 < buf@.len(),
    ensures
        res == be16(buf@, i as int),
{
    buf[i] as u16 * 256 + buf[i + 1] as u16
}

/// Where `count` questions that start at `offset` end.
pub open spec fn after_questions(buf: Seq<u8>, offset: int, count: nat) -> Option<int>
    decreases count,
{
    if count == 0 {
        Some(offset)
    } else {
        match name_at(buf, offset) {
            Some((_, next)) => if next + 4 > buf.len() {
                None
            } else {
                after_questions(buf, next + 4, (count - 1) as nat)
            },
            None => None,
        }
    }
}

/// The name in the first pointer record among the `count` records that start
/// at `offset`; nothing where a record before it is cut short.
pub open spec fn first_ptr(buf: Seq<u8>, offset: int, count: nat) -> Option<Seq<char>>
    decreases count,
{
    if count == 0 {
        None
    } else {
        match name_at(buf, offset) {
            Some((_, next)) => {
                let data = next + 10;
                let end = data + be16(buf, next + 8);
                if data > buf.len() || end > buf.len() {
                    None
                } else if be16(buf, next) == TYPE_PTR {
                    match name_at(buf, data) {
                        Some((name, _)) => Some(name),
                        None => None,
                    }
                } else {
                    first_ptr(buf, end, (count - 1) as nat)
                }
            },
            None => None,
        }
    }
}

/// The name in the first pointer record of a DNS response.
pub open spec fn ptr_answer(buf: Seq<u8>) -> Option<Seq<char>> {
    if buf.len() < 12 || be16(buf, 6) == 0 {
        None
    } else {
        match after_questions(buf, 12, be16(buf, 4) as nat) {
            Some(offset) => first_ptr(buf, offset, be16(buf, 6) as nat),
            None => None,
        }
    }
}

/// Reads the name in the first pointer record of a DNS response.
pub fn parse_first_ptr_answer(buf: &[u8]) -> (res: Option<String>)
    ensures
        match res {
            Some(name) => ptr_answer(buf@) == Some(name@),
            None => ptr_answer(buf@) is None,
        },
{
    let n = buf.len();
    if n < 12 {
        return None;
    }
    let questions = read_be16(buf, 4);
    let answers = read_be16(buf, 6);
    if answers == 0 {
        return None;
    }
    let mut offset: usize = 12;
    let mut left: u16 = questions;
    while left > 0
        invariant
            12 <= n == buf@.len(),
            questions == be16(buf@, 4),
            answers == be16(buf@, 6),
            answers > 0,
            after_questions(buf@, offset as int, left as nat) == after_questions(
                buf@,
                12,
                questions as nat,
            ),
        decreases left,
    {
        match parse_dns_name(buf, offset) {
            Some((_, next)) => {
                proof {
                    lemma_name_end(buf@, offset as int, MAX_HOPS as nat);
                }
                if n - next < 4 {
                    return None;
                }
                offset = next + 4;
            },
            None => {
                return None;
            },
        }
        left = left - 1;
    }
    let mut left: u16 = answers;
    while left > 0
        invariant
            n == buf@.len(),
            first_ptr(buf@, offset as int, left as nat) == ptr_answer(buf@),
        decreases left,
    {
        match parse_dns_name(buf, offset) {
            Some((_, next)) => {
                proof {
                    lemma_name_end(buf@, offset as int, MAX_HOPS as nat);
                }
                if n - next < 10 {
                    return None;
                }
                let rtype = read_be16(buf, next);
                let rdlen = read_be16(buf, next + 8);
                let data: usize = next + 10;
                if n - data < rdlen as usize {
                    return None;
                }
                if rtype == TYPE_PTR {
                    return match parse_dns_name(buf, data) {
                        Some((name, _)) => Some(name),
                        None => None,
                    };
                }
                offset = data + rdlen as usize;
            },
            None => {
                return None;
            },
        }
        left = left - 1;
    }
    None
}

/// The bytes of a label with its length in front; a label that is too long is
/// left out.
pub open spec fn label_bytes(label: Seq<char>) -> Seq<u8> {
    let bytes = encode_utf8(label);
    if bytes.len() > 63 {
        Seq::<u8>::empty()
    } else {
        seq![bytes.len() as u8] + bytes
    }
}

/// The bytes of the labels, one after another.
pub open spec fn labels_bytes(labels: Seq<Seq<char>>) -> Seq<u8>
    decreases labels.len(),
{
    if labels.len() == 0 {
        Seq::<u8>::empty()
    } else {
        labels_bytes(labels.drop_last()) + label_bytes(labels.last())
    }
}

/// A DNS query with one question: the pointer record of the name that the
/// labels spell.
pub open spec fn ptr_question(id: int, labels: Seq<Seq<char>>) -> Seq<u8> {
    seq![((id / 256) % 256) as u8, (id % 256) as u8, 0, 0, 0, 1, 0, 0, 0, 0, 0, 0] + labels_bytes(
        labels,
    ) + seq![0, 0, 12, 0, 1]
}

/// The labels under which the address `ip` is looked up.
pub open spec fn reverse_labels(ip: Seq<char>) -> Option<Seq<Seq<char>>> {
    let p = text::pieces(ip, '.');
    if p.len() == 4 {
        Some(seq![p[3], p[2], p[1], p[0], "in-addr"@, "arpa"@])
    } else {
        None
    }
}

fn push_label(out: &mut Vec<u8>, label: &str)
    ensures
        final(out)@ == old(out)@ + label_bytes(label@),
{
    let bytes = label.as_bytes();
    if bytes.len() > 63 {
        assert(out@ + label_bytes(label@) =~= out@);
        return ;
    }
    let ghost before = out@;
    out.push(bytes.len() as u8);
    push_all(out, bytes);
    assert(out@ =~= before + label_bytes(label@));
}

fn question(id: usize, labels: &Vec<String>) -> (res: Vec<u8>)
    ensures
        res@ == ptr_question(id as int, labels@.map_values(|l: String| l@)),
{
    let ghost all = labels@.map_values(|l: String| l@);
    let mut out: Vec<u8> = Vec::new();
    out.push(((id / 256) % 256) as u8);
    out.push((id % 256) as u8);
    push_all(&mut out, &[0, 0, 0, 1, 0, 0, 0, 0, 0, 0]);
    let ghost head = out@;
    assert(head =~= seq![
        ((id / 256) % 256) as u8,
        (id % 256) as u8,
        0,
        0,
        0,
        1,
        0,
        0,
        0,
        0,
        0,
        0,
    ]);
    let mut i: usize = 0;
    assert(all.take(0).len() == 0);
    assert(head + labels_bytes(all.take(0)) =~= head);
    while i < labels.len()
        invariant
            i <= labels@.len(),
            all == labels@.map_values(|l: String| l@),
            out@ == head + labels_bytes(all.take(i as int)),
        decreases labels@.len() - i,
    {
        push_label(&mut out, labels[i].as_str());
        proof {
            assert(all.take(i + 1).drop_last() =~= all.take(i as int));
            assert(all.take(i + 1).last() == labels@[i as int]@);
            assert(head + labels_bytes(all.take(i + 1)) =~= head + labels_bytes(
                all.take(i as int),
            ) + label_bytes(labels@[i as int]@));
        }
        i = i + 1;
    }
    assert(all.take(i as int) =~= all);
    push_all(&mut out, &[0, 0, 12, 0, 1]);
    assert(out@ =~= ptr_question(id as int, all));
    out
}

/// The query for every service that speaks multicast DNS:
/// `_services._dns-sd._udp.local`.
pub fn mdns_query() -> (res: Vec<u8>)
    ensures
        res@ == ptr_question(0, seq!["_services"@, "_dns-sd"@, "_udp"@, "local"@]),
{
    let mut labels: Vec<String> = Vec::new();
    labels.push("_services".to_string());
    labels.push("_dns-sd".to_string());
    labels.push("_udp".to_string());
    labels.push("local".to_string());
    assert(labels@.map_values(|l: String| l@) =~= seq![
        "_services"@,
        "_dns-sd"@,
        "_udp"@,
        "local"@,
    ]);
    question(0, &labels)
}

/// The query for the name of the address `ip`, the `idx`-th that a scan asks.
pub fn ptr_query(idx: usize, ip: &str) -> (res: Option<Vec<u8>>)
    ensures
        match res {
            Some(query) => reverse_labels(ip@) matches Some(labels) && query@ == ptr_question(
                idx as int,
                labels,
            ),
            None => reverse_labels(ip@) is None,
        },
{
    let chars = chars_of(ip);
    let octets = split_on(&chars, '.');
    let ghost p = text::pieces(ip@, '.');
    assert(text::views(octets@) == p);
    if octets.len() != 4 {
        return None;
    }
    assert(p[0] == octets@[0]@ && p[1] == octets@[1]@ && p[2] == octets@[2]@ && p[3]
        == octets@[3]@);
    let mut labels: Vec<String> = Vec::new();
    labels.push(string_of(octets[3]));
    labels.push(string_of(octets[2]));
    labels.push(string_of(octets[1]));
    labels.push(string_of(octets[0]));
    labels.push("in-addr".to_string());
    labels.push("arpa".to_string());
    assert(labels@.map_values(|l: String| l@) =~= seq![
        p[3],
        p[2],
        p[1],
        p[0],
        "in-addr"@,
        "arpa"@,
    ]);
    Some(question(idx, &labels))
}

/// A host name as a device gave it, without the dots and `.local` at its end.
pub open spec fn bare_name(raw: Seq<char>) -> Seq<char> {
    text::without_tail(
        text::without_tails(text::without_tail(raw, '.'), ".local"@),
        '.',
    )
}

/// Cleans a host name that a device gave; nothing where nothing is left.
pub fn clean_ptr_name(raw: &str) -> (res: Option<String>)
    ensures
        match res {
            Some(name) => name@ == bare_name(raw@) && name@.len() > 0,
            None => bare_name(raw@).len() == 0,
        },
{
    let chars = chars_of(raw);
    let local = chars_of(".local");
    let cleaned = trim_tail(trim_tails(trim_tail(&chars, '.'), &local), '.');
    if cleaned.len() == 0 {
        None
    } else {
        Some(string_of(cleaned))
    }
}

/// The host names that devices answered, by address.
pub struct NameTable {
    names: StringHashMap<String>,
}

impl View for NameTable {
    type V = Map<Seq<char>, Seq<char>>;

    closed spec fn view(&self) -> Map<Seq<char>, Seq<char>> {
        self.names@.map_values(|n: String| n@)
    }
}

/// The name that a response brings, cleaned, if it brings any.
pub open spec fn answered_name(packet: Seq<u8>) -> Option<Seq<char>> {
    match ptr_answer(packet) {
        Some(raw) => if bare_name(raw).len() > 0 {
            Some(bare_name(raw))
        } else {
            None
        },
        None => None,
    }
}

impl NameTable {
    /// A table without names.
    pub fn new() -> (res: Self)
        ensures
            res@ == Map::<Seq<char>, Seq<char>>::empty(),
    {
        let res = NameTable { names: StringHashMap::new() };
        assert(res@ =~= Map::<Seq<char>, Seq<char>>::empty());
        res
    }

    /// The name of `ip`, if one is known.
    pub fn get(&self, ip: &str) -> (res: Option<String>)
        ensures
            match res {
                Some(name) => self@.contains_key(ip@) && name@ == self@[ip@],
                None => !self@.contains_key(ip@),
            },
    {
        match self.names.get(ip) {
            Some(name) => Some(name.clone()),
            None => None,
        }
    }

    /// Takes in a response from `ip`. The first name that an address answers
    /// stays.
    pub fn note_reply(&mut self, ip: String, packet: &[u8])
        ensures
            final(self)@ == (match answered_name(packet@) {
                Some(name) => if old(self)@.contains_key(ip@) {
                    old(self)@
                } else {
                    old(self)@.insert(ip@, name)
                },
                None => old(self)@,
            }),
    {
        if self.names.contains_key(ip.as_str()) {
            return ;
        }
        match parse_first_ptr_answer(packet) {
            Some(raw) => {
                match clean_ptr_name(raw.as_str()) {
                    Some(name) => {
                        let ghost key = ip@;
                        let ghost before = self@;
                        let ghost value = name@;
                        self.names.insert(ip, name);
                        assert(self@ =~= before.insert(key, value));
                    },
                    None => {},
                }
            },
            None => {},
        }
    }
}

/// Whether a label can stand in a name as it is: ASCII text of 1 to 63
/// characters.
pub open spec fn plain_label(label: Seq<char>) -> bool {
    0 < label.len() <= 63 && is_ascii_chars(label)
}

proof fn lemma_labels_bytes_front(labels: Seq<Seq<char>>)
    requires
        labels.len() > 0,
    ensures
        labels_bytes(labels) == label_bytes(labels[0]) + labels_bytes(labels.drop_first()),
    decreases labels.len(),
{
    if labels.len() == 1 {
        reveal_with_fuel(labels_bytes, 2);
        assert(labels.drop_last().len() == 0);
        assert(labels.drop_first().len() == 0);
        assert(labels.last() == labels[0]);
        assert(labels_bytes(labels) =~= label_bytes(labels[0]) + labels_bytes(labels.drop_first()));
    } else {
        lemma_labels_bytes_front(labels.drop_last());
        assert(labels.drop_last().drop_first() =~= labels.drop_first().drop_last());
        assert(labels.drop_first().last() == labels.last());
        assert(labels.drop_last()[0] == labels[0]);
        assert(labels_bytes(labels) =~= label_bytes(labels[0]) + labels_bytes(labels.drop_first()));
    }
}

proof fn lemma_labels_read_back(buf: Seq<u8>, offset: int, labels: Seq<Seq<char>>, hops: nat)
    requires
        0 <= offset,
        offset + labels_bytes(labels).len() < buf.len(),
        buf.subrange(offset, offset + labels_bytes(labels).len()) == labels_bytes(labels),
        buf[offset + labels_bytes(labels).len()] == 0,
        forall|i: int| 0 <= i < labels.len() ==> plain_label(#[trigger] labels[i]),
    ensures
        name_labels(buf, offset, hops) == Some(labels),
        name_end(buf, offset) == offset + labels_bytes(labels).len() + 1,
    decreases labels.len(),
{
    let all = labels_bytes(labels);
    if labels.len() == 0 {
        assert(labels =~= Seq::<Seq<char>>::empty());
    } else {
        let label = labels[0];
        let rest = labels.drop_first();
        let bytes = encode_utf8(label);
        lemma_labels_bytes_front(labels);
        is_ascii_chars_encode_utf8(label);
        assert(plain_label(label));
        assert(label_bytes(label) == seq![bytes.len() as u8] + bytes);
        let sub = buf.subrange(offset, offset + all.len());
        assert(sub[0] == bytes.len() as u8);
        assert(buf[offset] == bytes.len());
        let next = offset + 1 + bytes.len();
        assert forall|i: int| 0 <= i < bytes.len() implies buf[offset + 1 + i] as char
            == label[i] by {
            assert(sub[1 + i] == bytes[i]);
            assert(label[i] as u8 == bytes[i]);
        }
        assert(label_text(buf, offset + 1, next) =~= label);
        assert(buf.subrange(next, next + labels_bytes(rest).len()) =~= labels_bytes(rest)) by {
            assert forall|i: int| 0 <= i < labels_bytes(rest).len() implies buf[next + i]
                == labels_bytes(rest)[i] by {
                assert(sub[1 + bytes.len() + i] == labels_bytes(rest)[i]);
            }
        }
        assert forall|i: int| 0 <= i < rest.len() implies plain_label(#[trigger] rest[i]) by {
            assert(rest[i] == labels[i + 1]);
        }
        lemma_labels_read_back(buf, next, rest, hops);
        assert(seq![label] + rest =~= labels);
    }
}

/// What a query asks is what a reader of the query finds: the name behind the
/// header of a pointer query is its labels joined by dots.
pub proof fn law_question_reads_back(id: int, labels: Seq<Seq<char>>)
    requires
        forall|i: int| 0 <= i < labels.len() ==> plain_label(#[trigger] labels[i]),
    ensures
        name_at(ptr_question(id, labels), 12) == Some(
            (text::joined(labels, seq!['.']), (12 + labels_bytes(labels).len() + 1) as int),
        ),
        ptr_question(id, labels).len() == 12 + labels_bytes(labels).len() + 5,
{
    let buf = ptr_question(id, labels);
    let n: int = labels_bytes(labels).len() as int;
    assert(buf.subrange(12, 12 + n) =~= labels_bytes(labels));
    assert(buf[12 + n] == 0);
    lemma_labels_read_back(buf, 12, labels, MAX_HOPS as nat);
}

/// A name ends inside the packet, behind where it starts, so that a reader
/// that goes on from there always moves forward.
pub proof fn law_name_moves_forward(buf: Seq<u8>, offset: int)
    ensures
        name_at(buf, offset) matches Some((_, next)) ==> offset < next <= buf.len(),
{
    if name_labels(buf, offset, MAX_HOPS as nat) is Some {
        lemma_name_end(buf, offset, MAX_HOPS as nat);
    }
}

/// A compression pointer that leads to itself is no name.
pub proof fn law_pointer_loop_is_no_name(buf: Seq<u8>, offset: int)
    requires
        0 <= offset,
        offset + 1 < buf.len(),
        buf[offset] >= 0xc0,
        (buf[offset] - 0xc0) * 256 + buf[offset + 1] == offset,
    ensures
        name_at(buf, offset) is None,
{
    lemma_pointer_loop(buf, offset, MAX_HOPS as nat);
}

proof fn lemma_pointer_loop(buf: Seq<u8>, offset: int, hops: nat)
    requires
        0 <= offset,
        offset + 1 < buf.len(),
        buf[offset] >= 0xc0,
        (buf[offset] - 0xc0) * 256 + buf[offset + 1] == offset,
    ensures
        name_labels(buf, offset, hops) is None,
    decreases hops,
{
    if hops > 0 {
        lemma_pointer_loop(buf, offset, (hops - 1) as nat);
    }
}

/// Whether a label can stand in a message: it has 1 to 63 bytes.
pub open spec fn byte_label(label: Seq<u8>) -> bool {
    0 < label.len() <= 63
}

/// The labels as text, each byte one character.
pub open spec fn label_texts(labels: Seq<Seq<u8>>) -> Seq<Seq<char>> {
    labels.map_values(|l: Seq<u8>| l.map_values(|b: u8| b as char))
}

/// A name as it stands in a message: every label behind its length, and a zero
/// at the end.
pub open spec fn wire_name(labels: Seq<Seq<u8>>) -> Seq<u8>
    decreases labels.len(),
{
    if labels.len() == 0 {
        seq![0u8]
    } else {
        seq![labels[0].len() as u8] + labels[0] + wire_name(
            labels.drop_first(),
        )
    }
}

/// A number of sixteen bits as it stands in a message.
pub open spec fn wire16(n: u16) -> Seq<u8> {
    seq![(n / 256) as u8, (n % 256) as u8]
}

/// A question: a name, a type and a class.
pub struct QuestionModel {
    pub name: Seq<Seq<u8>>,
    pub kind: u16,
    pub class: u16,
}

/// A record of an answer: whose it is, its type and class, how many seconds it
/// holds in two halves, and its data.
pub struct AnswerModel {
    pub owner: Seq<Seq<u8>>,
    pub kind: u16,
    pub class: u16,
    pub ttl_high: u16,
    pub ttl_low: u16,
    pub data: Seq<u8>,
}

/// The questions of a message, one after another.
pub open spec fn wire_questions(questions: Seq<QuestionModel>) -> Seq<u8>
    decreases questions.len(),
{
    if questions.len() == 0 {
        Seq::<u8>::empty()
    } else {
        wire_name(questions[0].name) + wire16(questions[0].kind) + wire16(questions[0].class)
            + wire_questions(questions.drop_first())
    }
}

/// What stands in a message before the data of a record.
pub open spec fn wire_head(a: AnswerModel) -> Seq<u8> {
    wire_name(a.owner) + wire16(a.kind) + wire16(a.class) + wire16(a.ttl_high) + wire16(a.ttl_low)
        + wire16(a.data.len() as u16)
}

/// The records of a message, one after another.
pub open spec fn wire_answers(answers: Seq<AnswerModel>) -> Seq<u8>
    decreases answers.len(),
{
    if answers.len() == 0 {
        Seq::<u8>::empty()
    } else {
        wire_head(answers[0]) + answers[0].data + wire_answers(answers.drop_first())
    }
}

/// A DNS message with these questions and answers, whatever its identifier and
/// its flags, and whatever follows the answers.
pub open spec fn message(
    id: u16,
    flags: u16,
    questions: Seq<QuestionModel>,
    answers: Seq<AnswerModel>,
    authorities: u16,
    additional: u16,
    rest: Seq<u8>,
) -> Seq<u8> {
    wire16(id) + wire16(flags) + wire16(questions.len() as u16) + wire16(answers.len() as u16)
        + wire16(authorities) + wire16(additional) + wire_questions(questions) + wire_answers(
        answers,
    ) + rest
}

/// Whether every label of a name can stand in a message.
pub open spec fn byte_labels(labels: Seq<Seq<u8>>) -> bool {
    forall|i: int| 0 <= i < labels.len() ==> byte_label(#[trigger] labels[i])
}

/// Whether a message can be made of these questions and answers.
pub open spec fn sendable(questions: Seq<QuestionModel>, answers: Seq<AnswerModel>) -> bool {
    &&& questions.len() <= 65535
    &&& answers.len() <= 65535
    &&& forall|i: int| 0 <= i < questions.len() ==> byte_labels((#[trigger] questions[i]).name)
    &&& forall|i: int|
        0 <= i < answers.len() ==> byte_labels((#[trigger] answers[i]).owner)
            && answers[i].data.len() <= 65535
}

/// Whether `part` stands in `buf` at `offset`.
spec fn stands(buf: Seq<u8>, offset: int, part: Seq<u8>) -> bool {
    &&& 0 <= offset
    &&& offset + part.len() <= buf.len()
    &&& buf.subrange(offset, offset + part.len()) == part
}

proof fn lemma_stands_split(buf: Seq<u8>, offset: int, a: Seq<u8>, b: Seq<u8>)
    requires
        stands(buf, offset, a + b),
    ensures
        stands(buf, offset, a),
        stands(buf, offset + a.len(), b),
{
    let all = buf.subrange(offset, offset + a.len() + b.len());
    assert(all == a + b);
    assert(buf.subrange(offset, offset + a.len()) =~= all.subrange(0, a.len() as int));
    assert((a + b).subrange(0, a.len() as int) =~= a);
    assert(buf.subrange(offset + a.len(), offset + a.len() + b.len()) =~= all.subrange(
        a.len() as int,
        (a.len() + b.len()) as int,
    ));
    assert((a + b).subrange(a.len() as int, (a.len() + b.len()) as int) =~= b);
}

proof fn lemma_wire16_read(buf: Seq<u8>, offset: int, n: u16)
    requires
        stands(buf, offset, wire16(n)),
    ensures
        be16(buf, offset) == n,
{
    let part = buf.subrange(offset, offset + 2);
    assert(part[0] == n / 256 && part[1] == n % 256);
    assert(buf[offset] == part[0] && buf[offset + 1] == part[1]);
}

/// One label and what follows it.
proof fn lemma_label_read(buf: Seq<u8>, offset: int, label: Seq<u8>, after: Seq<u8>, hops: nat)
    requires
        byte_label(label),
        stands(buf, offset, seq![label.len() as u8] + label + after),
    ensures
        stands(buf, offset + 1 + label.len(), after),
        offset + 1 + label.len() <= buf.len(),
        name_labels(buf, offset, hops) == (match name_labels(
            buf,
            offset + 1 + label.len(),
            hops,
        ) {
            Some(rest) => Some(seq![label.map_values(|b: u8| b as char)] + rest),
            None => None,
        }),
        name_end(buf, offset) == name_end(buf, offset + 1 + label.len()),
{
    let len = seq![label.len() as u8];
    lemma_stands_split(buf, offset, len + label, after);
    lemma_stands_split(buf, offset, len, label);
    assert(buf.subrange(offset, offset + 1)[0] == len[0]);
    assert(buf[offset] == label.len());
    let next = offset + 1 + label.len();
    assert(label_text(buf, offset + 1, next) == label.map_values(|b: u8| b as char));
}

/// A name that stands in a message is read label by label.
proof fn lemma_wire_name_read(buf: Seq<u8>, offset: int, labels: Seq<Seq<u8>>, hops: nat)
    requires
        byte_labels(labels),
        stands(buf, offset, wire_name(labels)),
    ensures
        name_labels(buf, offset, hops) == Some(label_texts(labels)),
        name_end(buf, offset) == offset + wire_name(labels).len(),
        wire_name(labels).len() > 0,
    decreases labels.len(),
{
    if labels.len() == 0 {
        assert(buf.subrange(offset, offset + 1)[0] == seq![0u8][0]);
        assert(label_texts(labels) =~= Seq::<Seq<char>>::empty());
    } else {
        let rest = labels.drop_first();
        assert(byte_label(labels[0]));
        assert forall|i: int| 0 <= i < rest.len() implies byte_label(#[trigger] rest[i]) by {
            assert(rest[i] == labels[i + 1]);
        }
        lemma_label_read(buf, offset, labels[0], wire_name(rest), hops);
        lemma_wire_name_read(buf, offset + 1 + labels[0].len(), rest, hops);
        assert(seq![labels[0].map_values(|b: u8| b as char)] + label_texts(rest) =~= label_texts(
            labels,
        ));
    }
}

proof fn lemma_questions_read(buf: Seq<u8>, offset: int, questions: Seq<QuestionModel>)
    requires
        stands(buf, offset, wire_questions(questions)),
        forall|i: int| 0 <= i < questions.len() ==> byte_labels((#[trigger] questions[i]).name),
    ensures
        after_questions(buf, offset, questions.len()) == Some(
            (offset + wire_questions(questions).len()) as int,
        ),
    decreases questions.len(),
{
    if questions.len() > 0 {
        let q = questions[0];
        let rest = questions.drop_first();
        let name = wire_name(q.name);
        assert(byte_labels(q.name));
        lemma_stands_split(
            buf,
            offset,
            name + wire16(q.kind) + wire16(q.class),
            wire_questions(rest),
        );
        assert(name + wire16(q.kind) + wire16(q.class) =~= name + (wire16(q.kind) + wire16(
            q.class,
        )));
        lemma_stands_split(buf, offset, name, wire16(q.kind) + wire16(q.class));
        lemma_wire_name_read(buf, offset, q.name, MAX_HOPS as nat);
        assert forall|i: int| 0 <= i < rest.len() implies byte_labels(
            (#[trigger] rest[i]).name,
        ) by {
            assert(rest[i] == questions[i + 1]);
        }
        lemma_questions_read(buf, offset + name.len() + 4, rest);
    }
}

/// Where the data of the record at `k` begins, counted from the first record.
pub open spec fn data_place(answers: Seq<AnswerModel>, k: int) -> int {
    (wire_answers(answers.take(k)).len() + wire_head(answers[k]).len()) as int
}

proof fn lemma_answer_read(buf: Seq<u8>, offset: int, a: AnswerModel, after: Seq<u8>)
    requires
        stands(buf, offset, wire_head(a) + a.data + after),
        byte_labels(a.owner),
        a.data.len() <= 65535,
    ensures
        name_at(buf, offset) matches Some((_, next)) && next + 10 == offset + wire_head(a).len()
            && be16(buf, next) == a.kind && be16(buf, next + 8) == a.data.len() && next + 10
            + a.data.len() <= buf.len(),
        stands(buf, offset + wire_head(a).len(), a.data),
        stands(buf, offset + wire_head(a).len() + a.data.len(), after),
{
    let name = wire_name(a.owner);
    let n16 = wire16(a.data.len() as u16);
    lemma_stands_split(buf, offset, wire_head(a) + a.data, after);
    lemma_stands_split(buf, offset, wire_head(a), a.data);
    let h4 = name + wire16(a.kind) + wire16(a.class) + wire16(a.ttl_high) + wire16(a.ttl_low);
    lemma_stands_split(buf, offset, h4, n16);
    let h3 = name + wire16(a.kind) + wire16(a.class) + wire16(a.ttl_high);
    lemma_stands_split(buf, offset, h3, wire16(a.ttl_low));
    let h2 = name + wire16(a.kind) + wire16(a.class);
    lemma_stands_split(buf, offset, h2, wire16(a.ttl_high));
    let h1 = name + wire16(a.kind);
    lemma_stands_split(buf, offset, h1, wire16(a.class));
    lemma_stands_split(buf, offset, name, wire16(a.kind));
    lemma_wire_name_read(buf, offset, a.owner, MAX_HOPS as nat);
    lemma_wire16_read(buf, offset + name.len(), a.kind);
    lemma_wire16_read(buf, offset + name.len() + 8, a.data.len() as u16);
}

proof fn lemma_answers_read(buf: Seq<u8>, offset: int, answers: Seq<AnswerModel>, k: int)
    requires
        stands(buf, offset, wire_answers(answers)),
        0 <= k <= answers.len(),
        forall|i: int|
            0 <= i < answers.len() ==> byte_labels((#[trigger] answers[i]).owner)
                && answers[i].data.len() <= 65535,
        forall|i: int| 0 <= i < k ==> (#[trigger] answers[i]).kind != 12,
        k < answers.len() ==> answers[k].kind == 12,
    ensures
        first_ptr(buf, offset, answers.len()) == (if k < answers.len() {
            match name_at(buf, offset + data_place(answers, k)) {
                Some((name, _)) => Some(name),
                None => None,
            }
        } else {
            None
        }),
        k < answers.len() ==> stands(buf, offset + data_place(answers, k), answers[k].data),
    decreases answers.len(),
{
    if answers.len() > 0 {
        let a = answers[0];
        let rest = answers.drop_first();
        lemma_answer_read(buf, offset, a, wire_answers(rest));
        assert forall|i: int| 0 <= i < rest.len() implies byte_labels((#[trigger] rest[i]).owner)
            && rest[i].data.len() <= 65535 by {
            assert(rest[i] == answers[i + 1]);
        }
        if k == 0 {
            assert(answers.take(0).len() == 0);
            assert(wire_answers(answers.take(0)).len() == 0);
        } else {
            assert(a.kind != 12);
            assert forall|i: int| 0 <= i < k - 1 implies (#[trigger] rest[i]).kind != 12 by {
                assert(rest[i] == answers[i + 1]);
            }
            let next = offset + wire_head(a).len() + a.data.len();
            lemma_answers_read(buf, next, rest, k - 1);
            if k < answers.len() {
                assert(answers.take(k).drop_first() =~= rest.take(k - 1));
                assert(answers.take(k)[0] == a);
                assert(rest[k - 1] == answers[k]);
            }
        }
    }
}

proof fn lemma_message_read(
    id: u16,
    flags: u16,
    questions: Seq<QuestionModel>,
    answers: Seq<AnswerModel>,
    authorities: u16,
    additional: u16,
    rest: Seq<u8>,
)
    requires
        sendable(questions, answers),
    ensures
        ({
            let buf = message(id, flags, questions, answers, authorities, additional, rest);
            let place = 12 + wire_questions(questions).len();
            &&& buf.len() >= 12
            &&& be16(buf, 4) == questions.len()
            &&& be16(buf, 6) == answers.len()
            &&& stands(buf, place as int, wire_answers(answers))
            &&& after_questions(buf, 12, questions.len()) == Some(place as int)
        }),
{
    let buf = message(id, flags, questions, answers, authorities, additional, rest);
    let q = wire_questions(questions);
    let a = wire_answers(answers);
    let h1 = wire16(id) + wire16(flags);
    let h2 = h1 + wire16(questions.len() as u16);
    let h3 = h2 + wire16(answers.len() as u16);
    let h4 = h3 + wire16(authorities);
    let h5 = h4 + wire16(additional);
    assert(buf.subrange(0, buf.len() as int) =~= buf);
    assert(stands(buf, 0, h5 + q + a + rest));
    lemma_stands_split(buf, 0, h5 + q + a, rest);
    lemma_stands_split(buf, 0, h5 + q, a);
    lemma_stands_split(buf, 0, h5, q);
    lemma_stands_split(buf, 0, h4, wire16(additional));
    lemma_stands_split(buf, 0, h3, wire16(authorities));
    lemma_stands_split(buf, 0, h2, wire16(answers.len() as u16));
    lemma_stands_split(buf, 0, h1, wire16(questions.len() as u16));
    lemma_wire16_read(buf, 4, questions.len() as u16);
    lemma_wire16_read(buf, 6, answers.len() as u16);
    lemma_questions_read(buf, 12, questions);
}

/// The name that a response brings is the one in the data of its first pointer
/// record, whatever questions and other records stand before it, and whatever
/// the class and the time to live of the records are.
pub proof fn law_response_reads_back(
    id: u16,
    flags: u16,
    questions: Seq<QuestionModel>,
    answers: Seq<AnswerModel>,
    authorities: u16,
    additional: u16,
    rest: Seq<u8>,
    k: int,
    labels: Seq<Seq<u8>>,
)
    requires
        sendable(questions, answers),
        0 <= k < answers.len(),
        forall|i: int| 0 <= i < k ==> (#[trigger] answers[i]).kind != 12,
        answers[k].kind == 12,
        byte_labels(labels),
        answers[k].data == wire_name(labels),
    ensures
        ptr_answer(message(id, flags, questions, answers, authorities, additional, rest)) == Some(
            text::joined(label_texts(labels), seq!['.']),
        ),
{
    let buf = message(id, flags, questions, answers, authorities, additional, rest);
    lemma_message_read(id, flags, questions, answers, authorities, additional, rest);
    let place = 12 + wire_questions(questions).len();
    lemma_answers_read(buf, place as int, answers, k);
    lemma_wire_name_read(buf, place + data_place(answers, k), labels, MAX_HOPS as nat);
}

/// A response without a pointer record brings no name.
pub proof fn law_no_pointer_no_name(
    id: u16,
    flags: u16,
    questions: Seq<QuestionModel>,
    answers: Seq<AnswerModel>,
    authorities: u16,
    additional: u16,
    rest: Seq<u8>,
)
    requires
        sendable(questions, answers),
        forall|i: int| 0 <= i < answers.len() ==> (#[trigger] answers[i]).kind != 12,
    ensures
        ptr_answer(message(id, flags, questions, answers, authorities, additional, rest)) is None,
{
    let buf = message(id, flags, questions, answers, authorities, additional, rest);
    lemma_message_read(id, flags, questions, answers, authorities, additional, rest);
    let place = 12 + wire_questions(questions).len();
    lemma_answers_read(buf, place as int, answers, answers.len() as int);
}

/// The bytes of the labels of a name without the zero at its end.
pub open spec fn wire_labels(labels: Seq<Seq<u8>>) -> Seq<u8>
    decreases labels.len(),
{
    if labels.len() == 0 {
        Seq::<u8>::empty()
    } else {
        seq![labels[0].len() as u8] + labels[0] + wire_labels(
            labels.drop_first(),
        )
    }
}

proof fn lemma_wire_labels_read(
    buf: Seq<u8>,
    offset: int,
    labels: Seq<Seq<u8>>,
    hops: nat,
)
    requires
        byte_labels(labels),
        stands(buf, offset, wire_labels(labels)),
        offset + wire_labels(labels).len() < buf.len(),
    ensures
        name_labels(buf, offset, hops) == (match name_labels(
            buf,
            offset + wire_labels(labels).len(),
            hops,
        ) {
            Some(rest) => Some(label_texts(labels) + rest),
            None => None,
        }),
        name_end(buf, offset) == name_end(buf, offset + wire_labels(labels).len()),
    decreases labels.len(),
{
    if labels.len() == 0 {
        match name_labels(buf, offset, hops) {
            Some(rest) => assert(label_texts(labels) + rest =~= rest),
            None => {},
        }
    } else {
        let rest = labels.drop_first();
        assert(byte_label(labels[0]));
        assert forall|i: int| 0 <= i < rest.len() implies byte_label(#[trigger] rest[i]) by {
            assert(rest[i] == labels[i + 1]);
        }
        lemma_label_read(buf, offset, labels[0], wire_labels(rest), hops);
        lemma_wire_labels_read(buf, offset + 1 + labels[0].len(), rest, hops);
        match name_labels(buf, offset + wire_labels(labels).len(), hops) {
            Some(tail) => {
                let first = labels[0].map_values(|b: u8| b as char);
                assert(seq![first] + (label_texts(rest) + tail) =~= label_texts(labels) + tail);
            },
            None => {},
        }
    }
}

/// A compression pointer stands for the name that it leads to: labels followed
/// by a pointer to `target` read as those labels followed by the name there,
/// and the bytes of the name end behind the pointer.
pub proof fn law_pointer_stands_for_name(
    buf: Seq<u8>,
    offset: int,
    labels: Seq<Seq<u8>>,
    target: int,
    tail: Seq<Seq<u8>>,
)
    requires
        byte_labels(labels),
        byte_labels(tail),
        0 <= offset,
        0 <= target < 16384,
        offset + wire_labels(labels).len() + 2 <= buf.len(),
        buf.subrange(offset, offset + wire_labels(labels).len()) == wire_labels(labels),
        buf[offset + wire_labels(labels).len()] == 192 + target / 256,
        buf[offset + wire_labels(labels).len() + 1] == target % 256,
        target + wire_name(tail).len() <= buf.len(),
        buf.subrange(target, target + wire_name(tail).len()) == wire_name(tail),
    ensures
        name_at(buf, offset) == Some(
            (
                text::joined(label_texts(labels + tail), seq!['.']),
                (offset + wire_labels(labels).len() + 2) as int,
            ),
        ),
{
    let part = wire_labels(labels);
    let name = wire_name(tail);
    lemma_wire_labels_read(buf, offset, labels, MAX_HOPS as nat);
    lemma_wire_name_read(buf, target, tail, (MAX_HOPS - 1) as nat);
    assert(name_labels(buf, offset + part.len(), MAX_HOPS as nat) == Some(
        label_texts(tail),
    ));
    assert(label_texts(labels) + label_texts(tail) =~= label_texts(labels + tail));
}

/// The bytes of each label.
pub open spec fn encoded(labels: Seq<Seq<char>>) -> Seq<Seq<u8>> {
    labels.map_values(|l: Seq<char>| encode_utf8(l))
}

/// A query asks for the pointer record of its name: behind a header that counts
/// one question stand the name, the type 12 and the class 1.
pub proof fn law_question_is_a_message(id: u16, labels: Seq<Seq<char>>)
    requires
        forall|i: int| 0 <= i < labels.len() ==> plain_label(#[trigger] labels[i]),
    ensures
        ptr_question(id as int, labels) == message(
            id,
            0,
            seq![QuestionModel { name: encoded(labels), kind: 12, class: 1 }],
            Seq::<AnswerModel>::empty(),
            0,
            0,
            Seq::<u8>::empty(),
        ),
{
    let q = QuestionModel { name: encoded(labels), kind: 12, class: 1 };
    lemma_wire_of_plain(labels);
    reveal_with_fuel(wire_questions, 2);
    reveal_with_fuel(wire_answers, 2);
    assert(seq![q].drop_first().len() == 0);
    assert(ptr_question(id as int, labels) =~= message(
        id,
        0,
        seq![q],
        Seq::<AnswerModel>::empty(),
        0,
        0,
        Seq::<u8>::empty(),
    ));
}

proof fn lemma_wire_of_plain(labels: Seq<Seq<char>>)
    requires
        forall|i: int| 0 <= i < labels.len() ==> plain_label(#[trigger] labels[i]),
    ensures
        wire_name(encoded(labels)) == labels_bytes(labels) + seq![0u8],
    decreases labels.len(),
{
    if labels.len() == 0 {
        assert(labels_bytes(labels) + seq![0u8] =~= seq![0u8]);
    } else {
        let rest = labels.drop_first();
        assert forall|i: int| 0 <= i < rest.len() implies plain_label(#[trigger] rest[i]) by {
            assert(rest[i] == labels[i + 1]);
        }
        lemma_wire_of_plain(rest);
        lemma_labels_bytes_front(labels);
        assert(plain_label(labels[0]));
        is_ascii_chars_encode_utf8(labels[0]);
        assert(encoded(labels).drop_first() =~= encoded(rest));
        assert(wire_name(encoded(labels)) =~= labels_bytes(labels) + seq![0u8]);
    }
}

/// An address is looked up under its parts in reverse, below `in-addr.arpa`; a
/// text of another shape is not looked up.
pub proof fn law_address_is_reversed(a: Seq<char>, b: Seq<char>, c: Seq<char>, d: Seq<char>)
    requires
        !a.contains('.'),
        !b.contains('.'),
        !c.contains('.'),
        !d.contains('.'),
    ensures
        reverse_labels(a + seq!['.'] + b + seq!['.'] + c + seq!['.'] + d) == Some(
            seq![d, c, b, a, "in-addr"@, "arpa"@],
        ),
        reverse_labels(a + seq!['.'] + b + seq!['.'] + c) is None,
{
    text::lemma_one_piece(a, '.');
    text::lemma_one_piece(b, '.');
    text::lemma_one_piece(c, '.');
    text::lemma_one_piece(d, '.');
    let ab = a + seq!['.'] + b;
    let abc = ab + seq!['.'] + c;
    text::lemma_pieces_across(a, b, '.');
    text::lemma_pieces_across(ab, c, '.');
    text::lemma_pieces_across(abc, d, '.');
    assert(text::pieces(abc, '.') =~= seq![a, b, c]);
    assert(text::pieces(abc + seq!['.'] + d, '.') =~= seq![a, b, c, d]);
}

/// What is shown of a name: the ending `.local` and a dot at the end are left
/// out, and the rest stays as it is.
pub proof fn law_name_without_ending(name: Seq<char>)
    requires
        name.len() > 0,
        name[name.len() - 1] != '.',
        !(name.len() >= 6 && name.skip(name.len() - 6) == ".local"@),
    ensures
        bare_name(name) == name,
        bare_name(name.push('.')) == name,
        bare_name(name + ".local"@) == name,
        bare_name((name + ".local"@).push('.')) == name,
{
    reveal_strlit(".local");
    let long = name + ".local"@;
    assert(long.last() == 'l');
    lemma_tail_of(name);
    lemma_tail_of(long);
    text::law_tails_dropped(name, ".local"@);
}

proof fn lemma_tail_of(name: Seq<char>)
    requires
        name.len() > 0,
        name[name.len() - 1] != '.',
    ensures
        text::without_tail(name, '.') == name,
        text::without_tail(name.push('.'), '.') == name,
{
    assert(name.push('.').drop_last() =~= name);
    reveal_with_fuel(text::without_tail, 3);
}

/// The name in an answer is shown without its ending; an answer whose name is
/// nothing else shows none.
pub proof fn law_answered_name(packet: Seq<u8>, raw: Seq<char>)
    requires
        ptr_answer(packet) == Some(raw),
    ensures
        bare_name(raw).len() > 0 ==> answered_name(packet) == Some(bare_name(raw)),
        bare_name(raw).len() == 0 ==> answered_name(packet) is None,
{
}

/// A label goes out with its length before it; one of more than sixty-three bytes
/// does not go out at all.
pub proof fn law_label_bytes(label: Seq<char>)
    ensures
        ({
            let bytes = encode_utf8(label);
            let sent = label_bytes(label);
            &&& bytes.len() >= 64 ==> sent.len() == 0
            &&& bytes.len() < 64 ==> sent.len() == bytes.len() + 1 && sent[0] == bytes.len()
                && sent.skip(1) == bytes
        }),
{
    let bytes = encode_utf8(label);
    if bytes.len() < 64 {
        assert(label_bytes(label).skip(1) =~= bytes);
    }
}

}
