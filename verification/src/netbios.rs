//! NetBIOS node status: the query, and what a reply tells of a host.

use crate::numerals;
use crate::numerals::{latin1_chars, push_hex_byte};
use crate::text;
use crate::text::{string_of, trim_end};
use vstd::prelude::*;
use vstd::slice::slice_subrange;

verus! {

/// The bytes of a node status query for every name.
pub open spec fn status_query() -> Seq<u8> {
    seq![0x82u8, 0x28, 0, 0, 0, 1, 0, 0, 0, 0, 0, 0, 0x20, 0x43, 0x4b] + Seq::new(
        30,
        |i: int| 0x41u8,
    ) + seq![0, 0, 0x21, 0, 1]
}

/// The packet that asks a host for its names.
pub fn netbios_query() -> (res: Vec<u8>)
    ensures
        res@ == status_query(),
{
    let mut out: Vec<u8> = Vec::new();
    out.push(0x82);
    out.push(0x28);
    out.push(0);
    out.push(0);
    out.push(0);
    out.push(1);
    out.push(0);
    out.push(0);
    out.push(0);
    out.push(0);
    out.push(0);
    out.push(0);
    out.push(0x20);
    out.push(0x43);
    out.push(0x4b);
    let ghost head = out@;
    let mut i: usize = 0;
    assert(head + Seq::new(0, |i: int| 0x41u8) =~= head);
    while i < 30
        invariant
            i <= 30,
            out@ == head + Seq::new(i as nat, |i: int| 0x41u8),
        decreases 30 - i,
    {
        out.push(0x41);
        assert(Seq::new((i + 1) as nat, |i: int| 0x41u8) =~= Seq::new(
            i as nat,
            |i: int| 0x41u8,
        ).push(0x41));
        i = i + 1;
    }
    out.push(0);
    out.push(0);
    out.push(0x21);
    out.push(0);
    out.push(1);
    assert(out@ =~= status_query());
    out
}

/// Whether `c` is a visible ASCII character or a blank.
pub open spec fn is_printable(c: char) -> bool {
    '\u{20}' <= c <= '\u{7e}'
}

/// Where the number of names stands in a reply: behind the header, the
/// question, and the name and the fixed part of the answer. The answer's name
/// is two bytes long where it is a compression pointer.
pub open spec fn count_at(buf: Seq<u8>) -> int {
    if buf[50] >= 0xc0 {
        62
    } else {
        94
    }
}

/// The text of the name in the entry at `at`, without the padding behind it.
pub open spec fn entry_text(buf: Seq<u8>, at: int) -> Seq<char> {
    text::trimmed_end(buf.subrange(at, at + 15).map_values(|b: u8| numerals::latin1(b)))
}

/// The name in the entry at `at`, if the entry is the computer's own: not a
/// group, of the workstation or the server service, and printable.
pub open spec fn own_name(buf: Seq<u8>, at: int) -> Option<Seq<char>> {
    let name = entry_text(buf, at);
    if buf[at + 16] < 0x80 && (buf[at + 15] == 0 || buf[at + 15] == 0x20) && name.len() > 0 && (
    forall|i: int| 0 <= i < name.len() ==> is_printable(#[trigger] name[i])) {
        Some(name)
    } else {
        None
    }
}

/// The first of the computer's own names among the `count` entries from `at`
/// on, as far as the packet holds them.
pub open spec fn first_own_name(buf: Seq<u8>, at: int, count: nat) -> Option<Seq<char>>
    decreases count,
{
    if count == 0 || at + 18 > buf.len() {
        None
    } else if own_name(buf, at) is Some {
        own_name(buf, at)
    } else {
        first_own_name(buf, at + 18, (count - 1) as nat)
    }
}

/// A hardware address of six bytes as text.
pub open spec fn mac_text(m: Seq<u8>) -> Seq<char> {
    numerals::hex_byte(m[0]) + seq![':'] + numerals::hex_byte(m[1]) + seq![':']
        + numerals::hex_byte(m[2]) + seq![':'] + numerals::hex_byte(m[3]) + seq![':']
        + numerals::hex_byte(m[4]) + seq![':'] + numerals::hex_byte(m[5])
}

/// The hardware address at `at`, unless it is cut short or all zero.
pub open spec fn mac_at(buf: Seq<u8>, at: int) -> Option<Seq<char>> {
    if at + 6 > buf.len() || buf.subrange(at, at + 6) == seq![0u8, 0, 0, 0, 0, 0] {
        None
    } else {
        Some(mac_text(buf.subrange(at, at + 6)))
    }
}

/// The hardware address and the computer name in a node status reply.
pub open spec fn node_status(buf: Seq<u8>) -> (Option<Seq<char>>, Option<Seq<char>>) {
    if buf.len() < 70 || count_at(buf) >= buf.len() {
        (None, None)
    } else {
        let count = buf[count_at(buf)] as int;
        let names = count_at(buf) + 1;
        (mac_at(buf, names + 18 * count), first_own_name(buf, names, count as nat))
    }
}

fn read_own_name(buf: &[u8], at: usize) -> (res: Option<String>)
    requires
        at + 18 <= buf@.len(),
    ensures
        match res {
            Some(name) => own_name(buf@, at as int) == Some(name@),
            None => own_name(buf@, at as int) is None,
        },
{
    let n = buf.len();
    assert(at + 18 <= n);
    if buf[at + 16] >= 0x80 || (buf[at + 15] != 0 && buf[at + 15] != 0x20) {
        return None;
    }
    let raw = latin1_chars(slice_subrange(buf, at, at + 15));
    let name = trim_end(&raw);
    if name.len() == 0 {
        return None;
    }
    let mut i: usize = 0;
    while i < name.len()
        invariant
            i <= name@.len(),
            name@ == entry_text(buf@, at as int),
            forall|j: int| 0 <= j < i ==> is_printable(#[trigger] name@[j]),
        decreases name@.len() - i,
    {
        let c = name[i];
        if c < '\u{20}' || '\u{7e}' < c {
            assert(!is_printable(name@[i as int]));
            return None;
        }
        i = i + 1;
    }
    Some(string_of(name))
}

fn push_next_byte(out: &mut Vec<char>, b: u8)
    ensures
        final(out)@ == old(out)@ + seq![':'] + numerals::hex_byte(b),
{
    let ghost before = out@;
    out.push(':');
    assert(out@ =~= before + seq![':']);
    push_hex_byte(out, b);
}

fn mac_chars(a: u8, b: u8, c: u8, d: u8, e: u8, f: u8) -> (res: Vec<char>)
    ensures
        res@ == mac_text(seq![a, b, c, d, e, f]),
{
    let mut out: Vec<char> = Vec::new();
    push_hex_byte(&mut out, a);
    assert(out@ =~= numerals::hex_byte(a));
    push_next_byte(&mut out, b);
    push_next_byte(&mut out, c);
    push_next_byte(&mut out, d);
    push_next_byte(&mut out, e);
    push_next_byte(&mut out, f);
    out
}

fn read_mac(buf: &[u8], at: usize) -> (res: Option<String>)
    requires
        at <= 10000,
    ensures
        match res {
            Some(mac) => mac_at(buf@, at as int) == Some(mac@),
            None => mac_at(buf@, at as int) is None,
        },
{
    if at + 6 > buf.len() {
        return None;
    }
    let ghost m = buf@.subrange(at as int, at + 6);
    if buf[at] == 0 && buf[at + 1] == 0 && buf[at + 2] == 0 && buf[at + 3] == 0 && buf[at + 4] == 0
        && buf[at + 5] == 0 {
        assert(m =~= seq![0u8, 0, 0, 0, 0, 0]);
        return None;
    }
    proof {
        if m == seq![0u8, 0, 0, 0, 0, 0] {
            assert(m[0] == 0 && m[1] == 0 && m[2] == 0 && m[3] == 0 && m[4] == 0 && m[5] == 0);
        }
    }
    assert(m[0] == buf@[at as int] && m[1] == buf@[at + 1] && m[2] == buf@[at + 2] && m[3]
        == buf@[at + 3] && m[4] == buf@[at + 4] && m[5] == buf@[at + 5]);
    let out = mac_chars(buf[at], buf[at + 1], buf[at + 2], buf[at + 3], buf[at + 4], buf[at + 5]);
    assert(m =~= seq![m[0], m[1], m[2], m[3], m[4], m[5]]);
    Some(string_of(&out))
}

/// Reads a node status reply: the hardware address and the computer name.
pub fn parse_nbstat(buf: &[u8]) -> (res: (Option<String>, Option<String>))
    ensures
        match res.0 {
            Some(mac) => node_status(buf@).0 == Some(mac@),
            None => node_status(buf@).0 is None,
        },
        match res.1 {
            Some(name) => node_status(buf@).1 == Some(name@),
            None => node_status(buf@).1 is None,
        },
{
    if buf.len() < 70 {
        return (None, None);
    }
    let offset: usize = if buf[50] >= 0xc0 {
        62
    } else {
        94
    };
    if offset >= buf.len() {
        return (None, None);
    }
    let count = buf[offset];
    let names: usize = offset + 1;
    let mut name: Option<String> = None;
    let mut at: usize = names;
    let mut left: u8 = count;
    while left > 0 && name.is_none() && at + 18 <= buf.len()
        invariant
            names <= 95,
            left <= count,
            at == names + 18 * (count - left),
            match name {
                Some(n) => first_own_name(buf@, names as int, count as nat) == Some(n@),
                None => first_own_name(buf@, at as int, left as nat) == first_own_name(
                    buf@,
                    names as int,
                    count as nat,
                ),
            },
        decreases left,
    {
        name = read_own_name(buf, at);
        at = at + 18;
        left = left - 1;
    }
    let mac = read_mac(buf, names + 18 * count as usize);
    (mac, name)
}

/// A computer name is never empty, never ends in white space, and holds only
/// printable characters.
pub proof fn law_computer_name_is_clean(buf: Seq<u8>)
    ensures
        node_status(buf).1 matches Some(name) ==> name.len() > 0 && !text::is_space(name.last())
            && forall|i: int| 0 <= i < name.len() ==> is_printable(#[trigger] name[i]),
{
    if buf.len() >= 70 && count_at(buf) < buf.len() {
        lemma_first_own_name_clean(buf, count_at(buf) + 1, buf[count_at(buf)] as nat);
    }
}

proof fn lemma_first_own_name_clean(buf: Seq<u8>, at: int, count: nat)
    ensures
        first_own_name(buf, at, count) matches Some(name) ==> name.len() > 0 && !text::is_space(
            name.last(),
        ) && forall|i: int| 0 <= i < name.len() ==> is_printable(#[trigger] name[i]),
    decreases count,
{
    if count == 0 || at + 18 > buf.len() {
    } else if own_name(buf, at) is Some {
        lemma_trimmed_end_last(
            buf.subrange(at, at + 15).map_values(|b: u8| numerals::latin1(b)),
        );
    } else {
        lemma_first_own_name_clean(buf, at + 18, (count - 1) as nat);
    }
}

proof fn lemma_trimmed_end_last(s: Seq<char>)
    ensures
        text::trimmed_end(s).len() > 0 ==> !text::is_space(text::trimmed_end(s).last()),
    decreases s.len(),
{
    if s.len() > 0 && text::is_space(s.last()) {
        lemma_trimmed_end_last(s.drop_last());
    }
}

/// A hardware address is always seventeen characters: six bytes of two
/// lower-case hexadecimal digits, with colons between.
pub proof fn law_mac_text_shape(m: Seq<u8>)
    requires
        m.len() == 6,
    ensures
        mac_text(m).len() == 17,
        forall|i: int|
            0 <= i < 17 ==> {
                let c = #[trigger] mac_text(m)[i];
                if i % 3 == 2 {
                    c == ':'
                } else {
                    '0' <= c <= '9' || 'a' <= c <= 'f'
                }
            },
{
}

/// One name in a node status reply: fifteen bytes of name, a byte for the
/// service, and two bytes of flags.
pub struct NodeName {
    pub name: Seq<u8>,
    pub service: u8,
    pub flags_high: u8,
    pub flags_low: u8,
}

/// The names of a reply, one after another.
pub open spec fn wire_names(names: Seq<NodeName>) -> Seq<u8>
    decreases names.len(),
{
    if names.len() == 0 {
        Seq::<u8>::empty()
    } else {
        names[0].name + seq![names[0].service, names[0].flags_high, names[0].flags_low]
            + wire_names(names.drop_first())
    }
}

/// A node status reply: the header and the question, the name that the answer is
/// for, the fixed part of the answer, the names behind their number, the
/// hardware address, and whatever follows.
pub open spec fn status_reply(
    head: Seq<u8>,
    owner: Seq<u8>,
    fixed: Seq<u8>,
    names: Seq<NodeName>,
    unit: Seq<u8>,
    rest: Seq<u8>,
) -> Seq<u8> {
    head + owner + fixed + seq![names.len() as u8] + wire_names(names) + unit + rest
}

/// A name as text, each byte one character, without the padding behind it.
pub open spec fn node_text(n: NodeName) -> Seq<char> {
    text::trimmed_end(n.name.map_values(|b: u8| b as char))
}

/// Whether a name is the computer's own: no group's, of the workstation or the
/// server service, and printable.
pub open spec fn is_own(n: NodeName) -> bool {
    &&& n.flags_high < 128
    &&& n.service == 0 || n.service == 32
    &&& node_text(n).len() > 0
    &&& forall|i: int| 0 <= i < node_text(n).len() ==> 32 <= (#[trigger] node_text(n)[i]) as int <= 126
}

proof fn lemma_names_read(buf: Seq<u8>, at: int, names: Seq<NodeName>, k: int)
    requires
        0 <= at,
        at + wire_names(names).len() <= buf.len(),
        buf.subrange(at, at + wire_names(names).len()) == wire_names(names),
        forall|i: int| 0 <= i < names.len() ==> (#[trigger] names[i]).name.len() == 15,
        0 <= k <= names.len(),
        forall|i: int| 0 <= i < k ==> !is_own(#[trigger] names[i]),
        k < names.len() ==> is_own(names[k]),
    ensures
        wire_names(names).len() == 18 * names.len(),
        first_own_name(buf, at, names.len()) == (if k < names.len() {
            Some(node_text(names[k]))
        } else {
            None
        }),
    decreases names.len(),
{
    if names.len() > 0 {
        let n = names[0];
        let tail = names.drop_first();
        let all = wire_names(names);
        let more = wire_names(tail);
        assert forall|i: int| 0 <= i < tail.len() implies (#[trigger] tail[i]).name.len() == 15 by {
            assert(tail[i] == names[i + 1]);
        }
        assert(n.name.len() == 15);
        let part = buf.subrange(at, at + all.len());
        assert(part == all);
        assert(all.len() == 18 + more.len());
        assert(buf.subrange(at + 18, at + 18 + more.len()) =~= more) by {
            assert forall|i: int| 0 <= i < more.len() implies buf[at + 18 + i] == more[i] by {
                assert(part[18 + i] == more[i]);
            }
        }
        assert(buf.subrange(at, at + 15) =~= n.name) by {
            assert forall|i: int| 0 <= i < 15 implies buf[at + i] == n.name[i] by {
                assert(part[i] == n.name[i]);
            }
        }
        assert(part[15] == n.service && part[16] == n.flags_high);
        assert(buf[at + 15] == n.service && buf[at + 16] == n.flags_high);
        assert(n.name.map_values(|b: u8| numerals::latin1(b)) =~= n.name.map_values(
            |b: u8| b as char,
        ));
        assert(entry_text(buf, at) == node_text(n));
        assert((own_name(buf, at) is Some) == is_own(n)) by {
            let text = node_text(n);
            assert forall|i: int| 0 <= i < text.len() implies is_printable(#[trigger] text[i])
                == (32 <= text[i] as int <= 126) by {}
        }
        if k > 0 {
            assert forall|i: int| 0 <= i < k - 1 implies !is_own(#[trigger] tail[i]) by {
                assert(tail[i] == names[i + 1]);
            }
            if k < names.len() {
                assert(tail[k - 1] == names[k]);
            }
            assert(!is_own(n));
            lemma_names_read(buf, at + 18, tail, k - 1);
        } else {
            lemma_names_len(tail);
        }
    }
}

proof fn lemma_names_len(names: Seq<NodeName>)
    requires
        forall|i: int| 0 <= i < names.len() ==> (#[trigger] names[i]).name.len() == 15,
    ensures
        wire_names(names).len() == 18 * names.len(),
    decreases names.len(),
{
    if names.len() > 0 {
        let tail = names.drop_first();
        assert forall|i: int| 0 <= i < tail.len() implies (#[trigger] tail[i]).name.len() == 15 by {
            assert(tail[i] == names[i + 1]);
        }
        assert(names[0].name.len() == 15);
        lemma_names_len(tail);
    }
}

/// A node status reply tells the first of the names that is the computer's own,
/// and the hardware address behind the names, unless that is all zero. The name
/// that the answer is for is a pointer of two bytes, or all of its thirty-four.
pub proof fn law_status_reads_back(
    head: Seq<u8>,
    owner: Seq<u8>,
    fixed: Seq<u8>,
    names: Seq<NodeName>,
    unit: Seq<u8>,
    rest: Seq<u8>,
    k: int,
)
    requires
        head.len() == 50,
        owner.len() == 2 && owner[0] >= 192 || owner.len() == 34 && owner[0] < 192,
        fixed.len() == 10,
        names.len() <= 255,
        forall|i: int| 0 <= i < names.len() ==> (#[trigger] names[i]).name.len() == 15,
        unit.len() == 6,
        status_reply(head, owner, fixed, names, unit, rest).len() >= 70,
        0 <= k <= names.len(),
        forall|i: int| 0 <= i < k ==> !is_own(#[trigger] names[i]),
        k < names.len() ==> is_own(names[k]),
    ensures
        ({
            let (mac, name) = node_status(status_reply(head, owner, fixed, names, unit, rest));
            &&& name == (if k < names.len() {
                Some(node_text(names[k]))
            } else {
                None
            })
            &&& mac == (if unit == seq![0u8, 0, 0, 0, 0, 0] {
                None
            } else {
                Some(mac_text(unit))
            })
        }),
{
    let buf = status_reply(head, owner, fixed, names, unit, rest);
    let o = owner.len() as int;
    let wire = wire_names(names);
    lemma_names_len(names);
    assert(buf[50] == owner[0]);
    assert(count_at(buf) == 60 + o);
    assert(buf[60 + o] == names.len() as u8);
    let at = 61 + o;
    assert(buf.subrange(at, at + wire.len()) =~= wire);
    lemma_names_read(buf, at, names, k);
    assert(buf.subrange(at + wire.len(), at + wire.len() + 6) =~= unit);
}

/// The text of a hardware address spells its six bytes in order, two digits each.
pub proof fn law_mac_text_reads_back(m: Seq<u8>, i: int)
    requires
        m.len() == 6,
        0 <= i < 6,
    ensures
        16 * numerals::hex_value(mac_text(m)[3 * i]) + numerals::hex_value(mac_text(m)[3 * i + 1])
            == m[i],
{
    assert(i == 0 || i == 1 || i == 2 || i == 3 || i == 4 || i == 5);
    assert(mac_text(m)[3 * i] == numerals::hex_byte(m[i])[0]);
    assert(mac_text(m)[3 * i + 1] == numerals::hex_byte(m[i])[1]);
}

/// A reply that is too short tells nothing.
pub proof fn law_short_status_tells_nothing(buf: Seq<u8>)
    requires
        buf.len() < 70,
    ensures
        node_status(buf) == (None::<Seq<char>>, None::<Seq<char>>),
{
}

}
