//! Who made a network card: the registry of address prefixes.

use crate::numerals;
use crate::numerals::{is_hex_digit, to_upper};
use crate::text;
use crate::text::{chars_of, find, lines, string_of, trim};
use std::collections::HashMap;
use vstd::prelude::*;
use vstd::slice::slice_subrange;
use vstd::utf8::*;

verus! {

broadcast use vstd::std_specs::hash::group_hash_axioms;

/// The hexadecimal digits of `s`, in order.
pub open spec fn hex_only(s: Seq<char>) -> Seq<char>
    decreases s.len(),
{
    if s.len() == 0 {
        s
    } else if numerals::is_hex(s.last()) {
        hex_only(s.drop_last()).push(s.last())
    } else {
        hex_only(s.drop_last())
    }
}

/// The prefix of a hardware address: its first six hexadecimal digits in upper
/// case, whatever stands between them.
pub open spec fn normalized(mac: Seq<char>) -> Option<Seq<char>> {
    if hex_only(mac).len() >= 6 {
        Some(numerals::uppered(hex_only(mac).take(6)))
    } else {
        None
    }
}

/// Whether `c` is a hexadecimal digit that is no lower-case letter.
pub open spec fn is_upper_hex(c: char) -> bool {
    '0' <= c <= '9' || 'A' <= c <= 'F'
}

/// Whether `s` is a prefix: six hexadecimal digits in upper case.
pub open spec fn is_oui(s: Seq<char>) -> bool {
    s.len() == 6 && forall|i: int| 0 <= i < 6 ==> is_upper_hex(#[trigger] s[i])
}

/// The number that the six digits of a prefix spell.
pub open spec fn oui_number(s: Seq<char>) -> int {
    numerals::hex_value(s[0]) * 1048576 + numerals::hex_value(s[1]) * 65536 + numerals::hex_value(
        s[2],
    ) * 4096 + numerals::hex_value(s[3]) * 256 + numerals::hex_value(s[4]) * 16
        + numerals::hex_value(s[5])
}

/// Six digits below sixteen are fixed by the number they spell.
proof fn lemma_six_digits(a: Seq<int>, b: Seq<int>)
    requires
        a.len() == 6,
        b.len() == 6,
        forall|i: int| 0 <= i < 6 ==> 0 <= #[trigger] a[i] < 16,
        forall|i: int| 0 <= i < 6 ==> 0 <= #[trigger] b[i] < 16,
        a[0] * 1048576 + a[1] * 65536 + a[2] * 4096 + a[3] * 256 + a[4] * 16 + a[5] == b[0]
            * 1048576 + b[1] * 65536 + b[2] * 4096 + b[3] * 256 + b[4] * 16 + b[5],
    ensures
        forall|i: int| 0 <= i < 6 ==> #[trigger] a[i] == b[i],
{
    let k5 = (b[0] - a[0]) * 65536 + (b[1] - a[1]) * 4096 + (b[2] - a[2]) * 256 + (b[3] - a[3])
        * 16 + (b[4] - a[4]);
    assert(a[5] - b[5] == 16 * k5);
    assert(k5 == 0);
    let k4 = (b[0] - a[0]) * 4096 + (b[1] - a[1]) * 256 + (b[2] - a[2]) * 16 + (b[3] - a[3]);
    assert(a[4] - b[4] == 16 * k4);
    assert(k4 == 0);
    let k3 = (b[0] - a[0]) * 256 + (b[1] - a[1]) * 16 + (b[2] - a[2]);
    assert(a[3] - b[3] == 16 * k3);
    assert(k3 == 0);
    let k2 = (b[0] - a[0]) * 16 + (b[1] - a[1]);
    assert(a[2] - b[2] == 16 * k2);
    assert(k2 == 0);
    assert(a[1] - b[1] == 16 * (b[0] - a[0]));
    assert(a[0] == b[0]);
}

/// A prefix is fixed by its number, which has 24 bits.
proof fn lemma_oui_number(a: Seq<char>, b: Seq<char>)
    requires
        is_oui(a),
        is_oui(b),
    ensures
        0 <= oui_number(a) < 16777216,
        oui_number(a) == oui_number(b) ==> a == b,
{
    let va = a.map_values(|c: char| numerals::hex_value(c));
    let vb = b.map_values(|c: char| numerals::hex_value(c));
    assert forall|i: int| 0 <= i < 6 implies 0 <= #[trigger] va[i] < 16 by {
        assert(is_upper_hex(a[i]));
    }
    assert forall|i: int| 0 <= i < 6 implies 0 <= #[trigger] vb[i] < 16 by {
        assert(is_upper_hex(b[i]));
    }
    assert(0 <= va[0] < 16 && 0 <= va[1] < 16 && 0 <= va[2] < 16 && 0 <= va[3] < 16 && 0 <= va[4]
        < 16 && 0 <= va[5] < 16);
    if oui_number(a) == oui_number(b) {
        lemma_six_digits(va, vb);
        assert forall|i: int| 0 <= i < 6 implies #[trigger] a[i] == b[i] by {
            assert(va[i] == vb[i]);
            assert(is_upper_hex(a[i]) && is_upper_hex(b[i]));
        }
        assert(a =~= b);
    }
}

/// What a line of the registry says: a prefix of six bytes, a tab, and the
/// vendor. A line of another shape says nothing.
pub open spec fn entry_of(line: Seq<char>) -> Option<(Seq<char>, Seq<char>)> {
    match text::first_at(line, seq!['\t']) {
        Some(tab) => {
            let key = text::trimmed(line.take(tab));
            let vendor = text::trimmed(line.skip(tab + 1));
            if encode_utf8(key).len() == 6 && vendor.len() > 0 {
                Some((key, vendor))
            } else {
                None
            }
        },
        None => None,
    }
}

/// The vendor of a prefix by the given lines; of two lines for one prefix the
/// later counts.
pub open spec fn vendor_in(lines: Seq<Seq<char>>, oui: Seq<char>) -> Option<Seq<char>>
    decreases lines.len(),
{
    if lines.len() == 0 {
        None
    } else {
        match entry_of(lines.last()) {
            Some((key, vendor)) => if key == oui {
                Some(vendor)
            } else {
                vendor_in(lines.drop_last(), oui)
            },
            None => vendor_in(lines.drop_last(), oui),
        }
    }
}

/// The registered prefixes and their vendors.
pub struct OuiRegistry {
    vendors: HashMap<u32, String>,
}

impl OuiRegistry {
    /// The vendor of a prefix, if it is registered.
    pub closed spec fn vendor_of(&self, oui: Seq<char>) -> Option<Seq<char>> {
        if is_oui(oui) && self.vendors@.contains_key(oui_number(oui) as u32) {
            Some(self.vendors@[oui_number(oui) as u32]@)
        } else {
            None
        }
    }

    /// Reads a registry: one entry a line, the prefix, a tab, the vendor.
    pub fn parse(tsv: &str) -> (res: Self)
        ensures
            forall|oui: Seq<char>|
                is_oui(oui) ==> #[trigger] res.vendor_of(oui) == vendor_in(
                    text::line_seq(tsv@),
                    oui,
                ),
    {
        let chars = chars_of(tsv);
        let all = lines(&chars);
        let tab = chars_of("\t");
        proof {
            reveal_strlit("\t");
            assert(tab@ =~= seq!['\t']);
        }
        let ghost views = text::views(all@);
        let mut res = OuiRegistry { vendors: HashMap::new() };
        let mut i: usize = 0;
        assert(views.take(0).len() == 0);
        while i < all.len()
            invariant
                i <= all@.len(),
                views == text::views(all@),
                tab@ == seq!['\t'],
                forall|oui: Seq<char>|
                    is_oui(oui) ==> #[trigger] res.vendor_of(oui) == vendor_in(
                        views.take(i as int),
                        oui,
                    ),
            decreases all@.len() - i,
        {
            let line = all[i];
            let n = line.len();
            let ghost before = res;
            proof {
                assert(views[i as int] == line@);
                assert(views.take(i + 1).drop_last() =~= views.take(i as int));
                assert(views.take(i + 1).last() == line@);
            }
            match find(line, &tab) {
                Some(at) => {
                    let key = trim(slice_subrange(line, 0, at));
                    let vendor = trim(slice_subrange(line, at + 1, n));
                    proof {
                        assert(line@.subrange(0, at as int) =~= line@.take(at as int));
                        assert(line@.subrange(at + 1, line@.len() as int) =~= line@.skip(at + 1));
                    }
                    match prefix_number(key) {
                        Some(number) => {
                            proof {
                                lemma_prefix_bytes(key@);
                            }
                            if vendor.len() > 0 {
                                res.vendors.insert(number, string_of(vendor));
                            }
                            proof {
                                assert forall|oui: Seq<char>|
                                    is_oui(oui) implies #[trigger] res.vendor_of(oui)
                                    == vendor_in(views.take(i + 1), oui) by {
                                    lemma_oui_number(oui, key@);
                                    lemma_oui_number(key@, oui);
                                    assert(before.vendor_of(oui) == vendor_in(
                                        views.take(i as int),
                                        oui,
                                    ));
                                }
                            }
                        },
                        None => {
                            proof {
                                assert forall|oui: Seq<char>|
                                    is_oui(oui) implies #[trigger] res.vendor_of(oui)
                                    == vendor_in(views.take(i + 1), oui) by {
                                    assert(before.vendor_of(oui) == vendor_in(
                                        views.take(i as int),
                                        oui,
                                    ));
                                }
                            }
                        },
                    }
                },
                None => {
                    proof {
                        assert forall|oui: Seq<char>| is_oui(oui) implies #[trigger] res.vendor_of(
                            oui,
                        ) == vendor_in(views.take(i + 1), oui) by {
                            assert(before.vendor_of(oui) == vendor_in(views.take(i as int), oui));
                        }
                    }
                },
            }
            i = i + 1;
        }
        assert(views.take(i as int) =~= views);
        res
    }

    /// The vendor of a prefix.
    fn vendor(&self, oui: &[char]) -> (res: Option<String>)
        ensures
            match res {
                Some(vendor) => self.vendor_of(oui@) == Some(vendor@),
                None => self.vendor_of(oui@) is None,
            },
    {
        match prefix_number(oui) {
            Some(number) => match self.vendors.get(&number) {
                Some(vendor) => Some(vendor.clone()),
                None => None,
            },
            None => None,
        }
    }
}

proof fn lemma_prefix_bytes(key: Seq<char>)
    requires
        is_oui(key),
    ensures
        encode_utf8(key).len() == 6,
        forall|i: int| 0 <= i < 6 ==> encode_utf8(key)[i] == #[trigger] key[i] as u8,
{
    assert forall|i: int| 0 <= i < key.len() implies '\0' <= #[trigger] key[i] <= '\u{7f}' by {
        assert(is_upper_hex(key[i]));
    }
    is_ascii_chars_encode_utf8(key);
    assert forall|i: int| 0 <= i < key.len() implies encode_utf8(key)[i] == #[trigger] key[i] as u8 by {
    }
}

fn upper_hex_value(c: char) -> (res: Option<u32>)
    ensures
        match res {
            Some(v) => is_upper_hex(c) && v == numerals::hex_value(c) && v < 16,
            None => !is_upper_hex(c),
        },
{
    if '0' <= c && c <= '9' {
        Some(c as u32 - 48)
    } else if 'A' <= c && c <= 'F' {
        Some(c as u32 - 55)
    } else {
        None
    }
}

fn prefix_number(oui: &[char]) -> (res: Option<u32>)
    ensures
        match res {
            Some(n) => is_oui(oui@) && n == oui_number(oui@),
            None => !is_oui(oui@),
        },
{
    if oui.len() != 6 {
        return None;
    }
    match (
        upper_hex_value(oui[0]),
        upper_hex_value(oui[1]),
        upper_hex_value(oui[2]),
        upper_hex_value(oui[3]),
        upper_hex_value(oui[4]),
        upper_hex_value(oui[5]),
    ) {
        (Some(a), Some(b), Some(c), Some(d), Some(e), Some(f)) => Some(
            a * 1048576 + b * 65536 + c * 4096 + d * 256 + e * 16 + f,
        ),
        _ => None,
    }
}

/// Reduces a hardware address to its prefix.
pub fn normalize(mac: &str) -> (res: Option<String>)
    ensures
        match res {
            Some(oui) => normalized(mac@) == Some(oui@),
            None => normalized(mac@) is None,
        },
{
    let chars = chars_of(mac);
    let mut out: Vec<char> = Vec::new();
    let mut i: usize = 0;
    assert(chars@.take(0).len() == 0);
    assert(hex_only(chars@.take(0)).take(0) =~= Seq::<char>::empty());
    assert(numerals::uppered(Seq::<char>::empty()) =~= Seq::<char>::empty());
    while i < chars.len() && out.len() < 6
        invariant
            i <= chars@.len(),
            out@.len() <= 6,
            out@ == numerals::uppered(hex_only(chars@.take(i as int))),
        decreases chars@.len() - i,
    {
        proof {
            assert(chars@.take(i + 1).drop_last() =~= chars@.take(i as int));
            assert(chars@.take(i + 1).last() == chars@[i as int]);
        }
        if is_hex_digit(chars[i]) {
            out.push(to_upper(chars[i]));
            proof {
                let h = hex_only(chars@.take(i as int));
                assert(numerals::uppered(h.push(chars@[i as int])) =~= numerals::uppered(h).push(
                    numerals::upper_char(chars@[i as int]),
                ));
            }
        }
        i = i + 1;
    }
    proof {
        assert(chars@.take(chars@.len() as int) =~= chars@);
        lemma_hex_only_grows(chars@, i as int);
    }
    if out.len() == 6 {
        proof {
            let h = hex_only(chars@.take(i as int));
            assert(hex_only(chars@).take(6) =~= h);
        }
        Some(string_of(&out))
    } else {
        None
    }
}

proof fn lemma_hex_only_grows(s: Seq<char>, i: int)
    requires
        0 <= i <= s.len(),
    ensures
        hex_only(s.take(i)).len() <= hex_only(s).len(),
        hex_only(s).take(hex_only(s.take(i)).len() as int) == hex_only(s.take(i)),
    decreases s.len(),
{
    if i < s.len() {
        let front = s.drop_last();
        assert(front.take(i) =~= s.take(i));
        lemma_hex_only_grows(front, i);
        let n = hex_only(s.take(i)).len() as int;
        assert(hex_only(s).take(n) =~= hex_only(front).take(n));
    } else {
        assert(s.take(i) =~= s);
        assert(hex_only(s).take(hex_only(s).len() as int) =~= hex_only(s));
    }
}

/// The number that two bytes of text spell in hexadecimal. A plus sign may
/// take the place of the first digit.
pub open spec fn octet_of(first: u8, second: u8) -> Option<int> {
    let a = first as char;
    let b = second as char;
    if !numerals::is_hex(b) {
        None
    } else if numerals::is_hex(a) {
        Some(16 * numerals::hex_value(a) + numerals::hex_value(b))
    } else if a == '+' {
        Some(numerals::hex_value(b))
    } else {
        None
    }
}

/// Whether the first octet of a prefix marks it as made up by the device: its
/// second lowest bit is set.
pub open spec fn made_up(bytes: Seq<u8>) -> bool {
    match octet_of(bytes[0], bytes[1]) {
        Some(octet) => octet / 2 % 2 == 1,
        None => false,
    }
}

fn hex_digit(b: u8) -> (res: Option<u8>)
    ensures
        match res {
            Some(v) => numerals::is_hex(b as char) && v == numerals::hex_value(b as char) && v < 16,
            None => !numerals::is_hex(b as char),
        },
{
    if 48 <= b && b <= 57 {
        Some(b - 48)
    } else if 97 <= b && b <= 102 {
        Some(b - 87)
    } else if 65 <= b && b <= 70 {
        Some(b - 55)
    } else {
        None
    }
}

/// Whether the address behind this prefix was made up by the device and says
/// nothing of its maker. The prefix must not end, nor a character of it be
/// cut, before its third byte.
pub fn is_locally_administered(oui: &str) -> (res: bool)
    requires
        is_char_boundary(encode_utf8(oui@), 2),
    ensures
        res == made_up(encode_utf8(oui@)),
{
    proof {
        encode_utf8_valid_utf8(oui@);
    }
    let bytes = oui.as_bytes();
    match hex_digit(bytes[1]) {
        Some(low) => match hex_digit(bytes[0]) {
            Some(high) => (16 * high + low) / 2 % 2 == 1,
            None => bytes[0] == 43 && low / 2 % 2 == 1,
        },
        None => false,
    }
}

/// What is known of the maker of the device with this address.
pub open spec fn maker(registry: OuiRegistry, mac: Seq<char>) -> Option<Seq<char>> {
    match normalized(mac) {
        Some(oui) => if made_up(encode_utf8(oui)) {
            Some("Randomized MAC"@)
        } else {
            registry.vendor_of(oui)
        },
        None => None,
    }
}

proof fn lemma_normalized(mac: Seq<char>)
    ensures
        normalized(mac) matches Some(oui) ==> is_oui(oui),
    decreases mac.len(),
{
    lemma_hex_only(mac);
}

/// Only hexadecimal digits remain.
proof fn lemma_hex_only(s: Seq<char>)
    ensures
        forall|i: int| 0 <= i < hex_only(s).len() ==> numerals::is_hex(#[trigger] hex_only(s)[i]),
    decreases s.len(),
{
    if s.len() > 0 {
        lemma_hex_only(s.drop_last());
        let before = hex_only(s.drop_last());
        assert forall|i: int| 0 <= i < hex_only(s).len() implies numerals::is_hex(
            #[trigger] hex_only(s)[i],
        ) by {
            if i < before.len() {
                assert(hex_only(s)[i] == before[i]);
            }
        }
    }
}

/// Looks the maker of a device up. An address that the device made up is
/// labelled as such.
pub fn lookup(registry: &OuiRegistry, mac: &str) -> (res: Option<String>)
    ensures
        match res {
            Some(vendor) => maker(*registry, mac@) == Some(vendor@),
            None => maker(*registry, mac@) is None,
        },
{
    match normalize(mac) {
        Some(oui) => {
            proof {
                lemma_normalized(mac@);
                lemma_prefix_boundary(oui@);
            }
            if is_locally_administered(oui.as_str()) {
                return Some("Randomized MAC".to_string());
            }
            let chars = chars_of(oui.as_str());
            registry.vendor(&chars)
        },
        None => None,
    }
}

proof fn lemma_prefix_boundary(oui: Seq<char>)
    requires
        is_oui(oui),
    ensures
        is_char_boundary(encode_utf8(oui), 2),
{
    lemma_prefix_bytes(oui);
    encode_utf8_valid_utf8(oui);
    assert(is_upper_hex(oui[2]));
    assert(oui[2] as u8 == encode_utf8(oui)[2]);
    is_char_boundary_iff_not_is_continuation_byte(encode_utf8(oui), 2);
}

/// The case of the digits makes no difference to what is found.
pub proof fn law_case_is_ignored(registry: OuiRegistry, mac: Seq<char>)
    ensures
        maker(registry, numerals::lowered(mac)) == maker(registry, mac),
        maker(registry, numerals::uppered(mac)) == maker(registry, mac),
{
    lemma_hex_of_lowered(mac);
    lemma_hex_of_uppered(mac);
    let h = hex_only(mac);
    if h.len() >= 6 {
        assert(numerals::uppered(numerals::lowered(h).take(6)) =~= numerals::uppered(h.take(6)));
        assert(numerals::uppered(numerals::uppered(h).take(6)) =~= numerals::uppered(h.take(6)));
    }
}

proof fn lemma_hex_of_lowered(s: Seq<char>)
    ensures
        hex_only(numerals::lowered(s)) == numerals::lowered(hex_only(s)),
    decreases s.len(),
{
    if s.len() > 0 {
        lemma_hex_of_lowered(s.drop_last());
        assert(numerals::lowered(s).drop_last() =~= numerals::lowered(s.drop_last()));
        assert(numerals::lowered(s).last() == numerals::lower_char(s.last()));
        assert(numerals::lowered(hex_only(s.drop_last()).push(s.last())) =~= numerals::lowered(
            hex_only(s.drop_last()),
        ).push(numerals::lower_char(s.last())));
    } else {
        assert(numerals::lowered(s) =~= s);
    }
}

proof fn lemma_hex_of_uppered(s: Seq<char>)
    ensures
        hex_only(numerals::uppered(s)) == numerals::uppered(hex_only(s)),
    decreases s.len(),
{
    if s.len() > 0 {
        lemma_hex_of_uppered(s.drop_last());
        assert(numerals::uppered(s).drop_last() =~= numerals::uppered(s.drop_last()));
        assert(numerals::uppered(s).last() == numerals::upper_char(s.last()));
        assert(numerals::uppered(hex_only(s.drop_last()).push(s.last())) =~= numerals::uppered(
            hex_only(s.drop_last()),
        ).push(numerals::upper_char(s.last())));
    } else {
        assert(numerals::uppered(s) =~= s);
    }
}

/// What separates the digits makes no difference either: any character that is
/// no digit can be dropped.
pub proof fn law_separators_are_ignored(
    registry: OuiRegistry,
    front: Seq<char>,
    separator: char,
    back: Seq<char>,
)
    requires
        !numerals::is_hex(separator),
    ensures
        maker(registry, front + seq![separator] + back) == maker(registry, front + back),
    decreases back.len(),
{
    lemma_hex_across(front, separator, back);
}

proof fn lemma_hex_across(front: Seq<char>, separator: char, back: Seq<char>)
    requires
        !numerals::is_hex(separator),
    ensures
        hex_only(front + seq![separator] + back) == hex_only(front + back),
    decreases back.len(),
{
    let with = front + seq![separator] + back;
    if back.len() == 0 {
        assert(with.drop_last() =~= front);
        assert(front + back =~= front);
    } else {
        lemma_hex_across(front, separator, back.drop_last());
        assert(with.drop_last() =~= front + seq![separator] + back.drop_last());
        assert((front + back).drop_last() =~= front + back.drop_last());
    }
}

/// An address whose second digit has its second lowest bit set was made up by
/// the device, and is labelled so whatever the registry holds.
pub proof fn law_made_up_address_is_labelled(registry: OuiRegistry, mac: Seq<char>)
    requires
        hex_only(mac).len() >= 6,
        numerals::hex_value(hex_only(mac)[1]) / 2 % 2 == 1,
    ensures
        maker(registry, mac) == Some("Randomized MAC"@),
{
    lemma_hex_only(mac);
    lemma_normalized(mac);
    let oui = normalized(mac)->0;
    lemma_prefix_bytes(oui);
    assert(numerals::is_hex(hex_only(mac)[0]) && numerals::is_hex(hex_only(mac)[1]));
    assert(is_upper_hex(oui[0]) && is_upper_hex(oui[1]));
    assert(oui[0] as u8 == encode_utf8(oui)[0]);
    assert(oui[1] as u8 == encode_utf8(oui)[1]);
    assert(numerals::hex_value(oui[1]) == numerals::hex_value(hex_only(mac)[1]));
}

/// An address whose second digit has its second lowest bit clear was given out
/// by a maker: the maker is the one that the registry has for its first six
/// digits, in upper case. So an address is labelled as made up by that bit alone.
pub proof fn law_given_address_has_its_maker(registry: OuiRegistry, mac: Seq<char>)
    requires
        hex_only(mac).len() >= 6,
        ({
            let d = hex_only(mac)[1];
            d == '0' || d == '1' || d == '4' || d == '5' || d == '8' || d == '9' || d == 'c' || d
                == 'd' || d == 'C' || d == 'D'
        }),
    ensures
        maker(registry, mac) == registry.vendor_of(numerals::uppered(hex_only(mac).take(6))),
{
    lemma_hex_only(mac);
    lemma_normalized(mac);
    let oui = normalized(mac)->0;
    lemma_prefix_bytes(oui);
    assert(numerals::is_hex(hex_only(mac)[0]) && numerals::is_hex(hex_only(mac)[1]));
    assert(is_upper_hex(oui[0]) && is_upper_hex(oui[1]));
    assert(oui[0] as u8 == encode_utf8(oui)[0]);
    assert(oui[1] as u8 == encode_utf8(oui)[1]);
    assert(numerals::hex_value(oui[1]) == numerals::hex_value(hex_only(mac)[1]));
}

/// An address with one of the other digits in second place is made up.
pub proof fn law_made_up_digits(registry: OuiRegistry, mac: Seq<char>)
    requires
        hex_only(mac).len() >= 6,
        ({
            let d = hex_only(mac)[1];
            !(d == '0' || d == '1' || d == '4' || d == '5' || d == '8' || d == '9' || d == 'c' || d
                == 'd' || d == 'C' || d == 'D')
        }),
    ensures
        maker(registry, mac) == Some("Randomized MAC"@),
{
    lemma_hex_only(mac);
    assert(numerals::is_hex(hex_only(mac)[1]));
    law_made_up_address_is_labelled(registry, mac);
}

/// The digits of an address are all that counts of it: they stay, in order, and
/// a text with less than six has no maker.
pub proof fn law_digits_of_address(registry: OuiRegistry, digits: Seq<char>)
    requires
        forall|i: int|
            0 <= i < digits.len() ==> '0' <= #[trigger] digits[i] <= '9' || 'a' <= digits[i] <= 'f'
                || 'A' <= digits[i] <= 'F',
    ensures
        hex_only(digits) == digits,
        digits.len() < 6 ==> maker(registry, digits) is None && normalized(digits) is None,
        digits.len() >= 6 ==> normalized(digits) == Some(numerals::uppered(digits.take(6))),
    decreases digits.len(),
{
    if digits.len() > 0 {
        let front = digits.drop_last();
        assert forall|i: int| 0 <= i < front.len() implies '0' <= #[trigger] front[i] <= '9' || 'a'
            <= front[i] <= 'f' || 'A' <= front[i] <= 'F' by {
            assert(front[i] == digits[i]);
        }
        law_digits_of_address(registry, front);
        assert(numerals::is_hex(digits[digits.len() - 1]));
        assert(front.push(digits.last()) =~= digits);
    }
}

/// What an octet of two digits is worth, and that its bit for two marks a made-up
/// address.
pub proof fn law_made_up_bit(high: u8, low: u8, bytes: Seq<u8>)
    requires
        high < 16,
        low < 16,
        bytes.len() >= 2,
        bytes[0] == (if high < 10 {
            48 + high
        } else {
            55 + high
        }),
        bytes[1] == (if low < 10 {
            48 + low
        } else {
            55 + low
        }),
    ensures
        made_up(bytes) <==> low == 2 || low == 3 || low == 6 || low == 7 || low == 10 || low == 11
            || low == 14 || low == 15,
{
}

/// A line of the registry with a prefix, a tab and a vendor says that the prefix
/// is the vendor's; white space around either does not count.
pub proof fn law_line_says_vendor(key: Seq<char>, vendor: Seq<char>)
    requires
        key.len() == 6,
        is_ascii_chars(key),
        forall|i: int| 0 <= i < 6 ==> !text::is_space(#[trigger] key[i]),
        vendor.len() > 0,
        !text::is_space(vendor[0]),
        !text::is_space(vendor[vendor.len() - 1]),
    ensures
        entry_of(key + seq!['\t'] + vendor) == Some((key, vendor)),
        entry_of(key + seq!['\t']) is None,
        entry_of(key) is None,
        entry_of(key.drop_last() + seq!['\t'] + vendor) is None,
{
    let none = Seq::<char>::empty();
    is_ascii_chars_encode_utf8(key);
    lemma_tab(key, vendor);
    text::law_trim_around(none, key, none);
    assert(none + key + none =~= key);
    text::law_trim_around(none, vendor, none);
    assert(none + vendor + none =~= vendor);
    lemma_tab(key, none);
    assert(key + seq!['\t'] + none =~= key + seq!['\t']);
    text::lemma_first_from(key, seq!['\t'], 0);
    match text::first_at(key, seq!['\t']) {
        Some(k) => {
            assert(key.subrange(k, k + 1)[0] == '\t');
            assert(!text::is_space(key[k]));
        },
        None => {},
    }
    let short = key.drop_last();
    assert forall|i: int| 0 <= i < short.len() implies !text::is_space(#[trigger] short[i]) && '\0'
        <= short[i] <= '\u{7f}' by {
        assert(short[i] == key[i]);
    }
    is_ascii_chars_encode_utf8(short);
    lemma_tab(short, vendor);
    text::law_trim_around(none, short, none);
    assert(none + short + none =~= short);
}

proof fn lemma_tab(key: Seq<char>, vendor: Seq<char>)
    requires
        forall|i: int| 0 <= i < key.len() ==> !text::is_space(#[trigger] key[i]),
    ensures
        ({
            let line = key + seq!['\t'] + vendor;
            &&& text::first_at(line, seq!['\t']) == Some(key.len() as int)
            &&& line.take(key.len() as int) == key
            &&& line.skip(key.len() as int + 1) == vendor
        }),
{
    let line = key + seq!['\t'] + vendor;
    let n = key.len() as int;
    if key.contains('\t') {
        let k = key.index_of('\t');
        assert(!text::is_space(key[k]));
    }
    text::lemma_char_found(key, '\t', vendor);
    assert(line.take(n) =~= key);
    assert(line.skip(n + 1) =~= vendor);
}

/// The last line for a prefix counts, and lines for others or of another shape
/// make no difference to it.
pub proof fn law_last_line_counts(
    lines: Seq<Seq<char>>,
    line: Seq<char>,
    key: Seq<char>,
    vendor: Seq<char>,
    oui: Seq<char>,
)
    ensures
        entry_of(line) == Some((key, vendor)) ==> vendor_in(lines.push(line), key) == Some(vendor),
        entry_of(line) == Some((key, vendor)) && oui != key ==> vendor_in(lines.push(line), oui)
            == vendor_in(lines, oui),
        entry_of(line) is None ==> vendor_in(lines.push(line), oui) == vendor_in(lines, oui),
        vendor_in(Seq::<Seq<char>>::empty(), oui) is None,
{
    assert(lines.push(line).drop_last() =~= lines);
}

/// A plus sign counts as no digit where a prefix begins with one; where a prefix
/// begins with neither, or goes on with no digit, nothing marks it.
pub proof fn law_marks_of_odd_prefixes(bytes: Seq<u8>, low: u8)
    requires
        bytes.len() >= 2,
        low < 16,
    ensures
        bytes[0] == 43 && bytes[1] == (if low < 10 {
            48 + low
        } else {
            87 + low
        }) ==> (made_up(bytes) <==> low == 2 || low == 3 || low == 6 || low == 7 || low == 10 || low
            == 11 || low == 14 || low == 15),
        bytes[0] < 43 || 43 < bytes[0] < 48 || 57 < bytes[0] < 65 || 70 < bytes[0] < 97 || 102
            < bytes[0] ==> !made_up(bytes),
        bytes[1] < 48 || 57 < bytes[1] < 65 || 70 < bytes[1] < 97 || 102 < bytes[1] ==> !made_up(
            bytes,
        ),
{
}

/// Only six digits, with letters in upper case, can have a vendor.
pub proof fn law_only_prefixes_have_vendors(registry: OuiRegistry, oui: Seq<char>, i: int)
    requires
        oui.len() != 6 || 0 <= i < 6 && !('0' <= oui[i] <= '9') && !('A' <= oui[i] <= 'F'),
    ensures
        registry.vendor_of(oui) is None,
{
}

}
