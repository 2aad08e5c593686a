//! What the answer to an ICMP echo tells of a host: how far away it is, and what
//! system it may run.

use crate::numerals;
use crate::numerals::{lower_chars, read_number};
use crate::storage;
use crate::text;
use crate::text::{chars_of, find, lines, split_on, stands_at, words};
use crate::unicode;
use crate::unicode::from_utf8_lossy;
use vstd::prelude::*;
use vstd::slice::slice_subrange;
use vstd::utf8::*;

verus! {

/// What stands behind `key` in the first word from `i` on that begins with it.
pub open spec fn field_from(words: Seq<Seq<char>>, key: Seq<char>, i: int) -> Option<Seq<char>>
    decreases words.len() - i,
{
    if i >= words.len() {
        None
    } else if text::begins_with(words[i], key) {
        Some(words[i].skip(key.len() as int))
    } else {
        field_from(words, key, i + 1)
    }
}

/// The time to live and the round trip in whole milliseconds on a line that
/// reports the answer to an echo, such as `64 bytes from 10.0.0.1: icmp_seq=1
/// ttl=64 time=2.31 ms`.
pub open spec fn echo_on(line: Seq<char>) -> Option<(u8, u32)> {
    let parts = text::word_seq(line);
    match (field_from(parts, "ttl="@, 0), field_from(parts, "time="@, 0)) {
        (Some(ttl), Some(time)) => match (
            numerals::number_in(ttl),
            numerals::number_in(text::pieces(time, '.')[0]),
        ) {
            (Some(t), Some(ms)) => if t <= u8::MAX {
                Some((t as u8, ms as u32))
            } else {
                None
            },
            _ => None,
        },
        _ => None,
    }
}

/// The first answer to an echo that the lines from `i` on report.
pub open spec fn echo_from(lines: Seq<Seq<char>>, i: int) -> Option<(u8, u32)>
    decreases lines.len() - i,
{
    if i >= lines.len() {
        None
    } else if echo_on(lines[i]) is Some {
        echo_on(lines[i])
    } else {
        echo_from(lines, i + 1)
    }
}

fn find_field<'a>(parts: &Vec<&'a [char]>, key: &[char]) -> (res: Option<&'a [char]>)
    ensures
        match res {
            Some(field) => field_from(text::views(parts@), key@, 0) == Some(field@),
            None => field_from(text::views(parts@), key@, 0) is None,
        },
{
    let ghost all = text::views(parts@);
    let mut i: usize = 0;
    while i < parts.len()
        invariant
            i <= parts@.len(),
            all == text::views(parts@),
            field_from(all, key@, i as int) == field_from(all, key@, 0),
        decreases parts@.len() - i,
    {
        let word = parts[i];
        assert(all[i as int] == word@);
        if stands_at(word, key, 0) {
            let field = slice_subrange(word, key.len(), word.len());
            assert(field@ =~= word@.skip(key@.len() as int));
            return Some(field);
        }
        i = i + 1;
    }
    None
}

fn read_line(line: &[char]) -> (res: Option<(u8, u32)>)
    ensures
        res == echo_on(line@),
{
    let parts = words(line);
    let ttl = match find_field(&parts, &chars_of("ttl=")) {
        Some(field) => field,
        None => {
            return None;
        },
    };
    let time = match find_field(&parts, &chars_of("time=")) {
        Some(field) => field,
        None => {
            return None;
        },
    };
    let pieces = split_on(time, '.');
    let whole = pieces[0];
    assert(text::views(pieces@)[0] == whole@);
    match (read_number(ttl), read_number(whole)) {
        (Some(t), Some(ms)) => if t <= 255 {
            Some((t as u8, ms))
        } else {
            None
        },
        _ => None,
    }
}

/// Reads the time to live and the round trip of an answer in what `ping` printed.
pub fn read_echo(output: &[u8]) -> (res: Option<(u8, u32)>)
    ensures
        res == echo_from(text::line_seq(unicode::lossy_text(output@)), 0),
        valid_utf8(output@) ==> res == echo_from(text::line_seq(decode_utf8(output@)), 0),
{
    let printed = from_utf8_lossy(output);
    let chars = chars_of(printed.as_str());
    let all = lines(&chars);
    let ghost seqs = text::line_seq(printed@);
    let mut i: usize = 0;
    while i < all.len()
        invariant
            i <= all@.len(),
            text::views(all@) == seqs,
            seqs == text::line_seq(unicode::lossy_text(output@)),
            valid_utf8(output@) ==> unicode::lossy_text(output@) == decode_utf8(output@),
            echo_from(seqs, i as int) == echo_from(seqs, 0),
        decreases all@.len() - i,
    {
        let line = all[i];
        assert(seqs[i as int] == line@);
        let found = read_line(line);
        if found.is_some() {
            return found;
        }
        i = i + 1;
    }
    None
}

/// Names in those of the makers of Apple's devices.
pub open spec fn apple_makers() -> Seq<Seq<char>> {
    seq!["apple"@]
}

/// Names in those of the makers of phones.
pub open spec fn phone_makers() -> Seq<Seq<char>> {
    seq![
        "samsung"@,
        "xiaomi"@,
        "oppo"@,
        "vivo"@,
        "realme"@,
        "oneplus"@,
        "motorola"@,
        "google"@,
    ]
}

/// Names in those of the makers of routers and of things.
pub open spec fn thing_makers() -> Seq<Seq<char>> {
    seq![
        "tp-link"@,
        "d-link"@,
        "netgear"@,
        "mikrotik"@,
        "routerboard"@,
        "ubiquiti"@,
        "zte"@,
        "espressif"@,
        "tuya"@,
    ]
}

/// The ports of AirPlay.
pub open spec fn apple_ports() -> Seq<u16> {
    seq![7000]
}

/// The ports of the Android debug bridge.
pub open spec fn phone_ports() -> Seq<u16> {
    seq![5555]
}

/// The ports of telnet, name servers, printers and message brokers.
pub open spec fn thing_ports() -> Seq<u16> {
    seq![23, 53, 631, 1883, 9100]
}

/// Whether `name` holds one of these.
pub open spec fn holds_any(name: Seq<char>, makers: Seq<Seq<char>>) -> bool {
    exists|i: int|
        0 <= i < makers.len() && text::first_at(name, #[trigger] makers[i]) is Some
}

/// Whether the name of a vendor holds one of these, in whatever case.
pub open spec fn made_by(vendor: Option<Seq<char>>, makers: Seq<Seq<char>>) -> bool {
    match vendor {
        Some(name) => holds_any(numerals::lowered(name), makers),
        None => false,
    }
}

/// Whether one of these ports is open.
pub open spec fn any_open(ports: Seq<u16>, wanted: Seq<u16>) -> bool {
    exists|i: int| 0 <= i < wanted.len() && ports.contains(#[trigger] wanted[i])
}

/// The system that a host may run. The time to live of its answer decides first:
/// Windows begins at 128, network gear at 255, the others at 64. Those are told
/// apart by the vendor and by the open ports. Without an answer there is no
/// guess.
pub open spec fn os_of(ttl: Option<u8>, ports: Seq<u16>, vendor: Option<Seq<char>>) -> Option<
    Seq<char>,
> {
    match ttl {
        None => None,
        Some(t) => Some(
            if t > 128 {
                "Router\u{b7}IoT"@
            } else if t > 64 {
                "Windows"@
            } else if made_by(vendor, apple_makers()) || any_open(ports, apple_ports()) {
                "Apple"@
            } else if made_by(vendor, phone_makers()) || any_open(ports, phone_ports()) {
                "Android"@
            } else if made_by(vendor, thing_makers()) || any_open(ports, thing_ports()) {
                "Router\u{b7}IoT"@
            } else {
                "Linux"@
            },
        ),
    }
}

/// What each text holds.
pub open spec fn names_of(texts: Seq<&str>) -> Seq<Seq<char>> {
    texts.map_values(|s: &str| s@)
}

fn is_made_by(vendor: Option<&str>, makers: &[&str]) -> (res: bool)
    ensures
        res == made_by(text::held(vendor), names_of(makers@)),
{
    let name = match vendor {
        Some(name) => lower_chars(&chars_of(name)),
        None => {
            return false;
        },
    };
    let ghost all = names_of(makers@);
    let mut i: usize = 0;
    while i < makers.len()
        invariant
            i <= makers@.len(),
            all == names_of(makers@),
            made_by(text::held(vendor), all) == holds_any(name@, all),
            forall|j: int| 0 <= j < i ==> text::first_at(name@, #[trigger] all[j]) is None,
        decreases makers@.len() - i,
    {
        assert(all[i as int] == makers@[i as int]@);
        if find(&name, &chars_of(makers[i])).is_some() {
            return true;
        }
        i = i + 1;
    }
    false
}

fn is_any_open(ports: &Vec<u16>, wanted: &[u16]) -> (res: bool)
    ensures
        res == any_open(ports@, wanted@),
{
    let mut i: usize = 0;
    while i < wanted.len()
        invariant
            i <= wanted@.len(),
            forall|j: int| 0 <= j < i ==> !ports@.contains(#[trigger] wanted@[j]),
        decreases wanted@.len() - i,
    {
        let mut k: usize = 0;
        while k < ports.len()
            invariant
                k <= ports@.len(),
                i < wanted@.len(),
                forall|j: int| 0 <= j < k ==> #[trigger] ports@[j] != wanted@[i as int],
            decreases ports@.len() - k,
        {
            if ports[k] == wanted[i] {
                assert(ports@.contains(wanted@[i as int]));
                return true;
            }
            k = k + 1;
        }
        i = i + 1;
    }
    false
}

/// Guesses the system that a host runs, from the time to live of its answer to
/// an echo, its open ports and its vendor.
pub fn guess_os(ttl: Option<u8>, ports: &Vec<u16>, vendor: Option<&str>) -> (res: Option<String>)
    ensures
        storage::text_of(res) == os_of(ttl, ports@, text::held(vendor)),
{
    let t = match ttl {
        Some(t) => t,
        None => {
            return None;
        },
    };
    let apple: [&str; 1] = ["apple"];
    let phones: [&str; 8] = [
        "samsung", "xiaomi", "oppo", "vivo", "realme", "oneplus", "motorola", "google",
    ];
    let things: [&str; 9] = [
        "tp-link", "d-link", "netgear", "mikrotik", "routerboard", "ubiquiti", "zte", "espressif",
        "tuya",
    ];
    let apple_open: [u16; 1] = [7000];
    let phone_open: [u16; 1] = [5555];
    let thing_open: [u16; 5] = [23, 53, 631, 1883, 9100];
    proof {
        assert(apple_open@ =~= apple_ports());
        assert(phone_open@ =~= phone_ports());
        assert(thing_open@ =~= thing_ports());
        assert(names_of(apple@) =~= apple_makers());
        assert(names_of(phones@) =~= phone_makers());
        assert(names_of(things@) =~= thing_makers());
    }
    let guess = if t > 128 {
        "Router\u{b7}IoT"
    } else if t > 64 {
        "Windows"
    } else if is_made_by(vendor, &apple) || is_any_open(ports, &apple_open) {
        "Apple"
    } else if is_made_by(vendor, &phones) || is_any_open(ports, &phone_open) {
        "Android"
    } else if is_made_by(vendor, &things) || is_any_open(ports, &thing_open) {
        "Router\u{b7}IoT"
    } else {
        "Linux"
    };
    Some(guess.to_string())
}

/// There is a guess exactly where there is a time to live, and it is one of five.
pub proof fn law_guess_is_one_of_five(ttl: Option<u8>, ports: Seq<u16>, vendor: Option<Seq<char>>)
    ensures
        os_of(ttl, ports, vendor) is Some <==> ttl is Some,
        os_of(ttl, ports, vendor) matches Some(guess) ==> {
            ||| guess == "Windows"@
            ||| guess == "Linux"@
            ||| guess == "Apple"@
            ||| guess == "Android"@
            ||| guess == "Router\u{b7}IoT"@
        },
{
}

proof fn lemma_field(words: Seq<Seq<char>>, key: Seq<char>, i: int, k: int)
    requires
        0 <= i <= k < words.len(),
        forall|j: int| i <= j < k ==> !text::begins_with(#[trigger] words[j], key),
        text::begins_with(words[k], key),
    ensures
        field_from(words, key, i) == Some(words[k].skip(key.len() as int)),
    decreases k - i,
{
    if i < k {
        assert(!text::begins_with(words[i], key));
        lemma_field(words, key, i + 1, k);
    }
}

/// A line that reports an answer tells the time to live behind `ttl=` and the
/// whole milliseconds behind `time=`, whatever else stands on it.
pub proof fn law_echo_line(
    line: Seq<char>,
    ttl: u8,
    ms: u32,
    fraction: Seq<char>,
    i: int,
    j: int,
)
    requires
        0 <= i < text::word_seq(line).len(),
        0 <= j < text::word_seq(line).len(),
        text::word_seq(line)[i] == "ttl="@ + numerals::decimal(ttl as nat),
        forall|k: int| 0 <= k < i ==> !text::begins_with(#[trigger] text::word_seq(line)[k], "ttl="@),
        text::word_seq(line)[j] == "time="@ + numerals::decimal(ms as nat) + fraction,
        forall|k: int|
            0 <= k < j ==> !text::begins_with(#[trigger] text::word_seq(line)[k], "time="@),
        fraction.len() > 0 ==> fraction[0] == '.',
    ensures
        echo_on(line) == Some((ttl, ms)),
{
    let words = text::word_seq(line);
    reveal_strlit("ttl=");
    reveal_strlit("time=");
    let t = numerals::decimal(ttl as nat);
    let m = numerals::decimal(ms as nat);
    assert(words[i].subrange(0, 4) =~= "ttl="@);
    assert(words[i].skip(4) =~= t);
    lemma_field(words, "ttl="@, 0, i);
    assert(words[j].subrange(0, 5) =~= "time="@);
    assert(words[j].skip(5) =~= m + fraction);
    lemma_field(words, "time="@, 0, j);
    numerals::law_decimal_reads_back(ttl as nat);
    numerals::law_decimal_reads_back(ms as nat);
    assert forall|k: int| 0 <= k < m.len() implies #[trigger] m[k] != '.' by {
        assert('0' <= m[k] <= '9');
    }
    text::lemma_one_piece(m, '.');
    if fraction.len() > 0 {
        let rest = fraction.drop_first();
        assert(m + fraction =~= m + seq!['.'] + rest);
        text::lemma_pieces_across(m, rest, '.');
        assert((seq![m] + text::pieces(rest, '.'))[0] == m);
    } else {
        assert(m + fraction =~= m);
    }
}

/// The first line that reports an answer counts.
pub proof fn law_first_echo_counts(lines: Seq<Seq<char>>, i: int, k: int)
    requires
        0 <= i <= k <= lines.len(),
        forall|j: int| i <= j < k ==> echo_on(#[trigger] lines[j]) is None,
        k < lines.len() ==> echo_on(lines[k]) is Some,
    ensures
        echo_from(lines, i) == (if k < lines.len() {
            echo_on(lines[k])
        } else {
            None
        }),
    decreases k - i,
{
    if i < k {
        assert(echo_on(lines[i]) is None);
        law_first_echo_counts(lines, i + 1, k);
    }
}

/// How the time to live tells systems apart: above 128 network gear answers, above
/// 64 Windows, whoever made the device and whatever ports are open.
pub proof fn law_time_to_live_decides(ttl: u8, ports: Seq<u16>, vendor: Option<Seq<char>>)
    ensures
        ttl > 128 ==> os_of(Some(ttl), ports, vendor) == Some("Router\u{b7}IoT"@),
        64 < ttl <= 128 ==> os_of(Some(ttl), ports, vendor) == Some("Windows"@),
        ttl <= 64 && ports.len() == 0 && vendor is None ==> os_of(Some(ttl), ports, vendor) == Some(
            "Linux"@,
        ),
{
    assert(ports.len() == 0 ==> !any_open(ports, apple_ports()) && !any_open(ports, phone_ports())
        && !any_open(ports, thing_ports()));
}

/// At 64 and below a device of Apple's is told by its vendor, in whatever case, or
/// by the port of AirPlay; a phone by its port for debugging.
pub proof fn law_vendor_and_ports_decide(
    ttl: u8,
    ports: Seq<u16>,
    front: Seq<char>,
    back: Seq<char>,
)
    requires
        ttl <= 64,
    ensures
        os_of(Some(ttl), ports, Some(front + "Apple"@ + back)) == Some("Apple"@),
        ports.contains(7000) ==> os_of(Some(ttl), ports, None) == Some("Apple"@),
        !ports.contains(7000) && ports.contains(5555) ==> os_of(Some(ttl), ports, None) == Some(
            "Android"@,
        ),
        !ports.contains(7000) && !ports.contains(5555) && ports.contains(53) ==> os_of(
            Some(ttl),
            ports,
            None,
        ) == Some("Router\u{b7}IoT"@),
{
    reveal_strlit("Apple");
    reveal_strlit("apple");
    let name = front + "Apple"@ + back;
    let lower = numerals::lowered(name);
    let n = front.len() as int;
    assert(lower.subrange(n, n + 5) =~= "apple"@);
    assert(text::occurs_at(lower, "apple"@, n));
    text::lemma_first_from(lower, "apple"@, 0);
    assert(apple_makers()[0] == "apple"@);
    assert(holds_any(lower, apple_makers()));
    assert(apple_ports()[0] == 7000);
    assert(phone_ports()[0] == 5555);
    assert(thing_ports()[1] == 53);
    if any_open(ports, apple_ports()) {
        let i = choose|i: int|
            0 <= i < apple_ports().len() && ports.contains(#[trigger] apple_ports()[i]);
        assert(ports.contains(7000));
    }
    if any_open(ports, phone_ports()) {
        let i = choose|i: int|
            0 <= i < phone_ports().len() && ports.contains(#[trigger] phone_ports()[i]);
        assert(ports.contains(5555));
    }
}

/// What the vendor says of a device that answers at 64 or below and has no port
/// open that tells: a name of Apple's, then one of those who make phones, then one
/// of those who make network gear and small things.
pub proof fn law_vendor_decides(ttl: u8, name: Seq<char>)
    requires
        ttl <= 64,
    ensures
        ({
            let s = numerals::lowered(name);
            let apple = text::first_at(s, "apple"@) is Some;
            let phone = text::first_at(s, "samsung"@) is Some || text::first_at(
                s,
                "xiaomi"@,
            ) is Some || text::first_at(s, "oppo"@) is Some || text::first_at(s, "vivo"@) is Some
                || text::first_at(s, "realme"@) is Some || text::first_at(s, "oneplus"@) is Some
                || text::first_at(s, "motorola"@) is Some || text::first_at(s, "google"@) is Some;
            let thing = text::first_at(s, "tp-link"@) is Some || text::first_at(
                s,
                "d-link"@,
            ) is Some || text::first_at(s, "netgear"@) is Some || text::first_at(
                s,
                "mikrotik"@,
            ) is Some || text::first_at(s, "routerboard"@) is Some || text::first_at(
                s,
                "ubiquiti"@,
            ) is Some || text::first_at(s, "zte"@) is Some || text::first_at(s, "espressif"@) is Some
                || text::first_at(s, "tuya"@) is Some;
            let guess = os_of(Some(ttl), Seq::<u16>::empty(), Some(name));
            &&& apple ==> guess == Some("Apple"@)
            &&& !apple && phone ==> guess == Some("Android"@)
            &&& !apple && !phone && thing ==> guess == Some("Router\u{b7}IoT"@)
            &&& !apple && !phone && !thing ==> guess == Some("Linux"@)
        }),
{
    let s = numerals::lowered(name);
    let none = Seq::<u16>::empty();
    assert(!any_open(none, apple_ports()) && !any_open(none, phone_ports()) && !any_open(
        none,
        thing_ports(),
    ));
    let a = apple_makers();
    let p = phone_makers();
    let t = thing_makers();
    assert(a[0] == "apple"@);
    assert(p[0] == "samsung"@ && p[1] == "xiaomi"@ && p[2] == "oppo"@ && p[3] == "vivo"@);
    assert(p[4] == "realme"@ && p[5] == "oneplus"@ && p[6] == "motorola"@ && p[7] == "google"@);
    assert(t[0] == "tp-link"@ && t[1] == "d-link"@ && t[2] == "netgear"@ && t[3] == "mikrotik"@);
    assert(t[4] == "routerboard"@ && t[5] == "ubiquiti"@ && t[6] == "zte"@);
    assert(t[7] == "espressif"@ && t[8] == "tuya"@);
    assert(p.len() == 8 && t.len() == 9);
}

/// What the open ports say of such a device where its vendor is not known.
pub proof fn law_ports_decide(ttl: u8, ports: Seq<u16>)
    requires
        ttl <= 64,
    ensures
        ({
            let thing = ports.contains(23) || ports.contains(53) || ports.contains(631)
                || ports.contains(1883) || ports.contains(9100);
            let guess = os_of(Some(ttl), ports, None);
            &&& ports.contains(7000) ==> guess == Some("Apple"@)
            &&& !ports.contains(7000) && ports.contains(5555) ==> guess == Some("Android"@)
            &&& !ports.contains(7000) && !ports.contains(5555) && thing ==> guess == Some(
                "Router\u{b7}IoT"@,
            )
            &&& !ports.contains(7000) && !ports.contains(5555) && !thing ==> guess == Some("Linux"@)
        }),
{
    let t = thing_ports();
    assert(apple_ports()[0] == 7000 && phone_ports()[0] == 5555);
    assert(t[0] == 23 && t[1] == 53 && t[2] == 631 && t[3] == 1883 && t[4] == 9100);
}

}
