//! The title of a web page, as a name for the device that serves it.

use crate::numerals;
use crate::text;
use crate::text::{chars_of, find, join, push_all, string_of, words};
use crate::unicode;
use crate::unicode::{from_utf8_lossy, to_lowercase};
use vstd::prelude::*;
use vstd::slice::slice_subrange;
use vstd::string::*;
use vstd::utf8::*;

verus! {

/// The ports on which a web server is asked for its title.
pub open spec fn is_http_port(port: u16) -> bool {
    port == 80 || port == 8080 || port == 8000 || port == 8888 || port == 8008 || port == 8081
        || port == 5000 || port == 7000 || port == 32400
}

/// Whether a web server on this port is asked for its title.
pub fn serves_pages(port: u16) -> (res: bool)
    ensures
        res == is_http_port(port),
{
    port == 80 || port == 8080 || port == 8000 || port == 8888 || port == 8008 || port == 8081
        || port == 5000 || port == 7000 || port == 32400
}

/// A page is read no further once it is longer than this.
pub const MAX_PAGE_BYTES: usize = 8192;

/// The longest title that is shown.
pub const MAX_TITLE_CHARS: usize = 80;

/// The request that asks a host for its front page.
pub open spec fn page_request(ip: Seq<char>) -> Seq<char> {
    "GET / HTTP/1.0\r\nHost: "@ + ip
        + "\r\nUser-Agent: netscanner/0.1\r\nConnection: close\r\n\r\n"@
}

/// Writes the request for the front page of `ip`.
pub fn title_request(ip: &str) -> (res: String)
    ensures
        res@ == page_request(ip@),
{
    let mut out = chars_of("GET / HTTP/1.0\r\nHost: ");
    push_all(&mut out, &chars_of(ip));
    push_all(&mut out, &chars_of("\r\nUser-Agent: netscanner/0.1\r\nConnection: close\r\n\r\n"));
    string_of(&out)
}

/// Adds what one read brought, and tells whether to read on: an empty read
/// ends the page, and so does one that makes it long enough.
pub fn take_chunk(page: &mut Vec<u8>, chunk: &[u8]) -> (more: bool)
    ensures
        final(page)@ == old(page)@ + chunk@,
        more == (chunk@.len() > 0 && old(page)@.len() + chunk@.len() <= 8192),
{
    push_all(page, chunk);
    chunk.len() > 0 && page.len() <= MAX_PAGE_BYTES
}

/// Where the text of the title begins in `body`: behind the tag that opens it.
/// The tag is looked for in `lower`, the page in lower case, and its end in the
/// page itself.
pub open spec fn title_start(body: Seq<u8>, lower: Seq<u8>) -> Option<int> {
    match text::first_at(lower, encode_utf8("<title"@)) {
        Some(tag) => match text::first_at(body.skip(tag), encode_utf8(">"@)) {
            Some(bracket) => Some(tag + bracket + 1),
            None => None,
        },
        None => None,
    }
}

/// How long the text of the title is.
pub open spec fn title_len(lower: Seq<u8>, start: int) -> Option<int> {
    text::first_at(lower.skip(start), encode_utf8("</title>"@))
}

/// Whether the places that are found in the one text lie between two
/// characters of the other. A letter that takes more bytes in lower case than
/// it does in upper case can shift them.
pub open spec fn aligned(body: Seq<u8>, lower: Seq<u8>) -> bool {
    match text::first_at(lower, encode_utf8("<title"@)) {
        Some(tag) => {
            &&& is_char_boundary(body, tag)
            &&& match title_start(body, lower) {
                Some(start) => {
                    &&& is_char_boundary(lower, start)
                    &&& match title_len(lower, start) {
                        Some(n) => is_char_boundary(body, start + n),
                        None => true,
                    }
                },
                None => true,
            }
        },
        None => true,
    }
}

/// A title as it is shown: runs of white space count as one blank, and no more
/// than its first characters are kept.
pub open spec fn shown_title(raw: Seq<char>) -> Option<Seq<char>> {
    let clean = text::joined(text::word_seq(raw), seq![' ']);
    if clean.len() == 0 {
        None
    } else if clean.len() > MAX_TITLE_CHARS {
        Some(clean.take(MAX_TITLE_CHARS as int))
    } else {
        Some(clean)
    }
}

/// The title in a page, given the page and the page in lower case.
pub open spec fn title_in(body: Seq<char>, lower: Seq<char>) -> Option<Seq<char>> {
    match title_start(encode_utf8(body), encode_utf8(lower)) {
        Some(start) => match title_len(encode_utf8(lower), start) {
            Some(n) => shown_title(decode_utf8(encode_utf8(body).subrange(start, start + n))),
            None => None,
        },
        None => None,
    }
}

fn show_title(raw: &[char]) -> (res: Option<String>)
    ensures
        match res {
            Some(t) => shown_title(raw@) == Some(t@),
            None => shown_title(raw@) is None,
        },
{
    let clean = join(&words(raw), ' ');
    if clean.len() == 0 {
        None
    } else if clean.len() > MAX_TITLE_CHARS {
        let cut = slice_subrange(&clean, 0, MAX_TITLE_CHARS);
        assert(cut@ =~= clean@.take(MAX_TITLE_CHARS as int));
        Some(string_of(cut))
    } else {
        Some(string_of(&clean))
    }
}

proof fn lemma_literals()
    ensures
        encode_utf8("<title"@).len() == 6,
        encode_utf8(">"@) == seq![0x3eu8],
        encode_utf8("</title>"@).len() == 8,
{
    reveal_strlit("<title");
    reveal_strlit(">");
    reveal_strlit("</title>");
    is_ascii_chars_encode_utf8("<title"@);
    is_ascii_chars_encode_utf8(">"@);
    is_ascii_chars_encode_utf8("</title>"@);
    assert(">"@[0] as u8 == 0x3eu8);
    assert(encode_utf8(">"@) =~= seq![0x3eu8]);
}

/// The text behind the bracket begins between two characters of the page.
proof fn lemma_title_start(body: Seq<u8>, lower: Seq<u8>)
    requires
        valid_utf8(body),
        aligned(body, lower),
        title_start(body, lower) is Some,
    ensures
        is_char_boundary(body, title_start(body, lower)->0),
{
    lemma_literals();
    let tag = text::first_at(lower, encode_utf8("<title"@))->0;
    let rest = body.skip(tag);
    text::lemma_first_from(lower, encode_utf8("<title"@), 0);
    text::lemma_first_from(rest, encode_utf8(">"@), 0);
    let bracket = text::first_at(rest, encode_utf8(">"@))->0;
    assert(rest.subrange(bracket, bracket + 1)[0] == 0x3eu8);
    assert(body[tag + bracket] == 0x3eu8);
    unicode::lemma_boundary_after_ascii(body, tag + bracket);
}

/// Finds the title in a page, given the page in lower case too.
pub fn title_within(body: &str, lower: &str) -> (res: Option<String>)
    requires
        aligned(encode_utf8(body@), encode_utf8(lower@)),
    ensures
        match res {
            Some(t) => title_in(body@, lower@) == Some(t@),
            None => title_in(body@, lower@) is None,
        },
{
    let ghost bb = encode_utf8(body@);
    let ghost lb = encode_utf8(lower@);
    proof {
        lemma_literals();
        encode_utf8_valid_utf8(body@);
        encode_utf8_valid_utf8(lower@);
    }
    let body_bytes = body.as_bytes();
    let lower_bytes = lower.as_bytes();
    let body_len = body_bytes.len();
    let lower_len = lower_bytes.len();
    match find(lower_bytes, "<title".as_bytes()) {
        Some(tag) => {
            proof {
                unicode::lemma_boundary_within(bb, tag as int);
            }
            let rest = slice_subrange(body_bytes, tag, body_len);
            assert(rest@ =~= bb.skip(tag as int));
            match find(rest, ">".as_bytes()) {
                Some(bracket) => {
                    let start: usize = tag + bracket + 1;
                    proof {
                        lemma_title_start(bb, lb);
                        unicode::lemma_boundary_within(lb, start as int);
                    }
                    let tail = slice_subrange(lower_bytes, start, lower_len);
                    assert(tail@ =~= lb.skip(start as int));
                    match find(tail, "</title>".as_bytes()) {
                        Some(n) => {
                            let end: usize = start + n;
                            proof {
                                unicode::lemma_boundary_within(bb, end as int);
                                unicode::lemma_boundary_in_front(bb, start as int, end as int);
                            }
                            let front = body.split_at(end).0;
                            let raw = front.split_at(start).1;
                            proof {
                                assert(bb.subrange(0, end as int).subrange(start as int, end as int)
                                    =~= bb.subrange(start as int, end as int));
                                encode_utf8_decode_utf8(raw@);
                            }
                            show_title(&chars_of(raw))
                        },
                        None => None,
                    }
                },
                None => None,
            }
        },
        None => None,
    }
}

/// Checks that the places found in the one text fit the other.
fn is_aligned(body: &str, lower: &str) -> (res: bool)
    ensures
        res == aligned(encode_utf8(body@), encode_utf8(lower@)),
{
    let ghost bb = encode_utf8(body@);
    let ghost lb = encode_utf8(lower@);
    proof {
        lemma_literals();
        encode_utf8_valid_utf8(body@);
        encode_utf8_valid_utf8(lower@);
    }
    let body_bytes = body.as_bytes();
    let lower_bytes = lower.as_bytes();
    let body_len = body_bytes.len();
    let lower_len = lower_bytes.len();
    match find(lower_bytes, "<title".as_bytes()) {
        Some(tag) => {
            if !body.is_char_boundary(tag) {
                return false;
            }
            proof {
                unicode::lemma_boundary_within(bb, tag as int);
            }
            let rest = slice_subrange(body_bytes, tag, body_len);
            assert(rest@ =~= bb.skip(tag as int));
            match find(rest, ">".as_bytes()) {
                Some(bracket) => {
                    let start: usize = tag + bracket + 1;
                    if !lower.is_char_boundary(start) {
                        return false;
                    }
                    proof {
                        unicode::lemma_boundary_within(lb, start as int);
                    }
                    let tail = slice_subrange(lower_bytes, start, lower_len);
                    assert(tail@ =~= lb.skip(start as int));
                    match find(tail, "</title>".as_bytes()) {
                        Some(n) => body.is_char_boundary(start + n),
                        None => true,
                    }
                },
                None => true,
            }
        },
        None => true,
    }
}

/// The page in lower case does not line up with the page itself, so the title
/// cannot be cut out of it.
#[derive(Clone, Copy, Debug, PartialEq, Eq, Structural)]
pub struct Misaligned;

/// Finds the title in what a web server sent.
pub fn page_title(page: &[u8]) -> (res: Result<Option<String>, Misaligned>)
    ensures
        ({
            let body = unicode::lossy_text(page@);
            let lower = unicode::lower_text(body);
            match res {
                Ok(Some(t)) => aligned(encode_utf8(body), encode_utf8(lower)) && title_in(
                    body,
                    lower,
                ) == Some(t@),
                Ok(None) => aligned(encode_utf8(body), encode_utf8(lower)) && title_in(
                    body,
                    lower,
                ) is None,
                Err(_) => !aligned(encode_utf8(body), encode_utf8(lower)),
            }
        }),
        valid_utf8(page@) && is_ascii_chars(decode_utf8(page@)) ==> match res {
            Ok(Some(t)) => title_in(decode_utf8(page@), numerals::lowered(decode_utf8(page@)))
                == Some(t@),
            Ok(None) => title_in(
                decode_utf8(page@),
                numerals::lowered(decode_utf8(page@)),
            ) is None,
            Err(_) => false,
        },
{
    let body = from_utf8_lossy(page);
    let lower = to_lowercase(body.as_str());
    proof {
        if valid_utf8(page@) && is_ascii_chars(decode_utf8(page@)) {
            law_ascii_page_is_aligned(body@);
        }
    }
    if is_aligned(body.as_str(), lower.as_str()) {
        Ok(title_within(body.as_str(), lower.as_str()))
    } else {
        Err(Misaligned)
    }
}

/// The title of a page in ASCII can always be cut out.
pub proof fn law_ascii_page_is_aligned(body: Seq<char>)
    requires
        is_ascii_chars(body),
    ensures
        aligned(encode_utf8(body), encode_utf8(numerals::lowered(body))),
{
    let lower = numerals::lowered(body);
    assert forall|i: int| 0 <= i < lower.len() implies '\0' <= #[trigger] lower[i] <= '\u{7f}' by {
        assert('\0' <= body[i] <= '\u{7f}');
    }
    unicode::lemma_ascii_boundaries(body);
    unicode::lemma_ascii_boundaries(lower);
    let bb = encode_utf8(body);
    let lb = encode_utf8(lower);
    lemma_literals();
    text::lemma_first_from(lb, encode_utf8("<title"@), 0);
    if let Some(tag) = text::first_at(lb, encode_utf8("<title"@)) {
        text::lemma_first_from(bb.skip(tag), encode_utf8(">"@), 0);
        if let Some(start) = title_start(bb, lb) {
            text::lemma_first_from(lb.skip(start), encode_utf8("</title>"@), 0);
        }
    }
}

/// Whether the words of a text stand apart by single blanks: it does not begin
/// with white space, has none but blanks, and no two of them in a row.
pub open spec fn evenly_spaced(s: Seq<char>) -> bool {
    &&& s.len() > 0 ==> !text::is_space(s[0])
    &&& forall|i: int| 0 <= i < s.len() && text::is_space(#[trigger] s[i]) ==> s[i] == ' '
    &&& forall|i: int|
        0 < i < s.len() && text::is_space(#[trigger] s[i]) ==> !text::is_space(s[i - 1])
}

proof fn lemma_words_are_words(s: Seq<char>)
    ensures
        forall|i: int|
            0 <= i < text::word_scan(s).0.len() ==> is_word(#[trigger] text::word_scan(s).0[i]),
        text::word_scan(s).1.len() > 0 ==> is_word(text::word_scan(s).1),
    decreases s.len(),
{
    if s.len() > 0 {
        lemma_words_are_words(s.drop_last());
        let (done, open) = text::word_scan(s.drop_last());
        assert forall|i: int| 0 <= i < text::word_scan(s).0.len() implies is_word(
            #[trigger] text::word_scan(s).0[i],
        ) by {
            if i < done.len() {
                assert(text::word_scan(s).0[i] == done[i]);
            }
        }
    }
}

/// Whether `w` is a word: it has characters, and none of them is white space.
pub open spec fn is_word(w: Seq<char>) -> bool {
    w.len() > 0 && forall|i: int| 0 <= i < w.len() ==> !text::is_space(#[trigger] w[i])
}

proof fn lemma_joined_words(parts: Seq<Seq<char>>)
    requires
        forall|i: int| 0 <= i < parts.len() ==> is_word(#[trigger] parts[i]),
    ensures
        evenly_spaced(text::joined(parts, seq![' '])),
        parts.len() > 0 ==> text::joined(parts, seq![' ']).len() > 0 && !text::is_space(
            text::joined(parts, seq![' ']).last(),
        ),
    decreases parts.len(),
{
    if parts.len() == 0 {
    } else if parts.len() == 1 {
        assert(is_word(parts[0]));
    } else {
        let front = text::joined(parts.drop_last(), seq![' ']);
        let word = parts.last();
        lemma_joined_words(parts.drop_last());
        assert(is_word(word));
        let all = text::joined(parts, seq![' ']);
        assert(all == front + seq![' '] + word);
        assert(all[0] == front[0]);
        assert forall|i: int| 0 < i < all.len() && text::is_space(#[trigger] all[i]) implies
            !text::is_space(all[i - 1]) by {
            if i < front.len() {
                assert(all[i] == front[i] && all[i - 1] == front[i - 1]);
            } else if i == front.len() {
                assert(all[i - 1] == front.last());
            } else {
                assert(all[i] == word[i - front.len() - 1]);
            }
        }
        assert forall|i: int| 0 <= i < all.len() && text::is_space(#[trigger] all[i]) implies all[i]
            == ' ' by {
            if i < front.len() {
                assert(all[i] == front[i]);
            } else if i > front.len() {
                assert(all[i] == word[i - front.len() - 1]);
            }
        }
    }
}

/// A title that is shown has some text, no more of it than fits, and single
/// blanks between its words.
pub proof fn law_title_is_tidy(body: Seq<char>, lower: Seq<char>)
    ensures
        title_in(body, lower) matches Some(t) ==> 0 < t.len() <= MAX_TITLE_CHARS && evenly_spaced(
            t,
        ),
{
    if let Some(start) = title_start(encode_utf8(body), encode_utf8(lower)) {
        if let Some(n) = title_len(encode_utf8(lower), start) {
            let raw = decode_utf8(encode_utf8(body).subrange(start, start + n));
            lemma_words_are_words(raw);
            lemma_joined_words(text::word_seq(raw));
        }
    }
}

/// Whether `pat` stands in lower case where `s` has it in whatever case: in ASCII
/// the two have the same places.
proof fn lemma_lower_ascii(s: Seq<char>)
    requires
        is_ascii_chars(s),
    ensures
        is_ascii_chars(numerals::lowered(s)),
        numerals::lowered(s).len() == s.len(),
{
    let lower = numerals::lowered(s);
    assert forall|i: int| 0 <= i < lower.len() implies '\0' <= #[trigger] lower[i] <= '\u{7f}' by {
        assert('\0' <= s[i] <= '\u{7f}');
    }
}

/// The title of a page in ASCII is what stands between the end of its first tag
/// `<title` and the next `</title>`, both in whatever case; a page without all of
/// these has none.
pub proof fn law_title_between_tags(body: Seq<char>)
    requires
        is_ascii_chars(body),
    ensures
        ({
            let lower = numerals::lowered(body);
            let found = title_in(body, lower);
            match text::first_at(lower, "<title"@) {
                Some(tag) => match text::first_at(body.skip(tag), ">"@) {
                    Some(bracket) => {
                        let start = tag + bracket + 1;
                        match text::first_at(lower.skip(start), "</title>"@) {
                            Some(n) => found == shown_title(body.skip(start).take(n)),
                            None => found is None,
                        }
                    },
                    None => found is None,
                },
                None => found is None,
            }
        }),
{
    let lower = numerals::lowered(body);
    lemma_lower_ascii(body);
    reveal_strlit("<title");
    reveal_strlit(">");
    reveal_strlit("</title>");
    unicode::lemma_ascii_same_places(lower, "<title"@, 0);
    text::lemma_first_from(lower, "<title"@, 0);
    if let Some(tag) = text::first_at(lower, "<title"@) {
        let rest = body.skip(tag);
        assert forall|i: int| 0 <= i < rest.len() implies '\0' <= #[trigger] rest[i]
            <= '\u{7f}' by {
            assert(rest[i] == body[tag + i]);
        }
        unicode::lemma_ascii_same_places(body, ">"@, tag);
        unicode::lemma_ascii_same_places(rest, ">"@, 0);
        text::lemma_first_from(rest, ">"@, 0);
        if let Some(bracket) = text::first_at(rest, ">"@) {
            let start = tag + bracket + 1;
            let low = lower.skip(start);
            let tail = body.skip(start);
            assert forall|i: int| 0 <= i < low.len() implies '\0' <= #[trigger] low[i]
                <= '\u{7f}' by {
                assert(low[i] == lower[start + i]);
            }
            assert forall|i: int| 0 <= i < tail.len() implies '\0' <= #[trigger] tail[i]
                <= '\u{7f}' by {
                assert(tail[i] == body[start + i]);
            }
            unicode::lemma_ascii_same_places(lower, "</title>"@, start);
            unicode::lemma_ascii_same_places(low, "</title>"@, 0);
            text::lemma_first_from(low, "</title>"@, 0);
            if let Some(n) = text::first_at(low, "</title>"@) {
                unicode::lemma_ascii_same_places(body, ">"@, start);
                unicode::lemma_ascii_same_places(tail, ">"@, n);
                assert(encode_utf8(body).subrange(start, start + n) =~= encode_utf8(body).skip(
                    start,
                ).take(n));
            }
        }
    }
}

/// A page with a title in it, whatever stands before and behind, shows that title.
pub proof fn law_title_is_found(
    front: Seq<char>,
    attributes: Seq<char>,
    title: Seq<char>,
    rest: Seq<char>,
)
    requires
        is_ascii_chars(front),
        is_ascii_chars(attributes),
        is_ascii_chars(title),
        is_ascii_chars(rest),
        !front.contains('<'),
        !attributes.contains('>'),
        !title.contains('<'),
    ensures
        ({
            let body = front + "<title"@ + attributes + ">"@ + title + "</title>"@ + rest;
            title_in(body, numerals::lowered(body)) == shown_title(title)
        }),
{
    reveal_strlit("<title");
    reveal_strlit(">");
    reveal_strlit("</title>");
    let open = "<title"@;
    let close = "</title>"@;
    let body = front + open + attributes + ">"@ + title + close + rest;
    let lower = numerals::lowered(body);
    let tag = front.len() as int;
    let bracket = 6 + attributes.len() as int;
    let start = tag + bracket + 1;
    assert forall|i: int| 0 <= i < body.len() implies '\0' <= #[trigger] body[i] <= '\u{7f}' by {
        if i < tag {
            assert(body[i] == front[i]);
        } else if i < tag + 6 {
            assert(body[i] == open[i - tag]);
        } else if i < tag + bracket {
            assert(body[i] == attributes[i - tag - 6]);
        } else if i == tag + bracket {
        } else if i < start + title.len() {
            assert(body[i] == title[i - start]);
        } else if i < start + title.len() + 8 {
            assert(body[i] == close[i - start - title.len()]);
        } else {
            assert(body[i] == rest[i - start - title.len() - 8]);
        }
    }
    law_title_between_tags(body);
    let low_front = numerals::lowered(front);
    let low_back = lower.skip(tag + 6);
    assert(lower =~= low_front + open + low_back) by {
        assert forall|i: int| 0 <= i < lower.len() implies lower[i] == (low_front + open
            + low_back)[i] by {
            if i < tag {
                assert(body[i] == front[i]);
            } else if i < tag + 6 {
                assert(body[i] == open[i - tag]);
            }
        }
    }
    assert forall|j: int| 0 <= j < low_front.len() implies #[trigger] (low_front + open
        + low_back).subrange(j, j + open.len()) != open by {
        let part = (low_front + open + low_back).subrange(j, j + open.len());
        assert(part[0] == low_front[j]);
        assert(front.contains(front[j]));
        assert(open[0] == '<');
    }
    text::lemma_found_behind(low_front, open, low_back);
    let behind = body.skip(tag);
    let head = open + attributes;
    let after = title + close + rest;
    assert(behind =~= head + seq!['>'] + after);
    assert forall|i: int| 0 <= i < head.len() implies #[trigger] head[i] != '>' by {
        if i >= 6 {
            assert(head[i] == attributes[i - 6]);
            assert(attributes.contains(attributes[i - 6]));
        }
    }
    assert(!head.contains('>'));
    text::lemma_char_found(head, '>', after);
    assert(">"@ =~= seq!['>']);
    let low_title = numerals::lowered(title);
    let low_rest = numerals::lowered(rest);
    assert(lower.skip(start) =~= low_title + close + low_rest) by {
        let tail = lower.skip(start);
        assert(tail.len() == title.len() + 8 + rest.len());
        assert forall|i: int| 0 <= i < tail.len() implies tail[i] == (low_title + close
            + low_rest)[i] by {
            if i < title.len() {
                assert(body[start + i] == title[i]);
            } else if i < title.len() + 8 {
                assert(body[start + i] == close[i - title.len()]);
            } else {
                assert(body[start + i] == rest[i - title.len() - 8]);
            }
        }
    }
    assert forall|j: int| 0 <= j < low_title.len() implies #[trigger] (low_title + close
        + low_rest).subrange(j, j + close.len()) != close by {
        let part = (low_title + close + low_rest).subrange(j, j + close.len());
        assert(part[0] == low_title[j]);
        assert(title.contains(title[j]));
        assert(close[0] == '<');
    }
    text::lemma_found_behind(low_title, close, low_rest);
    assert(body.skip(start).take(title.len() as int) =~= title);
}

/// A title shows its words with one blank between each two, cut after eighty
/// characters; without a word there is none.
pub proof fn law_title_shows_its_words(raw: Seq<char>)
    ensures
        ({
            let words = text::joined(text::word_seq(raw), seq![' ']);
            &&& words.len() == 0 ==> shown_title(raw) is None
            &&& 0 < words.len() <= 80 ==> shown_title(raw) == Some(words)
            &&& words.len() > 80 ==> shown_title(raw) == Some(words.take(80))
        }),
{
}

/// The ports of web servers.
pub proof fn law_web_ports(port: u16)
    ensures
        is_http_port(port) <==> seq![80u16, 5000, 7000, 8000, 8008, 8080, 8081, 8888, 32400].contains(
            port,
        ),
{
    let all = seq![80u16, 5000, 7000, 8000, 8008, 8080, 8081, 8888, 32400];
    assert(all[0] == 80 && all[1] == 5000 && all[2] == 7000 && all[3] == 8000 && all[4] == 8008
        && all[5] == 8080 && all[6] == 8081 && all[7] == 8888 && all[8] == 32400);
}

/// The lines of the request for a front page: what is asked for, the host, who
/// asks, that the connection ends, and an empty line.
pub proof fn law_page_request(ip: Seq<char>)
    requires
        !ip.contains('\n'),
    ensures
        text::line_seq(page_request(ip)) == seq![
            "GET / HTTP/1.0"@,
            "Host: "@ + ip,
            "User-Agent: netscanner/0.1"@,
            "Connection: close"@,
            Seq::<char>::empty(),
        ],
{
    reveal_strlit("GET / HTTP/1.0\r\nHost: ");
    reveal_strlit("\r\nUser-Agent: netscanner/0.1\r\nConnection: close\r\n\r\n");
    reveal_strlit("GET / HTTP/1.0");
    reveal_strlit("Host: ");
    reveal_strlit("User-Agent: netscanner/0.1");
    reveal_strlit("Connection: close");
    let end = seq!['\r', '\n'];
    let none = Seq::<char>::empty();
    let a = "GET / HTTP/1.0"@;
    let b = "Host: "@ + ip;
    let c = "User-Agent: netscanner/0.1"@;
    let d = "Connection: close"@;
    let d_on = d + end + (none + end + none);
    let c_on = c + end + d_on;
    let b_on = b + end + c_on;
    assert(page_request(ip) =~= a + end + b_on);
    assert(!b.contains('\n')) by {
        if b.contains('\n') {
            let k = b.index_of('\n');
            assert(k >= 6 && ip[k - 6] == '\n');
        }
    }
    text::law_first_line(a, true, b_on);
    text::law_first_line(b, true, c_on);
    text::law_first_line(c, true, d_on);
    text::law_first_line(d, true, none + end + none);
    text::law_first_line(none, true, none);
    text::law_last_line(none);
    assert(text::line_seq(page_request(ip)) =~= seq![a, b, c, d, none]);
}

}
