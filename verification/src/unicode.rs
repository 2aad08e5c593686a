//! What the standard library knows of Unicode.

use crate::numerals;
use crate::text;
use vstd::prelude::*;
use vstd::utf8::*;

verus! {

/// A text in lower case, as Unicode has it.
pub uninterp spec fn lower_text(s: Seq<char>) -> Seq<char>;

/// `str::to_lowercase` of the standard library. Its result depends on the text
/// alone. The Unicode mapping, which can change the number of characters, is
/// not spelled out here; on ASCII text it lowers the letters `A` to `Z`.
#[verifier::external_body]
pub(crate) fn to_lowercase(s: &str) -> (res: String)
    ensures
        res@ == lower_text(s@),
        is_ascii_chars(s@) ==> res@ == numerals::lowered(s@),
{
    s.to_lowercase()
}

/// The text in bytes that need not be UTF-8: what is not, is replaced.
pub uninterp spec fn lossy_text(bytes: Seq<u8>) -> Seq<char>;

/// `String::from_utf8_lossy` of the standard library. Its result depends on
/// the bytes alone; where they are UTF-8 it is the text they encode. How many
/// replacement characters stand for bytes that are not, is not spelled out
/// here.
#[verifier::external_body]
pub(crate) fn from_utf8_lossy(bytes: &[u8]) -> (res: String)
    ensures
        res@ == lossy_text(bytes@),
        valid_utf8(bytes@) ==> res@ == decode_utf8(bytes@),
{
    String::from_utf8_lossy(bytes).into_owned()
}

/// The place after an ASCII character lies between two characters.
pub proof fn lemma_boundary_after_ascii(bytes: Seq<u8>, i: int)
    requires
        valid_utf8(bytes),
        0 <= i < bytes.len(),
        bytes[i] < 0x80,
    ensures
        is_char_boundary(bytes, i + 1),
    decreases bytes.len(),
{
    reveal_with_fuel(is_char_boundary, 2);
    if i < length_of_first_scalar(bytes) {
        assert(i == 0);
    } else {
        lemma_boundary_after_ascii(pop_first_scalar(bytes), i - length_of_first_scalar(bytes));
    }
}

/// A place between two characters stays one when the text is cut behind it.
pub proof fn lemma_boundary_in_front(bytes: Seq<u8>, i: int, j: int)
    requires
        valid_utf8(bytes),
        0 <= i <= j <= bytes.len(),
        is_char_boundary(bytes, i),
        is_char_boundary(bytes, j),
    ensures
        valid_utf8(bytes.subrange(0, j)),
        is_char_boundary(bytes.subrange(0, j), i),
{
    let front = bytes.subrange(0, j);
    valid_utf8_split(bytes, j);
    if i < j {
        is_char_boundary_iff_not_is_continuation_byte(bytes, i);
        assert(front[i] == bytes[i]);
        is_char_boundary_iff_not_is_continuation_byte(front, i);
    } else {
        is_char_boundary_start_end_of_seq(front);
    }
}

/// A place between two characters is no further than the end.
pub proof fn lemma_boundary_within(bytes: Seq<u8>, i: int)
    requires
        valid_utf8(bytes),
        is_char_boundary(bytes, i),
    ensures
        0 <= i <= bytes.len(),
{
}

/// In ASCII text every place lies between two characters.
pub proof fn lemma_ascii_boundaries(s: Seq<char>)
    requires
        is_ascii_chars(s),
    ensures
        encode_utf8(s).len() == s.len(),
        valid_utf8(encode_utf8(s)),
        forall|i: int| 0 <= i <= s.len() ==> #[trigger] is_char_boundary(encode_utf8(s), i),
{
    let bytes = encode_utf8(s);
    encode_utf8_valid_utf8(s);
    is_ascii_chars_encode_utf8(s);
    assert forall|i: int| 0 <= i <= s.len() implies #[trigger] is_char_boundary(bytes, i) by {
        if i < s.len() {
            assert(bytes[i] == s[i] as u8);
            is_char_boundary_iff_not_is_continuation_byte(bytes, i);
        } else {
            is_char_boundary_start_end_of_seq(bytes);
        }
    }
}

/// Every character takes at least one byte.
pub proof fn lemma_encoded_len(s: Seq<char>)
    ensures
        encode_utf8(s).len() >= s.len(),
    decreases s.len(),
{
    if s.len() > 0 {
        lemma_encoded_len(s.drop_first());
    }
}

/// ASCII text stands for itself in bytes: a part of it begins at the same place,
/// and what is looked for is found at the same place.
pub proof fn lemma_ascii_same_places(s: Seq<char>, pat: Seq<char>, at: int)
    requires
        is_ascii_chars(s),
        is_ascii_chars(pat),
        0 <= at <= s.len(),
    ensures
        encode_utf8(s).len() == s.len(),
        encode_utf8(pat).len() == pat.len(),
        encode_utf8(s).skip(at) == encode_utf8(s.skip(at)),
        decode_utf8(encode_utf8(s).skip(at)) == s.skip(at),
        decode_utf8(encode_utf8(s).take(at)) == s.take(at),
        encode_utf8(s).take(at) == encode_utf8(s.take(at)),
        text::first_at(encode_utf8(s), encode_utf8(pat)) == text::first_at(s, pat),
{
    is_ascii_chars_encode_utf8(s);
    is_ascii_chars_encode_utf8(pat);
    let rest = s.skip(at);
    let front = s.take(at);
    assert forall|i: int| 0 <= i < rest.len() implies '\0' <= #[trigger] rest[i] <= '\u{7f}' by {
        assert(rest[i] == s[at + i]);
    }
    assert forall|i: int| 0 <= i < front.len() implies '\0' <= #[trigger] front[i] <= '\u{7f}' by {
        assert(front[i] == s[i]);
    }
    is_ascii_chars_encode_utf8(rest);
    is_ascii_chars_encode_utf8(front);
    assert(encode_utf8(s).skip(at) =~= encode_utf8(rest)) by {
        assert forall|i: int| 0 <= i < rest.len() implies encode_utf8(s).skip(at)[i]
            == encode_utf8(rest)[i] by {
            assert(rest[i] == s[at + i]);
        }
    }
    assert(encode_utf8(s).take(at) =~= encode_utf8(front)) by {
        assert forall|i: int| 0 <= i < front.len() implies encode_utf8(s).take(at)[i]
            == encode_utf8(front)[i] by {
            assert(front[i] == s[i]);
        }
    }
    encode_utf8_decode_utf8(rest);
    encode_utf8_decode_utf8(front);
    lemma_ascii_first_from(s, pat, 0);
}

proof fn lemma_ascii_first_from(s: Seq<char>, pat: Seq<char>, i: int)
    requires
        is_ascii_chars(s),
        is_ascii_chars(pat),
        0 <= i,
    ensures
        text::first_from(encode_utf8(s), encode_utf8(pat), i) == text::first_from(s, pat, i),
    decreases s.len() - i + 1,
{
    is_ascii_chars_encode_utf8(s);
    is_ascii_chars_encode_utf8(pat);
    if i + pat.len() <= s.len() {
        let part = s.subrange(i, i + pat.len());
        let bytes = encode_utf8(s).subrange(i, i + pat.len());
        if part == pat {
            assert(bytes =~= encode_utf8(pat)) by {
                assert forall|k: int| 0 <= k < pat.len() implies bytes[k] == encode_utf8(pat)[k] by {
                    assert(part[k] == pat[k]);
                    assert(part[k] == s[i + k]);
                }
            }
        }
        if bytes == encode_utf8(pat) {
            assert(part =~= pat) by {
                assert forall|k: int| 0 <= k < pat.len() implies part[k] == pat[k] by {
                    assert(bytes[k] == encode_utf8(s)[i + k]);
                    assert(encode_utf8(s)[i + k] == s[i + k] as u8);
                    assert(encode_utf8(pat)[k] == pat[k] as u8);
                    assert('\0' <= s[i + k] <= '\u{7f}' && '\0' <= pat[k] <= '\u{7f}');
                }
            }
        }
        lemma_ascii_first_from(s, pat, i + 1);
    }
}

}
