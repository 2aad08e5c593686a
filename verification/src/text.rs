//! Text as a sequence of characters: trimming, splitting, searching and
//! rendering numbers.
//!
//! Every function here works on slices of `char`, so that an index always
//! falls between two characters.

use vstd::prelude::*;
use vstd::slice::slice_subrange;
use vstd::string::*;
use vstd::utf8::*;

verus! {

/// `String::push` of the standard library appends one character.
pub assume_specification[ String::push ](s: &mut String, c: char)
    ensures
        final(s)@ == old(s)@.push(c),
;

/// Unicode `White_Space`, as `char::is_whitespace` has it.
pub open spec fn is_space(c: char) -> bool {
    ||| '\u{9}' <= c <= '\u{d}'
    ||| c == '\u{20}'
    ||| c == '\u{85}'
    ||| c == '\u{a0}'
    ||| c == '\u{1680}'
    ||| '\u{2000}' <= c <= '\u{200a}'
    ||| c == '\u{2028}'
    ||| c == '\u{2029}'
    ||| c == '\u{202f}'
    ||| c == '\u{205f}'
    ||| c == '\u{3000}'
}

/// `s` without its leading white space.
pub open spec fn trimmed_start(s: Seq<char>) -> Seq<char>
    decreases s.len(),
{
    if s.len() > 0 && is_space(s[0]) {
        trimmed_start(s.drop_first())
    } else {
        s
    }
}

/// `s` without its trailing white space.
pub open spec fn trimmed_end(s: Seq<char>) -> Seq<char>
    decreases s.len(),
{
    if s.len() > 0 && is_space(s.last()) {
        trimmed_end(s.drop_last())
    } else {
        s
    }
}

/// `s` without white space at either end.
pub open spec fn trimmed(s: Seq<char>) -> Seq<char> {
    trimmed_end(trimmed_start(s))
}

/// Whether `c` is white space.
pub fn is_whitespace(c: char) -> (res: bool)
    ensures
        res == is_space(c),
{
    ('\u{9}' <= c && c <= '\u{d}') || c == '\u{20}' || c == '\u{85}' || c == '\u{a0}' || c
        == '\u{1680}' || ('\u{2000}' <= c && c <= '\u{200a}') || c == '\u{2028}' || c == '\u{2029}'
        || c == '\u{202f}' || c == '\u{205f}' || c == '\u{3000}'
}

/// The characters of a string, in order.
pub fn chars_of(s: &str) -> (res: Vec<char>)
    ensures
        res@ == s@,
{
    let mut out: Vec<char> = Vec::new();
    for c in it: s.chars()
        invariant
            out@ == s@.take(it.index() as int),
            it.seq() == s@,
    {
        out.push(c);
    }
    out
}

/// The string made of the given characters.
pub fn string_of(chars: &[char]) -> (res: String)
    ensures
        res@ == chars@,
{
    let mut out = String::new();
    let mut i: usize = 0;
    while i < chars.len()
        invariant
            i <= chars@.len(),
            out@ == chars@.take(i as int),
        decreases chars@.len() - i,
    {
        out.push(chars[i]);
        proof {
            assert(chars@.take(i as int).push(chars@[i as int]) =~= chars@.take(i + 1));
        }
        i = i + 1;
    }
    assert(chars@.take(i as int) =~= chars@);
    out
}

/// Drops white space at the front.
pub fn trim_start(s: &[char]) -> (res: &[char])
    ensures
        res@ == trimmed_start(s@),
{
    let mut i: usize = 0;
    assert(s@.skip(0) =~= s@);
    while i < s.len() && is_whitespace(s[i])
        invariant
            i <= s@.len(),
            trimmed_start(s@.skip(i as int)) == trimmed_start(s@),
        decreases s@.len() - i,
    {
        assert(s@.skip(i as int).drop_first() =~= s@.skip(i + 1));
        i = i + 1;
    }
    slice_subrange(s, i, s.len())
}

/// Drops white space at the back.
pub fn trim_end(s: &[char]) -> (res: &[char])
    ensures
        res@ == trimmed_end(s@),
{
    let mut n: usize = s.len();
    assert(s@.take(n as int) =~= s@);
    while n > 0 && is_whitespace(s[n - 1])
        invariant
            n <= s@.len(),
            trimmed_end(s@.take(n as int)) == trimmed_end(s@),
        decreases n,
    {
        assert(s@.take(n as int).drop_last() =~= s@.take(n - 1));
        n = n - 1;
    }
    slice_subrange(s, 0, n)
}

/// Drops white space at both ends.
pub fn trim(s: &[char]) -> (res: &[char])
    ensures
        res@ == trimmed(s@),
{
    trim_end(trim_start(s))
}

/// `s` without the copies of `c` at its end.
pub open spec fn without_tail(s: Seq<char>, c: char) -> Seq<char>
    decreases s.len(),
{
    if s.len() > 0 && s.last() == c {
        without_tail(s.drop_last(), c)
    } else {
        s
    }
}

/// Drops the copies of `c` at the back.
pub fn trim_tail(s: &[char], c: char) -> (res: &[char])
    ensures
        res@ == without_tail(s@, c),
{
    let mut n: usize = s.len();
    assert(s@.take(n as int) =~= s@);
    while n > 0 && s[n - 1] == c
        invariant
            n <= s@.len(),
            without_tail(s@.take(n as int), c) == without_tail(s@, c),
        decreases n,
    {
        assert(s@.take(n as int).drop_last() =~= s@.take(n - 1));
        n = n - 1;
    }
    slice_subrange(s, 0, n)
}

/// What each slice of `parts` holds.
pub open spec fn views(parts: Seq<&[char]>) -> Seq<Seq<char>> {
    parts.map_values(|p: &[char]| p@)
}

/// The pieces between the separators of `s`: one more than there are separators.
pub open spec fn pieces(s: Seq<char>, sep: char) -> Seq<Seq<char>>
    decreases s.len(),
{
    if s.len() == 0 {
        seq![Seq::<char>::empty()]
    } else {
        let before = pieces(s.drop_last(), sep);
        if s.last() == sep {
            before.push(Seq::<char>::empty())
        } else {
            before.drop_last().push(before.last().push(s.last()))
        }
    }
}

/// There is always at least one piece.
pub proof fn lemma_pieces_nonempty(s: Seq<char>, sep: char)
    ensures
        pieces(s, sep).len() >= 1,
    decreases s.len(),
{
    if s.len() > 0 {
        lemma_pieces_nonempty(s.drop_last(), sep);
    }
}

/// A text without the separator is one piece.
pub proof fn lemma_one_piece(s: Seq<char>, sep: char)
    requires
        forall|i: int| 0 <= i < s.len() ==> #[trigger] s[i] != sep,
    ensures
        pieces(s, sep) == seq![s],
    decreases s.len(),
{
    if s.len() > 0 {
        lemma_one_piece(s.drop_last(), sep);
        assert(s[s.len() - 1] != sep);
        assert(s.drop_last().push(s.last()) =~= s);
        assert(pieces(s, sep) =~= seq![s]);
    } else {
        assert(s =~= Seq::<char>::empty());
    }
}

/// The pieces of two texts with a separator between are those of the first and
/// then those of the second.
pub proof fn lemma_pieces_across(a: Seq<char>, b: Seq<char>, sep: char)
    ensures
        pieces(a + seq![sep] + b, sep) == pieces(a, sep) + pieces(b, sep),
    decreases b.len(),
{
    let all = a + seq![sep] + b;
    if b.len() == 0 {
        assert(all.drop_last() =~= a);
        assert(pieces(all, sep) =~= pieces(a, sep) + pieces(b, sep));
    } else {
        lemma_pieces_across(a, b.drop_last(), sep);
        lemma_pieces_nonempty(b.drop_last(), sep);
        assert(all.drop_last() =~= a + seq![sep] + b.drop_last());
        assert(all.last() == b.last());
        let before = pieces(b.drop_last(), sep);
        let whole = pieces(a, sep) + before;
        assert(whole.drop_last() =~= pieces(a, sep) + before.drop_last());
        assert(whole.last() == before.last());
        assert(pieces(all, sep) =~= pieces(a, sep) + pieces(b, sep));
    }
}

/// No piece holds the separator, nor a character that the text does not hold.
pub proof fn lemma_pieces_plain(s: Seq<char>, sep: char, c: char)
    ensures
        forall|i: int, j: int|
            0 <= i < pieces(s, sep).len() && 0 <= j < pieces(s, sep)[i].len()
                ==> #[trigger] pieces(s, sep)[i][j] != sep,
        !s.contains(c) ==> forall|i: int, j: int|
            0 <= i < pieces(s, sep).len() && 0 <= j < pieces(s, sep)[i].len()
                ==> #[trigger] pieces(s, sep)[i][j] != c,
    decreases s.len(),
{
    if s.len() > 0 {
        let front = s.drop_last();
        lemma_pieces_plain(front, sep, c);
        lemma_pieces_nonempty(front, sep);
        let before = pieces(front, sep);
        assert(s[s.len() - 1] == s.last());
        if !s.contains(c) {
            assert forall|i: int| 0 <= i < front.len() implies front[i] != c by {
                assert(s[i] == front[i]);
            }
            assert(!front.contains(c));
        }
        assert forall|i: int, j: int|
            0 <= i < pieces(s, sep).len() && 0 <= j < pieces(s, sep)[i].len() implies
            #[trigger] pieces(s, sep)[i][j] != sep && (!s.contains(c) ==> pieces(s, sep)[i][j]
            != c) by {
            if i < before.len() && j < before[i].len() {
                assert(pieces(s, sep)[i][j] == before[i][j]);
            }
        }
    }
}

/// Splits at every `sep`.
pub fn split_on<'a>(s: &'a [char], sep: char) -> (res: Vec<&'a [char]>)
    ensures
        views(res@) == pieces(s@, sep),
        res@.len() >= 1,
{
    let mut parts: Vec<&'a [char]> = Vec::new();
    let mut start: usize = 0;
    let mut i: usize = 0;
    proof {
        assert(s@.take(0).len() == 0);
        assert(s@.subrange(0, 0) =~= Seq::<char>::empty());
        assert(views(parts@).push(s@.subrange(0, 0)) =~= seq![Seq::<char>::empty()]);
    }
    while i < s.len()
        invariant
            start <= i <= s@.len(),
            views(parts@).push(s@.subrange(start as int, i as int)) == pieces(
                s@.take(i as int),
                sep,
            ),
        decreases s@.len() - i,
    {
        let ghost before = views(parts@).push(s@.subrange(start as int, i as int));
        let ghost parts0 = parts@;
        proof {
            assert(s@.take(i + 1).drop_last() =~= s@.take(i as int));
            assert(s@.take(i + 1).last() == s@[i as int]);
            assert(before.drop_last() =~= views(parts0));
            assert(before.last() == s@.subrange(start as int, i as int));
        }
        if s[i] == sep {
            parts.push(slice_subrange(s, start, i));
            start = i + 1;
            proof {
                assert(views(parts@) =~= before);
                assert(s@.subrange(start as int, i + 1) =~= Seq::<char>::empty());
            }
        } else {
            proof {
                assert(s@.subrange(start as int, i as int).push(s@[i as int]) =~= s@.subrange(
                    start as int,
                    i + 1,
                ));
            }
        }
        i = i + 1;
    }
    let ghost parts0 = parts@;
    parts.push(slice_subrange(s, start, s.len()));
    proof {
        assert(views(parts@) =~= views(parts0).push(s@.subrange(start as int, s@.len() as int)));
        assert(s@.take(s@.len() as int) =~= s@);
    }
    parts
}

/// `s` without one carriage return at its end.
pub open spec fn without_return(s: Seq<char>) -> Seq<char> {
    if s.len() > 0 && s.last() == '\r' {
        s.drop_last()
    } else {
        s
    }
}

/// The lines of `s`. A line ends in a newline, or in a carriage return and a
/// newline; the last line may go without.
pub open spec fn line_seq(s: Seq<char>) -> Seq<Seq<char>> {
    let p = pieces(s, '\n');
    let ended = p.drop_last().map_values(|l: Seq<char>| without_return(l));
    if p.last().len() == 0 {
        ended
    } else {
        ended.push(p.last())
    }
}

/// Splits into lines.
pub fn lines<'a>(s: &'a [char]) -> (res: Vec<&'a [char]>)
    ensures
        views(res@) == line_seq(s@),
{
    let parts = split_on(s, '\n');
    let ghost p = pieces(s@, '\n');
    let ghost ended = p.drop_last().map_values(|l: Seq<char>| without_return(l));
    let last: usize = parts.len() - 1;
    let mut out: Vec<&'a [char]> = Vec::new();
    let mut i: usize = 0;
    assert(views(out@) =~= ended.take(0));
    while i < last
        invariant
            i <= last,
            last + 1 == parts@.len(),
            views(parts@) == p,
            ended == p.drop_last().map_values(|l: Seq<char>| without_return(l)),
            views(out@) == ended.take(i as int),
        decreases last - i,
    {
        let part = parts[i];
        let ghost out0 = out@;
        proof {
            assert(views(parts@)[i as int] == part@);
        }
        let n = part.len();
        if n > 0 && part[n - 1] == '\r' {
            out.push(slice_subrange(part, 0, n - 1));
        } else {
            out.push(part);
        }
        proof {
            assert(ended[i as int] == without_return(part@));
            assert(views(out@) =~= views(out0).push(without_return(part@)));
            assert(ended.take(i + 1) =~= ended.take(i as int).push(ended[i as int]));
        }
        i = i + 1;
    }
    assert(ended.take(last as int) =~= ended);
    let part = parts[last];
    assert(views(parts@)[last as int] == part@);
    let ghost out0 = out@;
    if part.len() > 0 {
        out.push(part);
        assert(views(out@) =~= views(out0).push(part@));
    }
    out
}

/// The lines of a text in ASCII are in ASCII.
pub proof fn lemma_lines_ascii(s: Seq<char>)
    requires
        is_ascii_chars(s),
    ensures
        forall|i: int| 0 <= i < line_seq(s).len() ==> is_ascii_chars(#[trigger] line_seq(s)[i]),
{
    lemma_pieces_ascii(s, '\n');
    lemma_pieces_nonempty(s, '\n');
    let p = pieces(s, '\n');
    assert forall|i: int| 0 <= i < line_seq(s).len() implies is_ascii_chars(
        #[trigger] line_seq(s)[i],
    ) by {
        assert(is_ascii_chars(p[i]));
    }
}

proof fn lemma_pieces_ascii(s: Seq<char>, sep: char)
    requires
        is_ascii_chars(s),
    ensures
        forall|i: int| 0 <= i < pieces(s, sep).len() ==> is_ascii_chars(#[trigger] pieces(s, sep)[i]),
    decreases s.len(),
{
    if s.len() > 0 {
        let before = pieces(s.drop_last(), sep);
        lemma_pieces_ascii(s.drop_last(), sep);
        lemma_pieces_nonempty(s.drop_last(), sep);
        assert forall|i: int| 0 <= i < pieces(s, sep).len() implies is_ascii_chars(
            #[trigger] pieces(s, sep)[i],
        ) by {
            if i < before.len() {
                assert(is_ascii_chars(before[i]));
            }
        }
    }
}

/// The finished words of `s`, and the word that its end leaves open.
pub open spec fn word_scan(s: Seq<char>) -> (Seq<Seq<char>>, Seq<char>)
    decreases s.len(),
{
    if s.len() == 0 {
        (Seq::<Seq<char>>::empty(), Seq::<char>::empty())
    } else {
        let (done, open) = word_scan(s.drop_last());
        if !is_space(s.last()) {
            (done, open.push(s.last()))
        } else if open.len() == 0 {
            (done, open)
        } else {
            (done.push(open), Seq::<char>::empty())
        }
    }
}

/// The words of `s`: its longest runs without white space.
pub open spec fn word_seq(s: Seq<char>) -> Seq<Seq<char>> {
    let (done, open) = word_scan(s);
    if open.len() == 0 {
        done
    } else {
        done.push(open)
    }
}

/// Splits at runs of white space.
pub fn words<'a>(s: &'a [char]) -> (res: Vec<&'a [char]>)
    ensures
        views(res@) == word_seq(s@),
{
    let mut out: Vec<&'a [char]> = Vec::new();
    let mut start: usize = 0;
    let mut i: usize = 0;
    assert(s@.take(0).len() == 0);
    assert(views(out@) =~= Seq::<Seq<char>>::empty());
    assert(s@.subrange(0, 0) =~= Seq::<char>::empty());
    while i < s.len()
        invariant
            start <= i <= s@.len(),
            word_scan(s@.take(i as int)) == (views(out@), s@.subrange(start as int, i as int)),
        decreases s@.len() - i,
    {
        proof {
            assert(s@.take(i + 1).drop_last() =~= s@.take(i as int));
            assert(s@.take(i + 1).last() == s@[i as int]);
        }
        let ghost out0 = out@;
        if !is_whitespace(s[i]) {
            proof {
                assert(s@.subrange(start as int, i as int).push(s@[i as int]) =~= s@.subrange(
                    start as int,
                    i + 1,
                ));
            }
        } else {
            if start < i {
                out.push(slice_subrange(s, start, i));
                assert(views(out@) =~= views(out0).push(s@.subrange(start as int, i as int)));
            }
            proof {
                assert(s@.subrange(i + 1, i + 1) =~= Seq::<char>::empty());
                if start == i {
                    assert(s@.subrange(start as int, i as int) =~= Seq::<char>::empty());
                }
            }
            start = i + 1;
        }
        i = i + 1;
    }
    assert(s@.take(s@.len() as int) =~= s@);
    let ghost out0 = out@;
    if start < s.len() {
        out.push(slice_subrange(s, start, s.len()));
        assert(views(out@) =~= views(out0).push(s@.subrange(start as int, s@.len() as int)));
    }
    out
}

/// The parts one after another, with `sep` between each two.
pub open spec fn joined(parts: Seq<Seq<char>>, sep: Seq<char>) -> Seq<char>
    decreases parts.len(),
{
    if parts.len() == 0 {
        Seq::<char>::empty()
    } else if parts.len() == 1 {
        parts[0]
    } else {
        joined(parts.drop_last(), sep) + sep + parts.last()
    }
}

/// Puts the parts one after another with `sep` between each two.
pub fn join(parts: &Vec<&[char]>, sep: char) -> (res: Vec<char>)
    ensures
        res@ == joined(views(parts@), seq![sep]),
{
    let mut out: Vec<char> = Vec::new();
    let ghost all = views(parts@);
    let mut i: usize = 0;
    assert(all.take(0).len() == 0);
    while i < parts.len()
        invariant
            i <= parts@.len(),
            all == views(parts@),
            out@ == joined(all.take(i as int), seq![sep]),
        decreases parts@.len() - i,
    {
        let part = parts[i];
        let ghost out0 = out@;
        proof {
            assert(all[i as int] == part@);
            assert(all.take(i + 1).drop_last() =~= all.take(i as int));
            assert(all.take(i + 1).last() == part@);
        }
        if i > 0 {
            out.push(sep);
        }
        let ghost out1 = out@;
        push_all(&mut out, part);
        proof {
            if i == 0 {
                assert(out@ =~= part@);
                assert(all.take(1)[0] == part@);
            } else {
                assert(out1 =~= out0 + seq![sep]);
            }
        }
        i = i + 1;
    }
    assert(all.take(i as int) =~= all);
    out
}

/// Appends every element of `more`.
pub fn push_all<T: Copy>(out: &mut Vec<T>, more: &[T])
    ensures
        final(out)@ == old(out)@ + more@,
{
    let ghost before = out@;
    let mut i: usize = 0;
    assert(before + more@.take(0) =~= before);
    while i < more.len()
        invariant
            i <= more@.len(),
            out@ == before + more@.take(i as int),
        decreases more@.len() - i,
    {
        out.push(more[i]);
        assert(before + more@.take(i + 1) =~= (before + more@.take(i as int)).push(
            more@[i as int],
        ));
        i = i + 1;
    }
    assert(more@.take(i as int) =~= more@);
}

/// Whether `pat` stands in `s` at position `i`.
pub open spec fn occurs_at<T>(s: Seq<T>, pat: Seq<T>, i: int) -> bool {
    0 <= i && i + pat.len() <= s.len() && s.subrange(i, i + pat.len()) == pat
}

/// The first position from `i` on at which `pat` stands in `s`.
pub open spec fn first_from<T>(s: Seq<T>, pat: Seq<T>, i: int) -> Option<int>
    decreases s.len() - i + 1,
{
    if i + pat.len() > s.len() {
        None
    } else if occurs_at(s, pat, i) {
        Some(i)
    } else {
        first_from(s, pat, i + 1)
    }
}

/// The first position at which `pat` stands in `s`.
pub open spec fn first_at<T>(s: Seq<T>, pat: Seq<T>) -> Option<int> {
    first_from(s, pat, 0)
}

/// A position found is one where the pattern stands, and it stands nowhere
/// before; no position is found only where it stands nowhere.
pub proof fn lemma_first_from<T>(s: Seq<T>, pat: Seq<T>, i: int)
    requires
        0 <= i,
    ensures
        match first_from(s, pat, i) {
            Some(k) => i <= k && occurs_at(s, pat, k) && forall|j: int|
                i <= j < k ==> !occurs_at(s, pat, j),
            None => forall|j: int| i <= j ==> !occurs_at(s, pat, j),
        },
    decreases s.len() - i + 1,
{
    if i + pat.len() > s.len() {
    } else if occurs_at(s, pat, i) {
    } else {
        lemma_first_from(s, pat, i + 1);
    }
}

/// Whether `s` begins with `pat`.
pub open spec fn begins_with<T>(s: Seq<T>, pat: Seq<T>) -> bool {
    occurs_at(s, pat, 0)
}

/// What an optional text holds.
pub open spec fn held(o: Option<&str>) -> Option<Seq<char>> {
    match o {
        Some(s) => Some(s@),
        None => None,
    }
}

/// What texts are made of: characters, or bytes.
pub trait Symbol: Copy {
    /// Whether the two are the same.
    fn same(self, other: Self) -> (res: bool)
        ensures
            res == (self == other),
    ;
}

impl Symbol for char {
    fn same(self, other: char) -> (res: bool) {
        self == other
    }
}

impl Symbol for u8 {
    fn same(self, other: u8) -> (res: bool) {
        self == other
    }
}

/// Whether `pat` stands in `s` at position `i`.
pub fn stands_at<T: Symbol>(s: &[T], pat: &[T], i: usize) -> (res: bool)
    ensures
        res == occurs_at(s@, pat@, i as int),
{
    let n = s.len();
    if pat.len() > n || i > n - pat.len() {
        return false;
    }
    let mut k: usize = 0;
    while k < pat.len()
        invariant
            k <= pat@.len(),
            n == s@.len(),
            i + pat@.len() <= n,
            s@.subrange(i as int, i + k) == pat@.take(k as int),
        decreases pat@.len() - k,
    {
        if !s[i + k].same(pat[k]) {
            proof {
                assert(s@.subrange(i as int, i + pat@.len())[k as int] == s@[i + k]);
            }
            return false;
        }
        assert(s@.subrange(i as int, i + k + 1) =~= pat@.take(k + 1)) by {
            assert(s@.subrange(i as int, i + k + 1) =~= s@.subrange(i as int, i + k).push(
                s@[i + k],
            ));
            assert(pat@.take(k + 1) =~= pat@.take(k as int).push(pat@[k as int]));
        }
        k = k + 1;
    }
    assert(pat@.take(k as int) =~= pat@);
    true
}

/// Finds the first place at which `pat` stands in `s`.
pub fn find<T: Symbol>(s: &[T], pat: &[T]) -> (res: Option<usize>)
    ensures
        match res {
            Some(i) => first_at(s@, pat@) == Some(i as int) && i + pat@.len() <= s@.len(),
            None => first_at(s@, pat@) is None,
        },
{
    if pat.len() > s.len() {
        return None;
    }
    let last: usize = s.len() - pat.len();
    let mut i: usize = 0;
    loop
        invariant
            i <= last,
            last + pat@.len() == s@.len(),
            first_from(s@, pat@, i as int) == first_at(s@, pat@),
        decreases last - i,
    {
        if stands_at(s, pat, i) {
            return Some(i);
        }
        if i == last {
            assert(first_from(s@, pat@, i + 1) is None);
            return None;
        }
        i = i + 1;
    }
}

/// Whether the two texts are the same.
pub fn same_text(a: &[char], b: &[char]) -> (res: bool)
    ensures
        res == (a@ == b@),
{
    if a.len() != b.len() {
        return false;
    }
    let res = stands_at(a, b, 0);
    assert(a@.subrange(0, a@.len() as int) =~= a@);
    res
}

/// Whether `s` ends with `pat`.
pub open spec fn ends_in(s: Seq<char>, pat: Seq<char>) -> bool {
    occurs_at(s, pat, s.len() - pat.len())
}

/// `s` without the copies of the text `pat` at its end.
pub open spec fn without_tails(s: Seq<char>, pat: Seq<char>) -> Seq<char>
    decreases s.len(),
{
    if pat.len() > 0 && ends_in(s, pat) {
        without_tails(s.take(s.len() - pat.len()), pat)
    } else {
        s
    }
}

/// Drops the copies of the text `pat` at the back.
pub fn trim_tails<'a>(s: &'a [char], pat: &[char]) -> (res: &'a [char])
    ensures
        res@ == without_tails(s@, pat@),
{
    let mut n: usize = s.len();
    if pat.len() == 0 {
        return s;
    }
    assert(s@.take(n as int) =~= s@);
    loop
        invariant
            n <= s@.len(),
            pat@.len() > 0,
            without_tails(s@.take(n as int), pat@) == without_tails(s@, pat@),
        decreases n,
    {
        let head = slice_subrange(s, 0, n);
        assert(head@ =~= s@.take(n as int));
        if pat.len() > n || !stands_at(head, pat, n - pat.len()) {
            return head;
        }
        assert(head@.take(n - pat@.len()) =~= s@.take(n - pat@.len()));
        n = n - pat.len();
    }
}

/// What counts as white space, by number.
pub proof fn law_white_space(c: char)
    ensures
        is_space(c) <==> {
            let n = c as int;
            ||| 9 <= n <= 13
            ||| n == 32
            ||| n == 133
            ||| n == 160
            ||| n == 5760
            ||| 8192 <= n <= 8202
            ||| n == 8232
            ||| n == 8233
            ||| n == 8239
            ||| n == 8287
            ||| n == 12288
        },
{
}

/// The pieces of a text with the separators put back are the text.
pub proof fn law_pieces_rejoin(s: Seq<char>, sep: char)
    ensures
        joined(pieces(s, sep), seq![sep]) == s,
    decreases s.len(),
{
    reveal_with_fuel(joined, 2);
    if s.len() > 0 {
        let front = s.drop_last();
        law_pieces_rejoin(front, sep);
        lemma_pieces_nonempty(front, sep);
        let before = pieces(front, sep);
        let all = pieces(s, sep);
        assert(s =~= front.push(s.last()));
        if s.last() == sep {
            assert(all.drop_last() =~= before);
            assert(joined(all, seq![sep]) =~= s);
        } else {
            assert(all.drop_last() =~= before.drop_last());
            assert(joined(all, seq![sep]) =~= joined(before, seq![sep]).push(s.last()));
        }
    } else {
        assert(s =~= Seq::<char>::empty());
    }
}

/// Parts that were put together with a separator between each two, which none
/// of them holds, come apart again.
pub proof fn law_parts_come_apart(parts: Seq<Seq<char>>, sep: char)
    requires
        parts.len() > 0,
        forall|i: int| 0 <= i < parts.len() ==> !(#[trigger] parts[i]).contains(sep),
    ensures
        pieces(joined(parts, seq![sep]), sep) == parts,
    decreases parts.len(),
{
    assert(!parts[parts.len() - 1].contains(sep));
    lemma_one_piece(parts.last(), sep);
    if parts.len() == 1 {
        assert(parts =~= seq![parts[0]]);
    } else {
        let front = parts.drop_last();
        assert forall|i: int| 0 <= i < front.len() implies !(#[trigger] front[i]).contains(
            sep,
        ) by {
            assert(front[i] == parts[i]);
        }
        law_parts_come_apart(front, sep);
        lemma_pieces_across(joined(front, seq![sep]), parts.last(), sep);
        assert(front + seq![parts.last()] =~= parts);
    }
}

/// Joining puts every part in, in order, with the separator between each two:
/// one more part in front comes before the rest.
pub proof fn law_joined_in_order(first: Seq<char>, rest: Seq<Seq<char>>, sep: Seq<char>)
    ensures
        joined(seq![first] + rest, sep) == (if rest.len() == 0 {
            first
        } else {
            first + sep + joined(rest, sep)
        }),
    decreases rest.len(),
{
    let all = seq![first] + rest;
    reveal_with_fuel(joined, 2);
    if rest.len() == 0 {
        assert(all[0] == first);
    } else if rest.len() == 1 {
        assert(all.drop_last() =~= seq![first]);
        assert(all.last() == rest[0]);
    } else {
        law_joined_in_order(first, rest.drop_last(), sep);
        assert(all.drop_last() =~= seq![first] + rest.drop_last());
        assert(all.last() == rest.last());
        assert(joined(all, sep) =~= first + sep + joined(rest, sep));
    }
}

proof fn lemma_trim_start(s: Seq<char>) -> (i: int)
    ensures
        0 <= i <= s.len(),
        trimmed_start(s) == s.skip(i),
        forall|k: int| 0 <= k < i ==> is_space(#[trigger] s[k]),
        i < s.len() ==> !is_space(s[i]),
    decreases s.len(),
{
    if s.len() > 0 && is_space(s[0]) {
        let rest = s.drop_first();
        let i = lemma_trim_start(rest);
        assert(rest.skip(i) =~= s.skip(i + 1));
        assert forall|k: int| 0 <= k < i + 1 implies is_space(#[trigger] s[k]) by {
            if k > 0 {
                assert(rest[k - 1] == s[k]);
            }
        }
        if i + 1 < s.len() {
            assert(rest[i] == s[i + 1]);
        }
        i + 1
    } else {
        assert(s.skip(0) =~= s);
        0
    }
}

proof fn lemma_trim_end(s: Seq<char>) -> (j: int)
    ensures
        0 <= j <= s.len(),
        trimmed_end(s) == s.take(j),
        forall|k: int| j <= k < s.len() ==> is_space(#[trigger] s[k]),
        j > 0 ==> !is_space(s[j - 1]),
    decreases s.len(),
{
    if s.len() > 0 && is_space(s.last()) {
        let front = s.drop_last();
        let j = lemma_trim_end(front);
        assert(front.take(j) =~= s.take(j));
        assert forall|k: int| j <= k < s.len() implies is_space(#[trigger] s[k]) by {
            if k < front.len() {
                assert(front[k] == s[k]);
            }
        }
        if j > 0 {
            assert(front[j - 1] == s[j - 1]);
        }
        j
    } else {
        assert(s.take(s.len() as int) =~= s);
        s.len() as int
    }
}

/// Trimming takes off all the white space at both ends, and nothing else.
pub proof fn law_trim(s: Seq<char>)
    ensures
        exists|i: int, j: int|
            {
                &&& 0 <= i <= j <= s.len()
                &&& trimmed(s) == #[trigger] s.subrange(i, j)
                &&& forall|k: int| 0 <= k < i ==> is_space(#[trigger] s[k])
                &&& forall|k: int| j <= k < s.len() ==> is_space(#[trigger] s[k])
                &&& i < j ==> !is_space(s[i]) && !is_space(s[j - 1])
            },
{
    let i = lemma_trim_start(s);
    let rest = s.skip(i);
    let n = lemma_trim_end(rest);
    let j = i + n;
    assert(rest.take(n) =~= s.subrange(i, j));
    assert forall|k: int| j <= k < s.len() implies is_space(#[trigger] s[k]) by {
        assert(rest[k - i] == s[k]);
    }
    if n > 0 {
        assert(rest[n - 1] == s[j - 1]);
    }
}

/// White space around a text makes no difference to what trimming leaves.
pub proof fn law_trim_around(before: Seq<char>, s: Seq<char>, after: Seq<char>)
    requires
        forall|k: int| 0 <= k < before.len() ==> is_space(#[trigger] before[k]),
        forall|k: int| 0 <= k < after.len() ==> is_space(#[trigger] after[k]),
        s.len() > 0,
        !is_space(s[0]),
        !is_space(s[s.len() - 1]),
    ensures
        trimmed(before + s + after) == s,
{
    let all = before + s + after;
    let i = lemma_trim_start(all);
    if i < before.len() {
        assert(all[i] == before[i]);
    }
    if i > before.len() {
        assert(all[before.len() as int] == s[0]);
    }
    let rest = all.skip(i);
    assert(rest =~= s + after);
    let j = lemma_trim_end(rest);
    if j > s.len() {
        assert(rest[j - 1] == after[j - 1 - s.len()]);
    }
    if j < s.len() {
        assert(rest[s.len() - 1] == s[s.len() - 1]);
    }
    assert(rest.take(j) =~= s);
}

/// Dropping a character at the end drops all the copies of it that stand there,
/// and nothing else.
pub proof fn law_tail_dropped(s: Seq<char>, c: char)
    ensures
        ({
            let n = without_tail(s, c).len() as int;
            &&& n <= s.len()
            &&& without_tail(s, c) == s.take(n)
            &&& n > 0 ==> s[n - 1] != c
            &&& forall|k: int| n <= k < s.len() ==> #[trigger] s[k] == c
        }),
    decreases s.len(),
{
    if s.len() > 0 && s.last() == c {
        let front = s.drop_last();
        law_tail_dropped(front, c);
        let n = without_tail(front, c).len() as int;
        assert(front.take(n) =~= s.take(n));
        assert forall|k: int| n <= k < s.len() implies #[trigger] s[k] == c by {
            if k < front.len() {
                assert(front[k] == s[k]);
            }
        }
        if n > 0 {
            assert(front[n - 1] == s[n - 1]);
        }
    } else {
        assert(s.take(s.len() as int) =~= s);
    }
}

/// Dropping a text at the end drops every copy of it that stands there, and
/// nothing else.
pub proof fn law_tails_dropped(s: Seq<char>, pat: Seq<char>)
    requires
        pat.len() > 0,
    ensures
        without_tails(s + pat, pat) == without_tails(s, pat),
        !(s.len() >= pat.len() && s.skip(s.len() - pat.len()) == pat) ==> without_tails(s, pat)
            == s,
{
    let all = s + pat;
    assert(all.subrange(all.len() - pat.len(), all.len() as int) =~= pat);
    assert(all.take(all.len() - pat.len()) =~= s);
    if s.len() >= pat.len() {
        assert(s.subrange(s.len() - pat.len(), s.len() as int) =~= s.skip(s.len() - pat.len()));
    }
}

/// The first line of a text ends where the first newline stands, without it and
/// without a carriage return before it; the other lines are those of the rest.
pub proof fn law_first_line(line: Seq<char>, returned: bool, rest: Seq<char>)
    requires
        !line.contains('\n'),
        !returned && line.len() > 0 ==> line[line.len() - 1] != '\r',
    ensures
        line_seq(line + (if returned {
            seq!['\r', '\n']
        } else {
            seq!['\n']
        }) + rest) == seq![line] + line_seq(rest),
{
    let full = if returned {
        line + seq!['\r']
    } else {
        line
    };
    let all = line + (if returned {
        seq!['\r', '\n']
    } else {
        seq!['\n']
    }) + rest;
    assert(all =~= full + seq!['\n'] + rest);
    assert forall|i: int| 0 <= i < full.len() implies #[trigger] full[i] != '\n' by {
        if i < line.len() {
            assert(line[i] == full[i]);
            assert(line.contains(line[i]));
        }
    }
    lemma_one_piece(full, '\n');
    lemma_pieces_across(full, rest, '\n');
    lemma_pieces_nonempty(rest, '\n');
    let p = pieces(all, '\n');
    let q = pieces(rest, '\n');
    assert(p == seq![full] + q);
    assert(p.last() == q.last());
    assert(p.drop_last() =~= seq![full] + q.drop_last());
    if returned {
        assert(full.drop_last() =~= line);
    }
    assert(without_return(full) == line);
    assert(line_seq(all) =~= seq![line] + line_seq(rest));
}

/// A text without a newline is one line, or none where it is empty.
pub proof fn law_last_line(line: Seq<char>)
    requires
        !line.contains('\n'),
    ensures
        line_seq(line) == (if line.len() == 0 {
            Seq::<Seq<char>>::empty()
        } else {
            seq![line]
        }),
{
    assert forall|i: int| 0 <= i < line.len() implies #[trigger] line[i] != '\n' by {
        assert(line.contains(line[i]));
    }
    lemma_one_piece(line, '\n');
    assert(line_seq(line) =~= (if line.len() == 0 {
        Seq::<Seq<char>>::empty()
    } else {
        seq![line]
    }));
}

proof fn lemma_word_scan_open(a: Seq<char>, b: Seq<char>)
    requires
        forall|i: int| 0 <= i < b.len() ==> !is_space(#[trigger] b[i]),
    ensures
        word_scan(a + b) == (word_scan(a).0, word_scan(a).1 + b),
    decreases b.len(),
{
    if b.len() == 0 {
        assert(a + b =~= a);
        assert(word_scan(a).1 + b =~= word_scan(a).1);
    } else {
        let front = b.drop_last();
        assert forall|i: int| 0 <= i < front.len() implies !is_space(#[trigger] front[i]) by {
            assert(front[i] == b[i]);
        }
        lemma_word_scan_open(a, front);
        assert((a + b).drop_last() =~= a + front);
        assert(!is_space(b[b.len() - 1]));
        assert((word_scan(a).1 + front).push(b.last()) =~= word_scan(a).1 + b);
    }
}

proof fn lemma_word_scan_rest(a: Seq<char>, rest: Seq<char>)
    requires
        word_scan(a).1.len() == 0,
    ensures
        word_scan(a + rest) == (word_scan(a).0 + word_scan(rest).0, word_scan(rest).1),
    decreases rest.len(),
{
    let (da, oa) = word_scan(a);
    if rest.len() == 0 {
        assert(a + rest =~= a);
        assert(da + word_scan(rest).0 =~= da);
        assert(oa =~= Seq::<char>::empty());
    } else {
        lemma_word_scan_rest(a, rest.drop_last());
        assert((a + rest).drop_last() =~= a + rest.drop_last());
        let (d, o) = word_scan(rest.drop_last());
        assert(da + d.push(o) =~= (da + d).push(o));
    }
}

/// The first word of a text ends where the first white space stands; the other
/// words are those of the rest.
pub proof fn law_first_word(word: Seq<char>, space: char, rest: Seq<char>)
    requires
        word.len() > 0,
        forall|i: int| 0 <= i < word.len() ==> !is_space(#[trigger] word[i]),
        is_space(space),
    ensures
        word_seq(word + seq![space] + rest) == seq![word] + word_seq(rest),
        word_seq(seq![space] + rest) == word_seq(rest),
        word_seq(word) == seq![word],
        word_seq(Seq::<char>::empty()) == Seq::<Seq<char>>::empty(),
{
    let none = Seq::<char>::empty();
    lemma_word_scan_open(none, word);
    assert(none + word =~= word);
    let head = word + seq![space];
    assert(head.drop_last() =~= word);
    assert(word_scan(head) == (word_scan(word).0.push(word), none));
    assert(word_scan(word).0 =~= Seq::<Seq<char>>::empty());
    lemma_word_scan_rest(head, rest);
    assert(word_scan(head).0 =~= seq![word]);
    let one = seq![space];
    assert(one.drop_last() =~= none);
    lemma_word_scan_rest(one, rest);
    assert(word_scan(one).0 =~= Seq::<Seq<char>>::empty());
    assert(word_scan(one).0 + word_scan(rest).0 =~= word_scan(rest).0);
    assert(word_seq(head + rest) =~= seq![word] + word_seq(rest));
    assert(word_seq(word) =~= seq![word]);
}

/// A pattern is found where all of it stands, and it stands nowhere before; it
/// is not found only where it stands nowhere.
pub proof fn law_first_found<T>(s: Seq<T>, pat: Seq<T>)
    ensures
        match first_at(s, pat) {
            Some(k) => {
                &&& 0 <= k <= s.len() - pat.len()
                &&& forall|i: int| 0 <= i < pat.len() ==> s[k + i] == #[trigger] pat[i]
                &&& forall|j: int|
                    0 <= j < k ==> #[trigger] s.subrange(j, j + pat.len()) != pat
            },
            None => forall|j: int|
                0 <= j <= s.len() - pat.len() ==> #[trigger] s.subrange(j, j + pat.len()) != pat,
        },
{
    lemma_first_from(s, pat, 0);
    match first_at(s, pat) {
        Some(k) => {
            assert forall|i: int| 0 <= i < pat.len() implies s[k + i] == #[trigger] pat[i] by {
                assert(s.subrange(k, k + pat.len())[i] == pat[i]);
            }
            assert forall|j: int| 0 <= j < k implies #[trigger] s.subrange(j, j + pat.len())
                != pat by {
                assert(!occurs_at(s, pat, j));
            }
        },
        None => {
            assert forall|j: int| 0 <= j <= s.len() - pat.len() implies #[trigger] s.subrange(
                j,
                j + pat.len(),
            ) != pat by {
                assert(!occurs_at(s, pat, j));
            }
        },
    }
}

/// A text begins with another where all of that stands at its head.
pub proof fn law_beginning<T>(s: Seq<T>, pat: Seq<T>)
    ensures
        begins_with(s, pat) <==> pat.len() <= s.len() && forall|i: int|
            0 <= i < pat.len() ==> s[i] == #[trigger] pat[i],
{
    if begins_with(s, pat) {
        assert forall|i: int| 0 <= i < pat.len() implies s[i] == #[trigger] pat[i] by {
            assert(s.subrange(0, pat.len() as int)[i] == pat[i]);
        }
    }
    if pat.len() <= s.len() && forall|i: int| 0 <= i < pat.len() ==> s[i] == #[trigger] pat[i] {
        assert(s.subrange(0, pat.len() as int) =~= pat);
    }
}

/// What is looked for is found behind the text before it, where it begins nowhere
/// in that.
pub proof fn lemma_found_behind<T>(front: Seq<T>, pat: Seq<T>, back: Seq<T>)
    requires
        forall|j: int|
            0 <= j < front.len() ==> #[trigger] (front + pat + back).subrange(j, j + pat.len())
                != pat,
    ensures
        first_at(front + pat + back, pat) == Some(front.len() as int),
{
    let all = front + pat + back;
    let n = front.len() as int;
    lemma_first_from(all, pat, 0);
    assert(all.subrange(n, n + pat.len()) =~= pat);
    assert(occurs_at(all, pat, n));
    match first_at(all, pat) {
        Some(k) => {
            if k < n {
                assert(all.subrange(k, k + pat.len()) == pat);
            }
        },
        None => {},
    }
}

/// A character is found behind a text that does not hold it.
pub proof fn lemma_char_found(front: Seq<char>, c: char, back: Seq<char>)
    requires
        !front.contains(c),
    ensures
        first_at(front + seq![c] + back, seq![c]) == Some(front.len() as int),
{
    let all = front + seq![c] + back;
    assert forall|j: int| 0 <= j < front.len() implies #[trigger] all.subrange(j, j + 1)
        != seq![c] by {
        assert(all.subrange(j, j + 1)[0] == front[j]);
        assert(front.contains(front[j]));
    }
    lemma_found_behind(front, seq![c], back);
}

}
