//! Numbers of any size as big-endian bytes.

use crate::numerals;
use num_bigint_dig::BigUint;
use vstd::arithmetic::power::*;
use vstd::arithmetic::power2::*;
use vstd::prelude::*;

verus! {

/// The number that bytes spell, the most significant first.
pub open spec fn be_value(bytes: Seq<u8>) -> nat
    decreases bytes.len(),
{
    if bytes.len() == 0 {
        0
    } else {
        be_value(bytes.drop_last()) * 256 + bytes.last() as nat
    }
}

/// The last `k` bytes of a number, the most significant first.
pub open spec fn be_bytes(v: nat, k: nat) -> Seq<u8>
    decreases k,
{
    if k == 0 {
        Seq::<u8>::empty()
    } else {
        be_bytes(v / 256, (k - 1) as nat).push((v % 256) as u8)
    }
}

/// How many bytes a number takes.
pub open spec fn byte_len(v: nat) -> nat
    decreases v,
{
    if v == 0 {
        0
    } else {
        1 + byte_len(v / 256)
    }
}

/// The power of 256.
pub open spec fn pow256(k: nat) -> nat
    decreases k,
{
    if k == 0 {
        1
    } else {
        256 * pow256((k - 1) as nat)
    }
}

/// `s` without a plus sign at its head.
pub open spec fn without_plus(s: Seq<char>) -> Seq<char> {
    if s.len() > 0 && s[0] == '+' {
        s.drop_first()
    } else {
        s
    }
}

/// The number that hexadecimal digits spell; underscores between them do not
/// count.
pub open spec fn hex_number(s: Seq<char>) -> nat
    decreases s.len(),
{
    if s.len() == 0 {
        0
    } else if s.last() == '_' {
        hex_number(s.drop_last())
    } else {
        hex_number(s.drop_last()) * 16 + numerals::hex_value(s.last()) as nat
    }
}

/// The number that a text spells in hexadecimal, if it does. A plus sign may
/// stand before it, and underscores may stand behind its first digit.
pub open spec fn numeral(s: Seq<char>) -> Option<nat> {
    let d = without_plus(s);
    if d.len() > 0 && d[0] != '_' && forall|i: int|
        0 <= i < d.len() ==> numerals::is_hex(#[trigger] d[i]) || d[i] == '_' {
        Some(hex_number(d))
    } else {
        None
    }
}

/// `BigUint::parse_bytes` of the crate `num-bigint-dig`, in radix 16, the
/// number it gives turned into bytes. It accepts what `numeral` accepts.
#[verifier::external_body]
pub(crate) fn parse_hex(s: &str) -> (res: Option<Vec<u8>>)
    ensures
        match res {
            Some(bytes) => numeral(s@) == Some(be_value(bytes@)),
            None => numeral(s@) is None,
        },
{
    BigUint::parse_bytes(s.as_bytes(), 16).map(|n| n.to_bytes_be())
}

/// `BigUint::bits` of the crate `num-bigint-dig`: the fewest bits that express
/// the number.
#[verifier::external_body]
fn bits(bytes: &[u8]) -> (res: usize)
    ensures
        be_value(bytes@) == 0 ==> res == 0,
        be_value(bytes@) > 0 ==> res > 0 && pow2((res - 1) as nat) <= be_value(bytes@) < pow2(
            res as nat,
        ),
{
    BigUint::from_bytes_be(bytes).bits()
}

/// `BigUint::modpow` of the crate `num-bigint-dig`: a power of the base,
/// reduced by the modulus, which must not be zero. The bytes of the result
/// begin with a zero only where the result is zero, which takes one byte.
#[verifier::external_body]
fn mod_pow(base: &[u8], exponent: &[u8], modulus: &[u8]) -> (res: Vec<u8>)
    requires
        be_value(modulus@) > 0,
    ensures
        be_value(res@) == pow(be_value(base@) as int, be_value(exponent@)) % (be_value(
            modulus@,
        ) as int),
        res@.len() >= 1,
        res@.len() > 1 ==> res@[0] != 0,
{
    let n = BigUint::from_bytes_be(modulus);
    let e = BigUint::from_bytes_be(exponent);
    BigUint::from_bytes_be(base).modpow(&e, &n).to_bytes_be()
}

proof fn lemma_pow256(k: nat)
    ensures
        pow256(k) == pow2(8 * k),
        pow256(k) > 0,
    decreases k,
{
    lemma2_to64();
    if k > 0 {
        lemma_pow256((k - 1) as nat);
        lemma_pow2_adds(8, 8 * (k - 1) as nat);
        assert(8 + 8 * (k - 1) as nat == 8 * k);
    }
}

proof fn lemma_pow256_grows(a: nat, b: nat)
    requires
        a <= b,
    ensures
        0 < pow256(a) <= pow256(b),
    decreases b,
{
    lemma_pow256(a);
    if a < b {
        lemma_pow256_grows(a, (b - 1) as nat);
    }
}

/// A number of `byte_len` bytes lies between the powers of 256 on either side.
proof fn lemma_byte_len(v: nat)
    ensures
        v < pow256(byte_len(v)),
        v > 0 ==> byte_len(v) > 0 && pow256((byte_len(v) - 1) as nat) <= v,
    decreases v,
{
    if v > 0 {
        lemma_byte_len(v / 256);
        lemma_pow256(byte_len(v / 256));
        if v / 256 > 0 {
            assert(pow256(byte_len(v / 256)) == 256 * pow256((byte_len(v / 256) - 1) as nat));
        } else {
            assert(byte_len(0) == 0);
            assert(pow256(0) == 1);
        }
    }
}

/// The powers of 256 around a number fix how many bytes it takes.
proof fn lemma_byte_len_fixed(v: nat, k: nat)
    requires
        k > 0,
        pow256((k - 1) as nat) <= v < pow256(k),
    ensures
        byte_len(v) == k,
{
    lemma_pow256((k - 1) as nat);
    lemma_byte_len(v);
    if byte_len(v) < k {
        lemma_pow256_grows(byte_len(v), (k - 1) as nat);
    }
    if byte_len(v) > k {
        lemma_pow256_grows(k, (byte_len(v) - 1) as nat);
    }
}

/// How many bytes the number takes.
pub fn byte_length(bytes: &[u8]) -> (res: usize)
    ensures
        res == byte_len(be_value(bytes@)),
{
    let b = bits(bytes);
    let res: usize = if b % 8 == 0 {
        b / 8
    } else {
        b / 8 + 1
    };
    proof {
        let v = be_value(bytes@);
        if v > 0 {
            lemma_pow256(res as nat);
            lemma_pow256((res - 1) as nat);
            if b < 8 * res {
                lemma_pow2_strictly_increases(b as nat, (8 * res) as nat);
            }
            if 8 * (res - 1) < b - 1 {
                lemma_pow2_strictly_increases((8 * (res - 1)) as nat, (b - 1) as nat);
            }
            lemma_byte_len_fixed(v, res as nat);
        }
    }
    res
}

proof fn lemma_be_value_bound(bytes: Seq<u8>)
    ensures
        be_value(bytes) < pow256(bytes.len()),
        bytes.len() > 0 && bytes[0] != 0 ==> pow256((bytes.len() - 1) as nat) <= be_value(bytes),
    decreases bytes.len(),
{
    if bytes.len() > 0 {
        let front = bytes.drop_last();
        lemma_be_value_bound(front);
        if front.len() > 0 {
            assert(front[0] == bytes[0]);
            assert(pow256(front.len()) == 256 * pow256((front.len() - 1) as nat));
        } else {
            assert(pow256(0) == 1);
            assert(be_value(front) == 0);
        }
    }
}

/// Bytes are fixed by their number and how many they are.
pub proof fn lemma_be_round_trip(bytes: Seq<u8>)
    ensures
        be_bytes(be_value(bytes), bytes.len()) == bytes,
    decreases bytes.len(),
{
    if bytes.len() > 0 {
        let front = bytes.drop_last();
        lemma_be_round_trip(front);
        let v = be_value(bytes);
        assert(v / 256 == be_value(front) && v % 256 == bytes.last() as nat);
        assert(front.push(bytes.last()) =~= bytes);
    }
    assert(be_bytes(be_value(bytes), bytes.len()) =~= bytes);
}

/// Zeros in front do not change the number.
proof fn lemma_leading_zeros(zeros: Seq<u8>, bytes: Seq<u8>)
    requires
        forall|i: int| 0 <= i < zeros.len() ==> #[trigger] zeros[i] == 0,
    ensures
        be_value(zeros + bytes) == be_value(bytes),
    decreases zeros.len() + bytes.len(),
{
    let all = zeros + bytes;
    if bytes.len() > 0 {
        lemma_leading_zeros(zeros, bytes.drop_last());
        assert(all.drop_last() =~= zeros + bytes.drop_last());
        assert(all.last() == bytes.last());
    } else if zeros.len() > 0 {
        lemma_leading_zeros(zeros.drop_last(), bytes);
        assert(all.drop_last() =~= zeros.drop_last() + bytes);
        assert(all.last() == zeros[zeros.len() - 1]);
    }
}

/// Raises a number to a power and reduces it by the modulus; the result has as
/// many bytes as the modulus.
pub fn power_mod(base: &[u8], exponent: &[u8], modulus: &[u8]) -> (res: Vec<u8>)
    requires
        be_value(modulus@) > 0,
    ensures
        res@ == be_bytes(
            (pow(be_value(base@) as int, be_value(exponent@)) % (be_value(modulus@) as int)) as nat,
            byte_len(be_value(modulus@)),
        ),
        res@.len() == byte_len(be_value(modulus@)),
{
    let k = byte_length(modulus);
    let out = mod_pow(base, exponent, modulus);
    proof {
        let n = be_value(modulus@);
        let c = be_value(out@);
        assert(0 <= c < n);
        lemma_byte_len(n);
        lemma_be_value_bound(out@);
        if out@.len() > k {
            lemma_pow256_grows(k as nat, (out@.len() - 1) as nat);
        }
    }
    let mut res: Vec<u8> = Vec::new();
    let pad: usize = k - out.len();
    while res.len() < pad
        invariant
            res@.len() <= pad,
            forall|i: int| 0 <= i < res@.len() ==> #[trigger] res@[i] == 0,
        decreases pad - res@.len(),
    {
        res.push(0);
    }
    let ghost zeros = res@;
    let mut i: usize = 0;
    assert(zeros + out@.take(0) =~= zeros);
    while i < out.len()
        invariant
            i <= out@.len(),
            res@ == zeros + out@.take(i as int),
        decreases out@.len() - i,
    {
        res.push(out[i]);
        assert(zeros + out@.take(i + 1) =~= (zeros + out@.take(i as int)).push(out@[i as int]));
        i = i + 1;
    }
    proof {
        assert(out@.take(i as int) =~= out@);
        lemma_leading_zeros(zeros, out@);
        lemma_be_round_trip(res@);
    }
    res
}

/// What bytes are worth: the last counts once, and each before it 256 times what
/// it counts without it.
pub proof fn law_bytes_count(bytes: Seq<u8>, last: u8)
    ensures
        be_value(Seq::<u8>::empty()) == 0,
        be_value(bytes.push(last)) == 256 * be_value(bytes) + last,
{
    assert(bytes.push(last).drop_last() =~= bytes);
}

/// A number takes as many bytes as spell it without a zero in front; zero takes
/// none.
pub proof fn law_byte_len(bytes: Seq<u8>)
    requires
        bytes.len() > 0,
        bytes[0] != 0,
    ensures
        byte_len(be_value(bytes)) == bytes.len(),
        byte_len(0) == 0,
{
    lemma_be_value_bound(bytes);
    lemma_pow256((bytes.len() - 1) as nat);
    lemma_byte_len_fixed(be_value(bytes), bytes.len());
}

/// A number reads back from as many bytes as hold it.
pub proof fn law_number_reads_back(v: nat, k: nat)
    requires
        v < pow256(k),
    ensures
        be_bytes(v, k).len() == k,
        be_value(be_bytes(v, k)) == v,
    decreases k,
{
    if k > 0 {
        law_number_reads_back(v / 256, (k - 1) as nat);
        let front = be_bytes(v / 256, (k - 1) as nat);
        assert(be_bytes(v, k).drop_last() =~= front);
    } else {
        assert(pow256(0) == 1);
    }
}

/// A number of `k` bytes is below the power of 256 of as many.
pub proof fn lemma_below_power(v: nat, n: nat)
    requires
        v < n,
    ensures
        v < pow256(byte_len(n)),
{
    lemma_byte_len(n);
}

/// The hexadecimal text of bytes is read as the number that they spell; a plus
/// sign before it changes nothing.
pub proof fn law_hex_is_read_as_bytes(bytes: Seq<u8>)
    requires
        bytes.len() > 0,
    ensures
        numeral(numerals::hex_text(bytes)) == Some(be_value(bytes)),
        numeral(seq!['+'] + numerals::hex_text(bytes)) == Some(be_value(bytes)),
{
    let s = numerals::hex_text(bytes);
    numerals::lemma_hex_text(bytes);
    lemma_hex_number_of_bytes(bytes);
    assert(without_plus(s) == s);
    assert((seq!['+'] + s).drop_first() =~= s);
    assert(s[0] != '_');
    assert forall|i: int| 0 <= i < s.len() implies numerals::is_hex(#[trigger] s[i]) by {}
}

proof fn lemma_hex_number_of_bytes(bytes: Seq<u8>)
    ensures
        hex_number(numerals::hex_text(bytes)) == be_value(bytes),
    decreases bytes.len(),
{
    if bytes.len() > 0 {
        let front = bytes.drop_last();
        lemma_hex_number_of_bytes(front);
        let a = numerals::hex_text(front);
        let two = numerals::hex_byte(bytes.last());
        let s = numerals::hex_text(bytes);
        assert(s == a + two);
        assert(s.drop_last() =~= a.push(two[0]));
        assert(s.drop_last().drop_last() =~= a);
        assert(s.last() == two[1] && s.drop_last().last() == two[0]);
        let high = numerals::hex_value(two[0]);
        let low = numerals::hex_value(two[1]);
        assert(high == bytes.last() as int / 16 && low == bytes.last() as int % 16);
        assert(two[0] != '_' && two[1] != '_');
        assert(hex_number(s.drop_last()) == hex_number(a) * 16 + high as nat);
        assert(hex_number(s) == hex_number(s.drop_last()) * 16 + low as nat);
        assert(be_value(bytes) == be_value(front) * 256 + bytes.last() as nat);
    } else {
        assert(numerals::hex_text(bytes).len() == 0);
    }
}

/// A text that is empty, or holds anything but hexadecimal digits, is no number.
pub proof fn law_other_text_is_no_number(s: Seq<char>, i: int)
    requires
        0 <= i < s.len(),
        !('0' <= s[i] <= '9' || 'a' <= s[i] <= 'f' || 'A' <= s[i] <= 'F' || s[i] == '_' || s[i]
            == '+' && i == 0),
    ensures
        numeral(s) is None,
        numeral(Seq::<char>::empty()) is None,
{
    let d = without_plus(s);
    if s[0] == '+' {
        assert(d[i - 1] == s[i]);
    } else {
        assert(d[i] == s[i]);
    }
}

/// An underscore behind the first digit changes nothing of what a text spells.
pub proof fn law_underscores_do_not_count(front: Seq<char>, back: Seq<char>)
    requires
        front.len() > 0,
        front[0] != '+',
    ensures
        numeral(front + seq!['_'] + back) == numeral(front + back),
{
    let with = front + seq!['_'] + back;
    let without = front + back;
    lemma_underscore(front, back);
    let n = front.len() as int;
    if forall|i: int|
        0 <= i < without.len() ==> numerals::is_hex(#[trigger] without[i]) || without[i] == '_' {
        assert forall|i: int| 0 <= i < with.len() implies numerals::is_hex(#[trigger] with[i])
            || with[i] == '_' by {
            if i < n {
                assert(with[i] == without[i]);
            } else if i > n {
                assert(with[i] == without[i - 1]);
            }
        }
    } else {
        let k = choose|i: int|
            0 <= i < without.len() && !(numerals::is_hex(#[trigger] without[i]) || without[i]
                == '_');
        if k < n {
            assert(with[k] == without[k]);
        } else {
            assert(with[k + 1] == without[k]);
        }
    }
}

proof fn lemma_underscore(front: Seq<char>, back: Seq<char>)
    ensures
        hex_number(front + seq!['_'] + back) == hex_number(front + back),
    decreases back.len(),
{
    let with = front + seq!['_'] + back;
    let without = front + back;
    if back.len() == 0 {
        assert(with.drop_last() =~= front);
        assert(without =~= front);
    } else {
        lemma_underscore(front, back.drop_last());
        assert(with.drop_last() =~= front + seq!['_'] + back.drop_last());
        assert(without.drop_last() =~= front + back.drop_last());
    }
}

}
