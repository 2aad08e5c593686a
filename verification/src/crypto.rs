//! The ciphers of the router's login: RSA with random padding, AES in chained
//! blocks, and digests.

use crate::bignum;
use crate::bignum::{byte_length, parse_hex, power_mod};
use crate::numerals;
use crate::numerals::{hex_chars, push_decimal};
use crate::random::{random_bytes, NoRandom};
use crate::text;
use crate::text::{chars_of, push_all, string_of, trim};
use aes::cipher::block_padding::{Pkcs7, UnpadError};
use aes::cipher::{BlockDecryptMut, BlockEncryptMut, KeyIvInit};
use base64::engine::general_purpose::STANDARD;
use base64::Engine;
use md5::{Digest, Md5};
use vstd::arithmetic::power::*;
use vstd::prelude::*;
use vstd::slice::slice_subrange;
use vstd::string::*;
use vstd::utf8::*;

verus! {

/// How many bytes of a signature go into one block: what a key of 512 bits
/// leaves beside the padding.
pub const SIGN_CHUNK: usize = 53;

/// How many bytes of a block the padding takes at least.
pub const PADDING_BYTES: usize = 11;

/// Writes bytes in hexadecimal.
fn hex_encode(bytes: &[u8]) -> (res: String)
    ensures
        res@ == numerals::hex_text(bytes@),
{
    string_of(&hex_chars(bytes))
}

/// The MD5 digest of bytes.
pub uninterp spec fn md5_digest(bytes: Seq<u8>) -> Seq<u8>;

/// `Md5::digest` of the crate `md-5`. Its result, sixteen bytes, depends on
/// the input alone; the function itself is not spelled out.
#[verifier::external_body]
fn md5_of(bytes: &[u8]) -> (res: Vec<u8>)
    ensures
        res@ == md5_digest(bytes@),
        res@.len() == 16,
{
    Md5::digest(bytes).to_vec()
}

/// The bytes that AES-128 in CBC mode makes of a plaintext, padded by PKCS#7.
pub uninterp spec fn aes_ciphertext(plain: Seq<u8>, key: Seq<u8>, iv: Seq<u8>) -> Seq<u8>;

/// The plaintext in a ciphertext of AES-128 in CBC mode, if its padding is
/// that of PKCS#7.
pub uninterp spec fn aes_plaintext(cipher: Seq<u8>, key: Seq<u8>, iv: Seq<u8>) -> Option<Seq<u8>>;

/// How many bytes a plaintext of `n` bytes takes when padded to whole blocks.
pub open spec fn padded_len(n: nat) -> nat {
    16 * (n / 16 + 1)
}

/// `encrypt_padded_vec_mut` of `cbc::Encryptor<aes::Aes128>`, with PKCS#7
/// padding. The result depends on the arguments alone, fills whole blocks, and
/// decrypts to the plaintext. Key and vector must have sixteen bytes each.
#[verifier::external_body]
fn cbc_encrypt(plain: &[u8], key: &[u8], iv: &[u8]) -> (res: Vec<u8>)
    requires
        key@.len() == 16,
        iv@.len() == 16,
    ensures
        res@ == aes_ciphertext(plain@, key@, iv@),
        res@.len() == padded_len(plain@.len()),
        aes_plaintext(res@, key@, iv@) == Some(plain@),
{
    cbc::Encryptor::<aes::Aes128>::new(key.into(), iv.into()).encrypt_padded_vec_mut::<Pkcs7>(plain)
}

/// The error of the crate `block-padding`.
#[verifier::external_type_specification]
#[verifier::external_body]
pub struct ExUnpadError(UnpadError);

/// `decrypt_padded_vec_mut` of `cbc::Decryptor<aes::Aes128>`, with PKCS#7
/// padding. The result depends on the arguments alone. Key and vector must
/// have sixteen bytes each.
#[verifier::external_body]
fn cbc_decrypt(cipher: &[u8], key: &[u8], iv: &[u8]) -> (res: Result<Vec<u8>, UnpadError>)
    requires
        key@.len() == 16,
        iv@.len() == 16,
    ensures
        match res {
            Ok(plain) => aes_plaintext(cipher@, key@, iv@) == Some(plain@),
            Err(_) => aes_plaintext(cipher@, key@, iv@) is None,
        },
{
    cbc::Decryptor::<aes::Aes128>::new(key.into(), iv.into()).decrypt_padded_vec_mut::<Pkcs7>(cipher)
}

/// Bytes as text in base 64.
pub uninterp spec fn base64_text(bytes: Seq<u8>) -> Seq<char>;

/// The bytes that a text in base 64 stands for, or why it is none.
pub uninterp spec fn base64_bytes(s: Seq<char>) -> Result<Seq<u8>, Seq<char>>;

/// Whether `c` belongs to the alphabet of base 64, or pads it.
pub open spec fn is_base64(c: char) -> bool {
    'A' <= c <= 'Z' || 'a' <= c <= 'z' || '0' <= c <= '9' || c == '+' || c == '/' || c == '='
}

/// How many characters `n` bytes take in base 64.
pub open spec fn base64_len(n: nat) -> nat {
    4 * ((n + 2) / 3)
}

/// `STANDARD.encode` of the crate `base64`. The result depends on the bytes
/// alone, keeps to the alphabet, takes four characters for every three bytes
/// begun, and decodes to the bytes.
#[verifier::external_body]
fn base64_encode(bytes: &[u8]) -> (res: String)
    ensures
        res@ == base64_text(bytes@),
        res@.len() == base64_len(bytes@.len()),
        forall|i: int| 0 <= i < res@.len() ==> is_base64(#[trigger] res@[i]),
        (base64_bytes(res@) == Ok::<Seq<u8>, Seq<char>>(bytes@)),
{
    STANDARD.encode(bytes)
}

/// `STANDARD.decode` of the crate `base64`, or what its error tells. The result
/// depends on the text alone.
#[verifier::external_body]
fn base64_decode(s: &str) -> (res: Result<Vec<u8>, String>)
    ensures
        match res {
            Ok(bytes) => base64_bytes(s@) matches Ok(want) && bytes@ == want,
            Err(why) => base64_bytes(s@) matches Err(want) && why@ == want,
        },
{
    match STANDARD.decode(s) {
        Ok(bytes) => Ok(bytes),
        Err(e) => Err(e.to_string()),
    }
}

/// What is told of bytes that are not UTF-8.
pub uninterp spec fn utf8_fault(bytes: Seq<u8>) -> Seq<char>;

/// `String::from_utf8` of the standard library takes bytes for the text they
/// encode, and refuses bytes that are not UTF-8. What its error tells depends on
/// the bytes alone.
#[verifier::external_body]
fn text_from(bytes: Vec<u8>) -> (res: Result<String, String>)
    ensures
        match res {
            Ok(s) => valid_utf8(bytes@) && s@ == decode_utf8(bytes@),
            Err(why) => !valid_utf8(bytes@) && why@ == utf8_fault(bytes@),
        },
{
    match String::from_utf8(bytes) {
        Ok(s) => Ok(s),
        Err(e) => Err(e.to_string()),
    }
}

/// Why a text could not be decrypted.
#[derive(Clone, Debug, PartialEq, Eq)]
pub enum AesError {
    /// It is not in base 64, and why.
    NotBase64 { why: String },
    /// Its padding is wrong.
    BadPadding,
    /// It decrypts to bytes that are no text, and why.
    NotText { why: String },
}

/// Why a text could not be decrypted.
pub enum AesFault {
    NotBase64 { why: Seq<char> },
    BadPadding,
    NotText { why: Seq<char> },
}

impl View for AesError {
    type V = AesFault;

    open spec fn view(&self) -> AesFault {
        match self {
            AesError::NotBase64 { why } => AesFault::NotBase64 { why: why@ },
            AesError::BadPadding => AesFault::BadPadding,
            AesError::NotText { why } => AesFault::NotText { why: why@ },
        }
    }
}

/// What a text in base 64 decrypts to.
pub open spec fn decrypted(s: Seq<char>, key: Seq<u8>, iv: Seq<u8>) -> Result<Seq<char>, AesFault> {
    match base64_bytes(text::trimmed(s)) {
        Ok(cipher) => match aes_plaintext(cipher, key, iv) {
            Some(plain) => if valid_utf8(plain) {
                Ok(decode_utf8(plain))
            } else {
                Err(AesFault::NotText { why: utf8_fault(plain) })
            },
            None => Err(AesFault::BadPadding),
        },
        Err(why) => Err(AesFault::NotBase64 { why }),
    }
}

/// How many characters the encryption of `n` bytes takes.
pub open spec fn sealed_len(n: nat) -> nat {
    base64_len(padded_len(n))
}

proof fn lemma_base64_is_trimmed(s: Seq<char>)
    requires
        forall|i: int| 0 <= i < s.len() ==> is_base64(#[trigger] s[i]),
    ensures
        text::trimmed(s) == s,
        is_ascii_chars(s),
{
    assert forall|i: int| 0 <= i < s.len() implies '\0' <= #[trigger] s[i] <= '\u{7f}' by {
        assert(is_base64(s[i]));
    }
    if s.len() > 0 {
        assert(is_base64(s[0]));
        assert(is_base64(s[s.len() - 1]));
    }
}

/// Encrypts a text. Decrypting the result under the same key and vector gives
/// the text back.
pub fn aes_encrypt(plain: &str, key: &[u8], iv: &[u8]) -> (res: String)
    requires
        key@.len() == 16,
        iv@.len() == 16,
    ensures
        res@ == base64_text(aes_ciphertext(encode_utf8(plain@), key@, iv@)),
        decrypted(res@, key@, iv@) == Ok::<Seq<char>, AesFault>(plain@),
        res@.len() == sealed_len(encode_utf8(plain@).len()),
        is_ascii_chars(res@),
{
    let cipher = cbc_encrypt(plain.as_bytes(), key, iv);
    let res = base64_encode(&cipher);
    proof {
        lemma_base64_is_trimmed(res@);
        encode_utf8_valid_utf8(plain@);
        encode_utf8_decode_utf8(plain@);
    }
    res
}

/// Decrypts a text; white space around it does not matter.
pub fn aes_decrypt(b64: &str, key: &[u8], iv: &[u8]) -> (res: Result<String, AesError>)
    requires
        key@.len() == 16,
        iv@.len() == 16,
    ensures
        match res {
            Ok(plain) => decrypted(b64@, key@, iv@) == Ok::<Seq<char>, AesFault>(plain@),
            Err(e) => decrypted(b64@, key@, iv@) == Err::<Seq<char>, AesFault>(e@),
        },
{
    let chars = chars_of(b64);
    let body = string_of(trim(&chars));
    match base64_decode(body.as_str()) {
        Ok(cipher) => match cbc_decrypt(&cipher, key, iv) {
            Ok(plain) => match text_from(plain) {
                Ok(s) => Ok(s),
                Err(why) => Err(AesError::NotText { why }),
            },
            Err(_) => Err(AesError::BadPadding),
        },
        Err(why) => Err(AesError::NotBase64 { why }),
    }
}

/// Digests two texts, one after the other, in hexadecimal.
pub fn md5_hex(a: &str, b: &str) -> (res: String)
    ensures
        res@ == numerals::hex_text(md5_digest(encode_utf8(a@) + encode_utf8(b@))),
        res@.len() == 32,
{
    let mut bytes: Vec<u8> = Vec::new();
    push_all(&mut bytes, a.as_bytes());
    push_all(&mut bytes, b.as_bytes());
    assert(bytes@ =~= encode_utf8(a@) + encode_utf8(b@));
    let digest = md5_of(&bytes);
    proof {
        numerals::lemma_hex_text(digest@);
    }
    hex_encode(&digest)
}

/// Whether a text is a key or a vector of AES: sixteen hexadecimal digits,
/// whose characters are the key.
pub open spec fn is_hex16(s: Seq<char>) -> bool {
    s.len() == 16 && forall|i: int|
        0 <= i < 16 ==> '0' <= #[trigger] s[i] <= '9' || 'a' <= s[i] <= 'f'
}

/// Makes a key or a vector of the random bytes that were drawn, if any were:
/// eight of them give sixteen digits.
pub fn hex16_from(drawn: Result<Vec<u8>, NoRandom>) -> (res: Result<String, NoRandom>)
    ensures
        match drawn {
            Ok(bytes) => res matches Ok(s) && s@ == numerals::hex_text(bytes@) && (bytes@.len() == 8
                ==> is_hex16(s@)),
            Err(e) => res == Err::<String, NoRandom>(e),
        },
{
    match drawn {
        Ok(bytes) => {
            proof {
                numerals::lemma_hex_text(bytes@);
            }
            Ok(hex_encode(&bytes))
        },
        Err(e) => Err(e),
    }
}

/// Draws a key or a vector: eight random bytes in hexadecimal.
pub fn gen_hex16() -> (res: Result<String, NoRandom>)
    ensures
        res matches Ok(s) ==> is_hex16(s@) && exists|bytes: Seq<u8>|
            bytes.len() == 8 && s@ == #[trigger] numerals::hex_text(bytes),
{
    hex16_from(random_bytes(8))
}

/// Why a block could not be encrypted.
#[derive(Clone, Debug, PartialEq, Eq)]
pub enum RsaError {
    /// The modulus is no hexadecimal number.
    BadModulus,
    /// The exponent is no hexadecimal number.
    BadExponent,
    /// The message does not fit the key; lengths in bytes.
    TooLong { message: usize, key: usize },
    /// There are no random bytes for the padding, and why.
    NoRandom { why: String },
}

/// Why a block could not be encrypted.
pub enum RsaFault {
    BadModulus,
    BadExponent,
    TooLong { message: nat, key: nat },
    NoRandom { why: Seq<char> },
}

impl View for RsaError {
    type V = RsaFault;

    open spec fn view(&self) -> RsaFault {
        match self {
            RsaError::BadModulus => RsaFault::BadModulus,
            RsaError::BadExponent => RsaFault::BadExponent,
            RsaError::TooLong { message, key } => RsaFault::TooLong {
                message: *message as nat,
                key: *key as nat,
            },
            RsaError::NoRandom { why } => RsaFault::NoRandom { why: why@ },
        }
    }
}

/// How many bytes a message may have under a key of `k` bytes.
pub open spec fn room(k: nat) -> nat {
    if k >= PADDING_BYTES {
        (k - PADDING_BYTES) as nat
    } else {
        0
    }
}

/// What is wrong with a message of `len` bytes or with the key, if anything.
pub open spec fn rsa_fault(len: nat, n_hex: Seq<char>, e_hex: Seq<char>) -> Option<RsaFault> {
    match bignum::numeral(n_hex) {
        None => Some(RsaFault::BadModulus),
        Some(n) => if bignum::numeral(e_hex) is None {
            Some(RsaFault::BadExponent)
        } else if len > room(bignum::byte_len(n)) {
            Some(RsaFault::TooLong { message: len, key: bignum::byte_len(n) })
        } else {
            None
        },
    }
}

/// How many bytes the key has.
pub open spec fn key_len(n_hex: Seq<char>) -> nat {
    match bignum::numeral(n_hex) {
        Some(n) => bignum::byte_len(n),
        None => 0,
    }
}

/// Looks for a fault with a message of `len` bytes or with the key; without
/// one, gives how many bytes the key has.
pub(crate) fn check_key(len: usize, n_hex: &str, e_hex: &str) -> (res: Result<usize, RsaError>)
    ensures
        match rsa_fault(len as nat, n_hex@, e_hex@) {
            Some(fault) => res matches Err(e) && e@ == fault,
            None => res matches Ok(k) && k == key_len(n_hex@),
        },
{
    let k = match parse_hex(n_hex) {
        Some(n) => byte_length(&n),
        None => {
            return Err(RsaError::BadModulus);
        },
    };
    if parse_hex(e_hex).is_none() {
        return Err(RsaError::BadExponent);
    }
    let most: usize = if k >= PADDING_BYTES {
        k - PADDING_BYTES
    } else {
        0
    };
    if len > most {
        return Err(RsaError::TooLong { message: len, key: k });
    }
    Ok(k)
}

/// A message with its padding in front, as PKCS#1 lays it out for encryption.
pub open spec fn padded_message(msg: Seq<u8>, padding: Seq<u8>) -> Seq<u8> {
    seq![0u8, 2u8] + padding + seq![0u8] + msg
}

/// Whether bytes can pad a message to a block: as many as needed, none zero.
pub open spec fn is_padding(padding: Seq<u8>, len: int) -> bool {
    padding.len() == len && forall|i: int| 0 <= i < padding.len() ==> #[trigger] padding[i] != 0
}

/// The block that a padded message is encrypted to: as many bytes as the key.
pub open spec fn rsa_block(
    msg: Seq<u8>,
    padding: Seq<u8>,
    n_hex: Seq<char>,
    e_hex: Seq<char>,
) -> Seq<u8> {
    let n = bignum::numeral(n_hex)->0;
    let e = bignum::numeral(e_hex)->0;
    let m = bignum::be_value(padded_message(msg, padding));
    bignum::be_bytes((pow(m as int, e) % (n as int)) as nat, bignum::byte_len(n))
}

proof fn lemma_be_bytes_len(v: nat, k: nat)
    ensures
        bignum::be_bytes(v, k).len() == k,
    decreases k,
{
    if k > 0 {
        lemma_be_bytes_len(v / 256, (k - 1) as nat);
    }
}

/// Encrypts one block under the given padding, in hexadecimal. The padding
/// fills the block.
pub fn rsa_block_with(msg: &[u8], padding: &[u8], n_hex: &str, e_hex: &str) -> (res: Result<
    String,
    RsaError,
>)
    requires
        rsa_fault(msg@.len(), n_hex@, e_hex@) is None ==> padding@.len() + msg@.len() + 3
            == key_len(n_hex@),
    ensures
        match rsa_fault(msg@.len(), n_hex@, e_hex@) {
            Some(fault) => res matches Err(e) && e@ == fault,
            None => res matches Ok(s) && s@ == numerals::hex_text(
                rsa_block(msg@, padding@, n_hex@, e_hex@),
            ) && s@.len() == 2 * key_len(n_hex@),
        },
{
    let n = match parse_hex(n_hex) {
        Some(n) => n,
        None => {
            return Err(RsaError::BadModulus);
        },
    };
    let e = match parse_hex(e_hex) {
        Some(e) => e,
        None => {
            return Err(RsaError::BadExponent);
        },
    };
    match check_key(msg.len(), n_hex, e_hex) {
        Ok(_) => {},
        Err(e) => {
            return Err(e);
        },
    }
    let mut em: Vec<u8> = Vec::new();
    em.push(0);
    em.push(2);
    push_all(&mut em, padding);
    em.push(0);
    push_all(&mut em, msg);
    proof {
        assert(em@ =~= padded_message(msg@, padding@));
        lemma_positive(bignum::be_value(n@));
    }
    let block = power_mod(&em, &e, &n);
    proof {
        numerals::lemma_hex_text(block@);
    }
    Ok(hex_encode(&block))
}

proof fn lemma_positive(v: nat)
    requires
        bignum::byte_len(v) > 0,
    ensures
        v > 0,
{
}

/// How often a byte of the padding is drawn anew at most.
pub const MAX_DRAWS: u64 = 18446744073709551615;

/// Judges a byte that was drawn for the padding: one that is not zero is taken;
/// in place of a zero another is drawn; that none could be drawn is handed on.
pub fn redrawn(drawn: Result<Vec<u8>, NoRandom>) -> (res: Result<Option<u8>, NoRandom>)
    requires
        drawn matches Ok(bytes) ==> bytes@.len() == 1,
    ensures
        match drawn {
            Ok(bytes) => res == Ok::<Option<u8>, NoRandom>(
                if bytes@[0] != 0 {
                    Some(bytes@[0])
                } else {
                    None
                },
            ),
            Err(e) => res == Err::<Option<u8>, NoRandom>(e),
        },
{
    match drawn {
        Ok(bytes) => if bytes[0] != 0 {
            Ok(Some(bytes[0]))
        } else {
            Ok(None)
        },
        Err(e) => Err(e),
    }
}

/// Draws one byte that is not zero.
fn draw_nonzero(first: u8) -> (res: Result<u8, NoRandom>)
    ensures
        res matches Ok(b) ==> b != 0 && (first != 0 ==> b == first),
        first != 0 ==> res is Ok,
{
    if first != 0 {
        return Ok(first);
    }
    let mut left: u64 = MAX_DRAWS;
    while left > 0
        invariant
            first == 0,
        decreases left,
    {
        match redrawn(random_bytes(1)) {
            Ok(Some(b)) => {
                return Ok(b);
            },
            Ok(None) => {},
            Err(e) => {
                return Err(e);
            },
        }
        left = left - 1;
    }
    Err(NoRandom { why: "zeros only".to_string() })
}

/// Whether no byte is zero.
pub open spec fn zero_free(bytes: Seq<u8>) -> bool {
    forall|i: int| 0 <= i < bytes.len() ==> #[trigger] bytes[i] != 0
}

/// Makes padding of random bytes: each zero among them is drawn anew, and the
/// others stay. Where there is none, the bytes are the padding.
pub fn without_zeros(drawn: Vec<u8>) -> (res: Result<Vec<u8>, NoRandom>)
    ensures
        res matches Ok(padding) ==> is_padding(padding@, drawn@.len() as int) && forall|i: int|
            0 <= i < drawn@.len() && drawn@[i] != 0 ==> #[trigger] padding@[i] == drawn@[i],
        zero_free(drawn@) ==> (res matches Ok(padding) && padding@ == drawn@),
{
    let ghost first = drawn@;
    let len = drawn.len();
    let mut bytes = drawn;
    let mut i: usize = 0;
    while i < len
        invariant
            i <= len,
            bytes@.len() == len,
            first.len() == len,
            first == drawn@,
            forall|j: int| 0 <= j < i ==> #[trigger] bytes@[j] != 0,
            forall|j: int| 0 <= j < i && first[j] != 0 ==> #[trigger] bytes@[j] == first[j],
            forall|j: int| i <= j < len ==> #[trigger] bytes@[j] == first[j],
        decreases len - i,
    {
        match draw_nonzero(bytes[i]) {
            Ok(b) => {
                bytes[i] = b;
            },
            Err(e) => {
                assert(first[i as int] == 0);
                return Err(e);
            },
        }
        i = i + 1;
    }
    proof {
        if zero_free(first) {
            assert forall|j: int| 0 <= j < len implies bytes@[j] == first[j] by {
                assert(first[j] != 0);
            }
            assert(bytes@ =~= first);
        }
    }
    Ok(bytes)
}

/// Draws padding: random bytes, none of them zero. No padding at all can always
/// be drawn.
pub fn draw_padding(len: usize) -> (res: Result<Vec<u8>, NoRandom>)
    ensures
        res matches Ok(padding) ==> is_padding(padding@, len as int),
        len == 0 ==> res is Ok,
{
    match random_bytes(len) {
        Ok(bytes) => without_zeros(bytes),
        Err(e) => Err(e),
    }
}

/// Whether a text is the encryption of a message under some padding.
pub open spec fn is_rsa_block(
    s: Seq<char>,
    msg: Seq<u8>,
    n_hex: Seq<char>,
    e_hex: Seq<char>,
) -> bool {
    exists|padding: Seq<u8>|
        {
            &&& is_padding(padding, key_len(n_hex) - msg.len() - 3)
            &&& s == numerals::hex_text(#[trigger] rsa_block(msg, padding, n_hex, e_hex))
        }
}

/// Encrypts one block under random padding, in hexadecimal. The key must have
/// room for the padding's own three bytes; where it has room for no more, nothing
/// is drawn and the block is always made.
pub fn rsa_encrypt_block(msg: &[u8], n_hex: &str, e_hex: &str) -> (res: Result<String, RsaError>)
    requires
        rsa_fault(msg@.len(), n_hex@, e_hex@) is None ==> key_len(n_hex@) >= 3,
    ensures
        match rsa_fault(msg@.len(), n_hex@, e_hex@) {
            Some(fault) => res matches Err(e) && e@ == fault,
            None => match res {
                Ok(s) => is_rsa_block(s@, msg@, n_hex@, e_hex@) && s@.len() == 2 * key_len(n_hex@),
                Err(e) => e is NoRandom && key_len(n_hex@) != msg@.len() + 3,
            },
        },
{
    let k = match check_key(msg.len(), n_hex, e_hex) {
        Ok(k) => k,
        Err(e) => {
            return Err(e);
        },
    };
    match draw_padding(k - msg.len() - 3) {
        Ok(padding) => {
            let res = rsa_block_with(msg, &padding, n_hex, e_hex);
            assert(is_padding(padding@, key_len(n_hex@) - msg@.len() - 3));
            res
        },
        Err(e) => Err(RsaError::NoRandom { why: e.why }),
    }
}

/// The text that is signed for a request: the digest of the login and the
/// sequence number, and at login the key and the vector too.
pub open spec fn sign_text(
    seq: u64,
    is_login: bool,
    hash: Seq<char>,
    key: Seq<char>,
    iv: Seq<char>,
) -> Seq<char> {
    let tail = "h="@ + hash + "&s="@ + numerals::decimal(seq as nat);
    if is_login {
        "k="@ + key + "&i="@ + iv + "&"@ + tail
    } else {
        tail
    }
}

/// How many blocks a text of `len` bytes takes.
pub open spec fn chunk_count(len: nat) -> nat {
    (len + SIGN_CHUNK - 1) as nat / SIGN_CHUNK as nat
}

/// The bytes that go into the block at `i`.
pub open spec fn chunk_at(bytes: Seq<u8>, i: int) -> Seq<u8> {
    let start = SIGN_CHUNK * i;
    let end = SIGN_CHUNK * (i + 1);
    bytes.subrange(start, if end < bytes.len() {
        end
    } else {
        bytes.len() as int
    })
}

/// The first `count` blocks of a signature in hexadecimal, each under its own
/// padding.
pub open spec fn signed(
    bytes: Seq<u8>,
    paddings: Seq<Seq<u8>>,
    n_hex: Seq<char>,
    e_hex: Seq<char>,
    count: nat,
) -> Seq<char>
    decreases count,
{
    if count == 0 {
        Seq::<char>::empty()
    } else {
        let i = count - 1;
        signed(bytes, paddings, n_hex, e_hex, i as nat) + numerals::hex_text(
            rsa_block(chunk_at(bytes, i), paddings[i], n_hex, e_hex),
        )
    }
}

/// Whether the paddings fill the first `count` blocks.
pub open spec fn are_paddings(
    bytes: Seq<u8>,
    paddings: Seq<Seq<u8>>,
    n_hex: Seq<char>,
    count: nat,
) -> bool {
    &&& paddings.len() == count
    &&& forall|i: int|
        0 <= i < count ==> is_padding(
            #[trigger] paddings[i],
            key_len(n_hex) - chunk_at(bytes, i).len() - 3,
        )
}

/// Whether a text is a signature of bytes under some paddings.
pub open spec fn is_signature(
    s: Seq<char>,
    bytes: Seq<u8>,
    n_hex: Seq<char>,
    e_hex: Seq<char>,
) -> bool {
    exists|paddings: Seq<Seq<u8>>|
        {
            &&& #[trigger] are_paddings(bytes, paddings, n_hex, chunk_count(bytes.len()))
            &&& s == signed(bytes, paddings, n_hex, e_hex, chunk_count(bytes.len()))
        }
}

/// A signature has as many hexadecimal digits as its blocks have: two for each
/// byte of the key.
pub proof fn law_signature_length(
    bytes: Seq<u8>,
    paddings: Seq<Seq<u8>>,
    n_hex: Seq<char>,
    e_hex: Seq<char>,
    count: nat,
)
    requires
        bignum::numeral(n_hex) is Some,
    ensures
        signed(bytes, paddings, n_hex, e_hex, count).len() == 2 * key_len(n_hex) * count,
    decreases count,
{
    let k = key_len(n_hex);
    if count > 0 {
        law_signature_length(bytes, paddings, n_hex, e_hex, (count - 1) as nat);
        let n = bignum::numeral(n_hex)->0;
        let e = bignum::numeral(e_hex)->0;
        let chunk = chunk_at(bytes, count - 1);
        let m = bignum::be_value(padded_message(chunk, paddings[count - 1]));
        lemma_be_bytes_len((pow(m as int, e) % (n as int)) as nat, k);
        numerals::lemma_hex_text(rsa_block(chunk, paddings[count - 1], n_hex, e_hex));
        assert(2 * k * count == 2 * k * (count - 1) + 2 * k) by (nonlinear_arith)
            requires
                count > 0,
        ;
    } else {
        assert(2 * k * 0 == 0) by (nonlinear_arith);
    }
}

/// What each byte string holds.
pub open spec fn byte_seqs(v: Seq<Vec<u8>>) -> Seq<Seq<u8>> {
    v.map_values(|p: Vec<u8>| p@)
}

/// Whether there is a padding for each chunk, which fills its block.
pub open spec fn paddings_fit(bytes: Seq<u8>, paddings: Seq<Seq<u8>>, n_hex: Seq<char>) -> bool {
    &&& paddings.len() == chunk_count(bytes.len())
    &&& forall|i: int|
        0 <= i < paddings.len() ==> (#[trigger] paddings[i]).len() + chunk_at(bytes, i).len() + 3
            == key_len(n_hex)
}

/// Cuts the chunk at `i` out of the bytes that are signed.
fn cut_chunk(bytes: &[u8], i: usize) -> (res: &[u8])
    requires
        i < chunk_count(bytes@.len()),
    ensures
        res@ == chunk_at(bytes@, i as int),
        0 < res@.len() <= chunk_at(bytes@, 0).len(),
{
    let total: usize = bytes.len();
    let start: usize = i * SIGN_CHUNK;
    let end: usize = if total - start > SIGN_CHUNK {
        start + SIGN_CHUNK
    } else {
        total
    };
    let chunk = slice_subrange(bytes, start, end);
    assert(chunk@ =~= chunk_at(bytes@, i as int));
    chunk
}

/// How many chunks the bytes that are signed make.
fn count_chunks(len: usize) -> (res: usize)
    ensures
        res == chunk_count(len as nat),
{
    if len % SIGN_CHUNK == 0 {
        len / SIGN_CHUNK
    } else {
        len / SIGN_CHUNK + 1
    }
}

/// Signs bytes under the given paddings: one block for each chunk, one after
/// the other.
pub fn signature_with(bytes: &[u8], paddings: &Vec<Vec<u8>>, n_hex: &str, e_hex: &str) -> (res:
    Result<String, RsaError>)
    requires
        rsa_fault(chunk_at(bytes@, 0).len(), n_hex@, e_hex@) is None ==> paddings_fit(
            bytes@,
            byte_seqs(paddings@),
            n_hex@,
        ),
    ensures
        match rsa_fault(chunk_at(bytes@, 0).len(), n_hex@, e_hex@) {
            Some(fault) => res matches Err(e) && e@ == fault,
            None => res matches Ok(s) && s@ == signed(
                bytes@,
                byte_seqs(paddings@),
                n_hex@,
                e_hex@,
                chunk_count(bytes@.len()),
            ),
        },
{
    let ghost all = byte_seqs(paddings@);
    let first: usize = if bytes.len() > SIGN_CHUNK {
        SIGN_CHUNK
    } else {
        bytes.len()
    };
    match check_key(first, n_hex, e_hex) {
        Ok(_) => {},
        Err(e) => {
            return Err(e);
        },
    }
    let mut sign: Vec<char> = Vec::new();
    let mut i: usize = 0;
    while i < paddings.len()
        invariant
            i <= paddings@.len(),
            all == byte_seqs(paddings@),
            paddings_fit(bytes@, all, n_hex@),
            rsa_fault(chunk_at(bytes@, 0).len(), n_hex@, e_hex@) is None,
            sign@ == signed(bytes@, all, n_hex@, e_hex@, i as nat),
        decreases paddings@.len() - i,
    {
        let chunk = cut_chunk(bytes, i);
        assert(all[i as int] == paddings@[i as int]@);
        match rsa_block_with(chunk, &paddings[i], n_hex, e_hex) {
            Ok(block) => push_all(&mut sign, &chars_of(block.as_str())),
            Err(e) => {
                return Err(e);
            },
        }
        i = i + 1;
    }
    Ok(string_of(&sign))
}

/// Draws a padding for each chunk of the bytes that are signed.
fn draw_paddings(bytes: &[u8], n_hex: &str, k: usize) -> (res: Result<Vec<Vec<u8>>, NoRandom>)
    requires
        k == key_len(n_hex@),
        bytes@.len() > 0 ==> chunk_at(bytes@, 0).len() + 3 <= k,
    ensures
        res matches Ok(paddings) ==> are_paddings(
            bytes@,
            byte_seqs(paddings@),
            n_hex@,
            chunk_count(bytes@.len()),
        ),
{
    let count = count_chunks(bytes.len());
    let mut out: Vec<Vec<u8>> = Vec::new();
    let mut i: usize = 0;
    while i < count
        invariant
            i <= count,
            count == chunk_count(bytes@.len()),
            k == key_len(n_hex@),
            bytes@.len() > 0 ==> chunk_at(bytes@, 0).len() + 3 <= k,
            are_paddings(bytes@, byte_seqs(out@), n_hex@, i as nat),
        decreases count - i,
    {
        let chunk = cut_chunk(bytes, i);
        let ghost before = byte_seqs(out@);
        match draw_padding(k - chunk.len() - 3) {
            Ok(padding) => {
                let ghost drawn = padding@;
                out.push(padding);
                assert(byte_seqs(out@) =~= before.push(drawn));
            },
            Err(e) => {
                return Err(e);
            },
        }
        i = i + 1;
    }
    Ok(out)
}

/// Signs a request: the text is encrypted in chunks, one block each, under
/// random paddings.
pub fn build_signature(
    seq: u64,
    is_login: bool,
    hash: &str,
    key: &str,
    iv: &str,
    n_hex: &str,
    e_hex: &str,
) -> (res: Result<String, RsaError>)
    ensures
        ({
            let bytes = encode_utf8(sign_text(seq, is_login, hash@, key@, iv@));
            match rsa_fault(chunk_at(bytes, 0).len(), n_hex@, e_hex@) {
                Some(fault) => res matches Err(e) && e@ == fault,
                None => match res {
                    Ok(s) => is_signature(s@, bytes, n_hex@, e_hex@) && s@.len() == 2 * key_len(
                        n_hex@,
                    ) * chunk_count(bytes.len()),
                    Err(e) => e is NoRandom,
                },
            }
        }),
{
    let plain = write_sign_text(seq, is_login, hash, key, iv);
    let bytes = plain.as_str().as_bytes();
    proof {
        lemma_sign_text_nonempty(seq, is_login, hash@, key@, iv@);
    }
    let first: usize = if bytes.len() > SIGN_CHUNK {
        SIGN_CHUNK
    } else {
        bytes.len()
    };
    let k = match check_key(first, n_hex, e_hex) {
        Ok(k) => k,
        Err(e) => {
            return Err(e);
        },
    };
    match draw_paddings(bytes, n_hex, k) {
        Ok(paddings) => {
            proof {
                let all = byte_seqs(paddings@);
                let count = chunk_count(bytes@.len());
                assert(are_paddings(bytes@, all, n_hex@, count));
                law_signature_length(bytes@, all, n_hex@, e_hex@, count);
            }
            signature_with(bytes, &paddings, n_hex, e_hex)
        },
        Err(e) => Err(RsaError::NoRandom { why: e.why }),
    }
}

proof fn lemma_sign_text_nonempty(
    seq: u64,
    is_login: bool,
    hash: Seq<char>,
    key: Seq<char>,
    iv: Seq<char>,
)
    ensures
        encode_utf8(sign_text(seq, is_login, hash, key, iv)).len() > 0,
{
    reveal_strlit("h=");
    let s = sign_text(seq, is_login, hash, key, iv);
    assert(s.len() > 0);
    if encode_utf8(s).len() == 0 {
        encode_utf8_decode_utf8(s);
        encode_utf8_decode_utf8(Seq::<char>::empty());
        assert(encode_utf8(s) =~= encode_utf8(Seq::<char>::empty()));
    }
}

/// Writes the text that is signed for a request.
fn write_sign_text(seq: u64, is_login: bool, hash: &str, key: &str, iv: &str) -> (res: String)
    ensures
        res@ == sign_text(seq, is_login, hash@, key@, iv@),
{
    let mut out: Vec<char> = Vec::new();
    if is_login {
        push_all(&mut out, &chars_of("k="));
        push_all(&mut out, &chars_of(key));
        push_all(&mut out, &chars_of("&i="));
        push_all(&mut out, &chars_of(iv));
        push_all(&mut out, &chars_of("&"));
    }
    push_all(&mut out, &chars_of("h="));
    push_all(&mut out, &chars_of(hash));
    push_all(&mut out, &chars_of("&s="));
    push_decimal(&mut out, seq);
    assert(out@ =~= sign_text(seq, is_login, hash@, key@, iv@));
    string_of(&out)
}

/// The message in a padded one: what follows the first zero behind the head.
pub open spec fn unpadded(block: Seq<u8>) -> Option<Seq<u8>> {
    match text::first_from(block, seq![0u8], 2) {
        Some(i) => Some(block.skip(i + 1)),
        None => None,
    }
}

/// Padding can be taken off again, since no byte of it is zero.
pub proof fn law_padding_comes_off(msg: Seq<u8>, padding: Seq<u8>)
    requires
        is_padding(padding, padding.len() as int),
    ensures
        unpadded(padded_message(msg, padding)) == Some(msg),
{
    let block = padded_message(msg, padding);
    let end = 2 + padding.len() as int;
    let zero = seq![0u8];
    text::lemma_first_from(block, zero, 2);
    assert(block.subrange(end, end + 1) =~= zero);
    assert(text::occurs_at(block, zero, end));
    assert forall|j: int| 2 <= j < end implies !text::occurs_at(block, zero, j) by {
        assert(block[j] == padding[j - 2]);
        assert(block.subrange(j, j + 1)[0] == block[j]);
    }
    assert(block.skip(end + 1) =~= msg);
}

/// The first `count` chunks, one after the other.
pub open spec fn chunks_joined(bytes: Seq<u8>, count: nat) -> Seq<u8>
    decreases count,
{
    if count == 0 {
        Seq::<u8>::empty()
    } else {
        chunks_joined(bytes, (count - 1) as nat) + chunk_at(bytes, count - 1)
    }
}

/// Every byte that is to be signed goes into one chunk, in order, and no chunk
/// is empty or too long.
pub proof fn law_chunks_cover_the_text(bytes: Seq<u8>)
    ensures
        chunks_joined(bytes, chunk_count(bytes.len())) == bytes,
        forall|i: int|
            0 <= i < chunk_count(bytes.len()) ==> 0 < (#[trigger] chunk_at(bytes, i)).len()
                <= SIGN_CHUNK,
{
    let count = chunk_count(bytes.len());
    lemma_chunks_joined(bytes, count);
    assert(bytes.take(bytes.len() as int) =~= bytes);
}

proof fn lemma_chunks_joined(bytes: Seq<u8>, count: nat)
    requires
        count <= chunk_count(bytes.len()),
    ensures
        chunks_joined(bytes, count) == bytes.take(
            if SIGN_CHUNK * count < bytes.len() {
                SIGN_CHUNK * count
            } else {
                bytes.len() as int
            },
        ),
    decreases count,
{
    if count > 0 {
        lemma_chunks_joined(bytes, (count - 1) as nat);
    }
    assert(chunks_joined(bytes, count) =~= bytes.take(
        if SIGN_CHUNK * count < bytes.len() {
            SIGN_CHUNK * count
        } else {
            bytes.len() as int
        },
    ));
}

/// A key of `k` bytes takes messages of at most `k - 11`; whichever of the key's
/// numbers is none is told first.
pub proof fn law_what_fits_a_key(len: nat, n_hex: Seq<char>, e_hex: Seq<char>)
    ensures
        bignum::numeral(n_hex) is None ==> rsa_fault(len, n_hex, e_hex) == Some(
            RsaFault::BadModulus,
        ),
        bignum::numeral(n_hex) is Some && bignum::numeral(e_hex) is None ==> rsa_fault(
            len,
            n_hex,
            e_hex,
        ) == Some(RsaFault::BadExponent),
        bignum::numeral(n_hex) is Some && bignum::numeral(e_hex) is Some ==> {
            let k = bignum::byte_len(bignum::numeral(n_hex)->0);
            let fits = len == 0 || len + 11 <= k;
            &&& fits ==> rsa_fault(len, n_hex, e_hex) is None
            &&& !fits ==> rsa_fault(len, n_hex, e_hex) == Some(
                RsaFault::TooLong { message: len, key: k },
            )
        },
{
}

/// A padded message: a zero, a two, the padding, a zero, and the message.
pub proof fn law_padded_message(msg: Seq<u8>, padding: Seq<u8>)
    ensures
        ({
            let all = padded_message(msg, padding);
            let n = padding.len() as int;
            &&& all.len() == n + 3 + msg.len()
            &&& all[0] == 0
            &&& all[1] == 2
            &&& all[n + 2] == 0
            &&& forall|i: int| 0 <= i < n ==> all[2 + i] == #[trigger] padding[i]
            &&& forall|i: int| 0 <= i < msg.len() ==> all[n + 3 + i] == #[trigger] msg[i]
        }),
{
}

/// A block is the padded message, taken as a number, raised to the exponent and
/// reduced by the modulus, in as many bytes as the modulus has.
pub proof fn law_block_is_power(
    msg: Seq<u8>,
    padding: Seq<u8>,
    n_hex: Seq<char>,
    e_hex: Seq<char>,
    n: nat,
    e: nat,
)
    requires
        bignum::numeral(n_hex) == Some(n),
        bignum::numeral(e_hex) == Some(e),
        n > 0,
    ensures
        ({
            let block = rsa_block(msg, padding, n_hex, e_hex);
            let m = bignum::be_value(seq![0u8, 2u8] + padding + seq![0u8] + msg);
            &&& block.len() == bignum::byte_len(n)
            &&& bignum::be_value(block) == pow(m as int, e) % (n as int)
        }),
{
    let m = bignum::be_value(padded_message(msg, padding));
    let c = (pow(m as int, e) % (n as int)) as nat;
    bignum::lemma_below_power(c, n);
    bignum::law_number_reads_back(c, bignum::byte_len(n));
}

/// The text that is signed names its parts, with an ampersand between each two:
/// the digest and the sequence number, and at login the key and the vector
/// before them.
pub proof fn law_sign_text_parts(
    seq: u64,
    hash: Seq<char>,
    key: Seq<char>,
    iv: Seq<char>,
)
    requires
        !hash.contains('&'),
        !key.contains('&'),
        !iv.contains('&'),
    ensures
        text::pieces(sign_text(seq, false, hash, key, iv), '&') == seq![
            seq!['h', '='] + hash,
            seq!['s', '='] + numerals::decimal(seq as nat),
        ],
        text::pieces(sign_text(seq, true, hash, key, iv), '&') == seq![
            seq!['k', '='] + key,
            seq!['i', '='] + iv,
            seq!['h', '='] + hash,
            seq!['s', '='] + numerals::decimal(seq as nat),
        ],
{
    reveal_strlit("k=");
    reveal_strlit("&i=");
    reveal_strlit("&");
    reveal_strlit("h=");
    reveal_strlit("&s=");
    let n = numerals::decimal(seq as nat);
    numerals::law_decimal_reads_back(seq as nat);
    assert(!n.contains('&')) by {
        if n.contains('&') {
            let i = n.index_of('&');
            assert('0' <= n[i] <= '9');
        }
    }
    let k = seq!['k', '='] + key;
    let i = seq!['i', '='] + iv;
    let h = seq!['h', '='] + hash;
    let s = seq!['s', '='] + n;
    lemma_one_part('k', key);
    lemma_one_part('i', iv);
    lemma_one_part('h', hash);
    lemma_one_part('s', n);
    text::lemma_pieces_across(h, s, '&');
    let hs = h + seq!['&'] + s;
    assert(sign_text(seq, false, hash, key, iv) =~= hs);
    assert(seq![h] + seq![s] =~= seq![h, s]);
    text::lemma_pieces_across(k, i, '&');
    let ki = k + seq!['&'] + i;
    text::lemma_pieces_across(ki, hs, '&');
    assert(sign_text(seq, true, hash, key, iv) =~= ki + seq!['&'] + hs);
    assert(seq![k] + seq![i] + (seq![h] + seq![s]) =~= seq![k, i, h, s]);
}

proof fn lemma_one_part(letter: char, value: Seq<char>)
    requires
        letter != '&',
        !value.contains('&'),
    ensures
        text::pieces(seq![letter, '='] + value, '&') == seq![seq![letter, '='] + value],
{
    let all = seq![letter, '='] + value;
    assert forall|i: int| 0 <= i < all.len() implies #[trigger] all[i] != '&' by {
        if i >= 2 {
            assert(all[i] == value[i - 2]);
            assert(value.contains(value[i - 2]));
        }
    }
    text::lemma_one_piece(all, '&');
}

/// Chunks are of fifty-three bytes each, in order, but for the last, which has
/// what is left.
pub proof fn law_chunks(bytes: Seq<u8>, i: int, j: int)
    requires
        0 <= i,
        53 * i < bytes.len(),
    ensures
        i < chunk_count(bytes.len()),
        53 * (i + 1) <= bytes.len() ==> chunk_at(bytes, i).len() == 53,
        53 * (i + 1) > bytes.len() ==> chunk_at(bytes, i).len() == bytes.len() - 53 * i && i + 1
            == chunk_count(bytes.len()),
        0 <= j < chunk_at(bytes, i).len() ==> chunk_at(bytes, i)[j] == bytes[53 * i + j],
{
}

/// A signature is one block for each chunk, one after the other, each under its
/// own padding.
pub proof fn law_signature_blocks(
    bytes: Seq<u8>,
    paddings: Seq<Seq<u8>>,
    n_hex: Seq<char>,
    e_hex: Seq<char>,
    count: nat,
)
    ensures
        signed(bytes, paddings, n_hex, e_hex, 0) == Seq::<char>::empty(),
        signed(bytes, paddings, n_hex, e_hex, count + 1) == signed(
            bytes,
            paddings,
            n_hex,
            e_hex,
            count,
        ) + numerals::hex_text(
            rsa_block(chunk_at(bytes, count as int), paddings[count as int], n_hex, e_hex),
        ),
{
}

/// White space around a sealed text makes no difference to what it decrypts to.
pub proof fn law_space_around_sealed_text(
    before: Seq<char>,
    s: Seq<char>,
    after: Seq<char>,
    key: Seq<u8>,
    iv: Seq<u8>,
)
    requires
        forall|k: int| 0 <= k < before.len() ==> text::is_space(#[trigger] before[k]),
        forall|k: int| 0 <= k < after.len() ==> text::is_space(#[trigger] after[k]),
        s.len() > 0,
        !text::is_space(s[0]),
        !text::is_space(s[s.len() - 1]),
    ensures
        decrypted(before + s + after, key, iv) == decrypted(s, key, iv),
{
    let none = Seq::<char>::empty();
    text::law_trim_around(before, s, after);
    text::law_trim_around(none, s, none);
    assert(none + s + none =~= s);
}

/// What a text decrypts to: what stands in base 64 is decrypted, and has to be
/// text; the first step that fails is told.
pub proof fn law_decryption_steps(s: Seq<char>, key: Seq<u8>, iv: Seq<u8>)
    requires
        s.len() > 0,
        !text::is_space(s[0]),
        !text::is_space(s[s.len() - 1]),
    ensures
        match base64_bytes(s) {
            Ok(cipher) => match aes_plaintext(cipher, key, iv) {
                Some(plain) => {
                    &&& valid_utf8(plain) ==> decrypted(s, key, iv) == Ok::<Seq<char>, AesFault>(
                        decode_utf8(plain),
                    )
                    &&& !valid_utf8(plain) ==> decrypted(s, key, iv) == Err::<Seq<char>, AesFault>(
                        AesFault::NotText { why: utf8_fault(plain) },
                    )
                },
                None => decrypted(s, key, iv) == Err::<Seq<char>, AesFault>(AesFault::BadPadding),
            },
            Err(why) => decrypted(s, key, iv) == Err::<Seq<char>, AesFault>(
                AesFault::NotBase64 { why },
            ),
        },
{
    let none = Seq::<char>::empty();
    text::law_trim_around(none, s, none);
    assert(none + s + none =~= s);
}

/// How long a text gets by encryption: it is filled up to whole blocks of sixteen
/// bytes, at least by one byte, and every three bytes begun take four characters.
pub proof fn law_sealed_length(n: nat, blocks: nat, groups: nat)
    requires
        16 * blocks <= n < 16 * (blocks + 1),
        3 * groups < 16 * (blocks + 1) <= 3 * (groups + 1),
    ensures
        sealed_len(n) == 4 * (groups + 1),
{
    assert(n / 16 == blocks);
    assert((16 * (blocks + 1) + 2) / 3 == groups + 1);
}

/// A block in hexadecimal was made with some padding that fills the key, with
/// three bytes to spare, and holds no zero.
pub proof fn law_block_has_padding(s: Seq<char>, msg: Seq<u8>, n_hex: Seq<char>, e_hex: Seq<char>)
    requires
        is_rsa_block(s, msg, n_hex, e_hex),
    ensures
        exists|padding: Seq<u8>|
            {
                &&& padding.len() + msg.len() + 3 == key_len(n_hex)
                &&& forall|i: int| 0 <= i < padding.len() ==> #[trigger] padding[i] != 0
                &&& s == numerals::hex_text(#[trigger] rsa_block(msg, padding, n_hex, e_hex))
            },
{
    let padding = choose|padding: Seq<u8>|
        {
            &&& is_padding(padding, key_len(n_hex) - msg.len() - 3)
            &&& s == numerals::hex_text(#[trigger] rsa_block(msg, padding, n_hex, e_hex))
        };
    assert(s == numerals::hex_text(rsa_block(msg, padding, n_hex, e_hex)));
    assert(forall|i: int| 0 <= i < padding.len() ==> #[trigger] padding[i] != 0);
}

/// A signature was made with a padding for each chunk, each of which fills its
/// block and holds no zero.
pub proof fn law_signature_has_paddings(
    s: Seq<char>,
    bytes: Seq<u8>,
    n_hex: Seq<char>,
    e_hex: Seq<char>,
)
    requires
        is_signature(s, bytes, n_hex, e_hex),
    ensures
        exists|paddings: Seq<Seq<u8>>|
            {
                &&& paddings.len() == chunk_count(bytes.len())
                &&& s == #[trigger] signed(bytes, paddings, n_hex, e_hex, paddings.len())
                &&& forall|i: int|
                    0 <= i < paddings.len() ==> (#[trigger] paddings[i]).len() + chunk_at(
                        bytes,
                        i,
                    ).len() + 3 == key_len(n_hex)
                &&& forall|i: int, j: int|
                    0 <= i < paddings.len() && 0 <= j < paddings[i].len()
                        ==> #[trigger] paddings[i][j] != 0
            },
{
    let count = chunk_count(bytes.len());
    let paddings = choose|paddings: Seq<Seq<u8>>|
        {
            &&& #[trigger] are_paddings(bytes, paddings, n_hex, count)
            &&& s == signed(bytes, paddings, n_hex, e_hex, count)
        };
    assert(are_paddings(bytes, paddings, n_hex, count));
    assert(s == signed(bytes, paddings, n_hex, e_hex, paddings.len()));
    assert forall|i: int| 0 <= i < paddings.len() implies (#[trigger] paddings[i]).len() + chunk_at(
        bytes,
        i,
    ).len() + 3 == key_len(n_hex) by {
        assert(is_padding(paddings[i], key_len(n_hex) - chunk_at(bytes, i).len() - 3));
    }
    assert forall|i: int, j: int|
        0 <= i < paddings.len() && 0 <= j < paddings[i].len() implies #[trigger] paddings[i][j]
        != 0 by {
        assert(is_padding(paddings[i], key_len(n_hex) - chunk_at(bytes, i).len() - 3));
    }
}

/// A key of AES is sixteen hexadecimal digits in lower case, and the text of any
/// eight bytes is one.
pub proof fn law_hex16(s: Seq<char>, bytes: Seq<u8>)
    ensures
        is_hex16(s) <==> s.len() == 16 && forall|i: int|
            0 <= i < s.len() ==> "0123456789abcdef"@.contains(#[trigger] s[i]),
        bytes.len() == 8 ==> is_hex16(numerals::hex_text(bytes)),
        bignum::numeral(s) matches Some(n) ==> key_len(s) == bignum::byte_len(n),
{
    reveal_strlit("0123456789abcdef");
    let all = "0123456789abcdef"@;
    assert(all.len() == 16);
    assert forall|c: char| #[trigger] all.contains(c) <==> '0' <= c <= '9' || 'a' <= c <= 'f' by {
        if '0' <= c <= '9' {
            assert(all[c as int - 48] == c);
        } else if 'a' <= c <= 'f' {
            assert(all[c as int - 87] == c);
        } else if all.contains(c) {
            let k = all.index_of(c);
            assert(0 <= k < 16 && all[k] == c);
        }
    }
    if is_hex16(s) {
        assert forall|i: int| 0 <= i < s.len() implies all.contains(#[trigger] s[i]) by {}
    }
    if s.len() == 16 && forall|i: int| 0 <= i < s.len() ==> all.contains(#[trigger] s[i]) {
        assert forall|i: int| 0 <= i < 16 implies '0' <= #[trigger] s[i] <= '9' || 'a' <= s[i]
            <= 'f' by {
            assert(all.contains(s[i]));
        }
    }
    numerals::lemma_hex_text(bytes);
}

}
