//! The management client of a TP-Link router: what it sends at login and for
//! a request, and what it makes of the replies.

use crate::bignum;
use crate::crypto;
use crate::crypto::{
    aes_decrypt, aes_encrypt, build_signature, check_key, gen_hex16, md5_hex, rsa_encrypt_block, AesError,
    RsaError,
};
use crate::json;
use crate::json::{json_at, json_text_at, Json};
use crate::numerals;
use crate::numerals::push_decimal;
use crate::storage;
use crate::text;
use crate::text::{chars_of, find, push_all, string_of, trim_tail};
use crate::unicode;
use vstd::prelude::*;
use vstd::slice::slice_subrange;
use vstd::string::*;
use vstd::utf8::*;

verus! {

/// What can go wrong with the router.
#[derive(Clone, Debug)]
pub enum RouterError {
    /// The operating system gave no random bytes.
    NoRandom { why: String },
    Rsa(RsaError),
    Aes(AesError),
    /// The reply to a form is no JSON.
    FormBroken { form: String },
    /// The reply to a form has no data.
    FormEmpty { form: String, reply: String },
    NoPasswordKey,
    NoPasswordModulus,
    NoPasswordExponent,
    NoSequence,
    NoSignKey,
    NoSignModulus,
    NoSignExponent,
    /// The reply to the login is no JSON.
    LoginBroken { why: String, reply: String },
    /// The reply to the login has no data.
    LoginUnexpected { reply: String },
    /// The reply to the login brings no cookie.
    NoCookie,
    /// What the reply to the login hides is no JSON.
    LoginInnerBroken { why: String },
    /// What the reply to the login hides has no session token.
    NoToken { inner: String },
    /// Nobody is logged in.
    NotAuthorised,
    /// The session has expired.
    Expired { path: String },
    /// The reply to a request is no JSON.
    ReplyBroken { path: String },
    /// The reply to a request has no data.
    ReplyUnexpected { path: String, reply: String },
    /// What the reply to a request hides is no JSON.
    ReplyInnerBroken { path: String, why: String },
    /// The router reports an error.
    Refused { path: String, inner: String },
}

/// What can go wrong with the router.
pub enum ErrorModel {
    NoRandom { why: Seq<char> },
    Rsa(crypto::RsaFault),
    Aes(crypto::AesFault),
    FormBroken { form: Seq<char> },
    FormEmpty { form: Seq<char>, reply: Seq<char> },
    NoPasswordKey,
    NoPasswordModulus,
    NoPasswordExponent,
    NoSequence,
    NoSignKey,
    NoSignModulus,
    NoSignExponent,
    LoginBroken { why: Seq<char>, reply: Seq<char> },
    LoginUnexpected { reply: Seq<char> },
    NoCookie,
    LoginInnerBroken { why: Seq<char> },
    NoToken { inner: Seq<char> },
    NotAuthorised,
    Expired { path: Seq<char> },
    ReplyBroken { path: Seq<char> },
    ReplyUnexpected { path: Seq<char>, reply: Seq<char> },
    ReplyInnerBroken { path: Seq<char>, why: Seq<char> },
    Refused { path: Seq<char>, inner: Seq<char> },
}

impl View for RouterError {
    type V = ErrorModel;

    open spec fn view(&self) -> ErrorModel {
        match self {
            RouterError::NoRandom { why } => ErrorModel::NoRandom { why: why@ },
            RouterError::Rsa(e) => ErrorModel::Rsa(e@),
            RouterError::Aes(e) => ErrorModel::Aes(e@),
            RouterError::FormBroken { form } => ErrorModel::FormBroken { form: form@ },
            RouterError::FormEmpty { form, reply } => ErrorModel::FormEmpty {
                form: form@,
                reply: reply@,
            },
            RouterError::NoPasswordKey => ErrorModel::NoPasswordKey,
            RouterError::NoPasswordModulus => ErrorModel::NoPasswordModulus,
            RouterError::NoPasswordExponent => ErrorModel::NoPasswordExponent,
            RouterError::NoSequence => ErrorModel::NoSequence,
            RouterError::NoSignKey => ErrorModel::NoSignKey,
            RouterError::NoSignModulus => ErrorModel::NoSignModulus,
            RouterError::NoSignExponent => ErrorModel::NoSignExponent,
            RouterError::LoginBroken { why, reply } => ErrorModel::LoginBroken {
                why: why@,
                reply: reply@,
            },
            RouterError::LoginUnexpected { reply } => ErrorModel::LoginUnexpected { reply: reply@ },
            RouterError::NoCookie => ErrorModel::NoCookie,
            RouterError::LoginInnerBroken { why } => ErrorModel::LoginInnerBroken { why: why@ },
            RouterError::NoToken { inner } => ErrorModel::NoToken { inner: inner@ },
            RouterError::NotAuthorised => ErrorModel::NotAuthorised,
            RouterError::Expired { path } => ErrorModel::Expired { path: path@ },
            RouterError::ReplyBroken { path } => ErrorModel::ReplyBroken { path: path@ },
            RouterError::ReplyUnexpected { path, reply } => ErrorModel::ReplyUnexpected {
                path: path@,
                reply: reply@,
            },
            RouterError::ReplyInnerBroken { path, why } => ErrorModel::ReplyInnerBroken {
                path: path@,
                why: why@,
            },
            RouterError::Refused { path, inner } => ErrorModel::Refused {
                path: path@,
                inner: inner@,
            },
        }
    }
}

/// Whether there were no random bytes for the padding of a block.
pub open spec fn lacks_padding(e: ErrorModel) -> bool {
    e matches ErrorModel::Rsa(fault) && fault is NoRandom
}

/// What is told of an error of the ciphers.
pub open spec fn rsa_message(e: crypto::RsaFault) -> Seq<char> {
    match e {
        crypto::RsaFault::BadModulus => "bad RSA modulus"@,
        crypto::RsaFault::BadExponent => "bad RSA exponent"@,
        crypto::RsaFault::TooLong { message, key } => "RSA message "@ + numerals::decimal(message)
            + " too long for "@ + numerals::decimal(key) + "-byte key"@,
        crypto::RsaFault::NoRandom { why } => "OS RNG unavailable: "@ + why,
    }
}

/// What is told of an error.
pub open spec fn message_of(e: ErrorModel) -> Seq<char> {
    match e {
        ErrorModel::NoRandom { why } => "OS RNG unavailable: "@ + why,
        ErrorModel::Rsa(r) => rsa_message(r),
        ErrorModel::Aes(crypto::AesFault::NotBase64 { why }) => "b64 decode: "@ + why,
        ErrorModel::Aes(crypto::AesFault::BadPadding) => "aes decrypt/unpad: Unpad Error"@,
        ErrorModel::Aes(crypto::AesFault::NotText { why }) => "utf8: "@ + why,
        ErrorModel::FormBroken { form } => "form="@ + form
            + " JSON: error decoding response body"@,
        ErrorModel::FormEmpty { form, reply } => "form="@ + form + ": no data in "@ + reply,
        ErrorModel::NoPasswordKey => "form=keys: no password key"@,
        ErrorModel::NoPasswordModulus => "no pwd modulus"@,
        ErrorModel::NoPasswordExponent => "no pwd exponent"@,
        ErrorModel::NoSequence => "form=auth: no seq"@,
        ErrorModel::NoSignKey => "form=auth: no sign key"@,
        ErrorModel::NoSignModulus => "no sign modulus"@,
        ErrorModel::NoSignExponent => "no sign exponent"@,
        ErrorModel::LoginBroken { why, reply } => "login JSON: "@ + why + "; body="@ + reply,
        ErrorModel::LoginUnexpected { reply } => "login: unexpected response "@ + reply,
        ErrorModel::NoCookie => "login: no sysauth cookie"@,
        ErrorModel::LoginInnerBroken { why } => "login inner JSON: "@ + why,
        ErrorModel::NoToken { inner } => "login: no stok in "@ + inner,
        ErrorModel::NotAuthorised => "not authorised"@,
        ErrorModel::Expired { path } => path + ": 403 (session expired)"@,
        ErrorModel::ReplyBroken { path } => path + " JSON: error decoding response body"@,
        ErrorModel::ReplyUnexpected { path, reply } => path + ": unexpected response "@ + reply,
        ErrorModel::ReplyInnerBroken { path, why } => path + " inner JSON: "@ + why,
        ErrorModel::Refused { path, inner } => path + ": router error "@ + inner,
    }
}

/// Two texts, one after the other.
fn two(a: &str, b: &str) -> (res: String)
    ensures
        res@ == a@ + b@,
{
    let mut out = chars_of(a);
    push_all(&mut out, &chars_of(b));
    string_of(&out)
}

/// Three texts, one after the other.
fn three(a: &str, b: &str, c: &str) -> (res: String)
    ensures
        res@ == a@ + b@ + c@,
{
    two(two(a, b).as_str(), c)
}

fn write_rsa_message(e: &RsaError) -> (res: String)
    ensures
        res@ == rsa_message(e@),
{
    match e {
        RsaError::BadModulus => "bad RSA modulus".to_string(),
        RsaError::BadExponent => "bad RSA exponent".to_string(),
        RsaError::TooLong { message, key } => {
            let mut out = chars_of("RSA message ");
            push_decimal(&mut out, *message as u64);
            push_all(&mut out, &chars_of(" too long for "));
            push_decimal(&mut out, *key as u64);
            push_all(&mut out, &chars_of("-byte key"));
            string_of(&out)
        },
        RsaError::NoRandom { why } => two("OS RNG unavailable: ", why.as_str()),
    }
}

impl RouterError {
    /// What is told of the error.
    pub fn message(&self) -> (res: String)
        ensures
            res@ == message_of(self@),
    {
        match self {
            RouterError::NoRandom { why } => two("OS RNG unavailable: ", why.as_str()),
            RouterError::Rsa(e) => write_rsa_message(e),
            RouterError::Aes(AesError::NotBase64 { why }) => two("b64 decode: ", why.as_str()),
            RouterError::Aes(AesError::BadPadding) => "aes decrypt/unpad: Unpad Error".to_string(),
            RouterError::Aes(AesError::NotText { why }) => two("utf8: ", why.as_str()),
            RouterError::FormBroken { form } => three(
                "form=",
                form.as_str(),
                " JSON: error decoding response body",
            ),
            RouterError::FormEmpty { form, reply } => two(
                three("form=", form.as_str(), ": no data in ").as_str(),
                reply.as_str(),
            ),
            RouterError::NoPasswordKey => "form=keys: no password key".to_string(),
            RouterError::NoPasswordModulus => "no pwd modulus".to_string(),
            RouterError::NoPasswordExponent => "no pwd exponent".to_string(),
            RouterError::NoSequence => "form=auth: no seq".to_string(),
            RouterError::NoSignKey => "form=auth: no sign key".to_string(),
            RouterError::NoSignModulus => "no sign modulus".to_string(),
            RouterError::NoSignExponent => "no sign exponent".to_string(),
            RouterError::LoginBroken { why, reply } => two(
                three("login JSON: ", why.as_str(), "; body=").as_str(),
                reply.as_str(),
            ),
            RouterError::LoginUnexpected { reply } => two(
                "login: unexpected response ",
                reply.as_str(),
            ),
            RouterError::NoCookie => "login: no sysauth cookie".to_string(),
            RouterError::LoginInnerBroken { why } => two("login inner JSON: ", why.as_str()),
            RouterError::NoToken { inner } => two("login: no stok in ", inner.as_str()),
            RouterError::NotAuthorised => "not authorised".to_string(),
            RouterError::Expired { path } => two(path.as_str(), ": 403 (session expired)"),
            RouterError::ReplyBroken { path } => two(
                path.as_str(),
                " JSON: error decoding response body",
            ),
            RouterError::ReplyUnexpected { path, reply } => three(
                path.as_str(),
                ": unexpected response ",
                reply.as_str(),
            ),
            RouterError::ReplyInnerBroken { path, why } => three(
                path.as_str(),
                " inner JSON: ",
                why.as_str(),
            ),
            RouterError::Refused { path, inner } => three(
                path.as_str(),
                ": router error ",
                inner.as_str(),
            ),
        }
    }
}

/// A public key, both numbers in hexadecimal.
#[derive(Clone, Debug)]
pub struct PublicKey {
    pub nn: String,
    pub ee: String,
}

/// A public key.
pub struct KeyModel {
    pub nn: Seq<char>,
    pub ee: Seq<char>,
}

impl View for PublicKey {
    type V = KeyModel;

    open spec fn view(&self) -> KeyModel {
        KeyModel { nn: self.nn@, ee: self.ee@ }
    }
}

/// What is missing of a public key.
#[derive(Clone, Copy, Debug, PartialEq, Eq, Structural)]
pub enum KeyFault {
    NoKey,
    NoModulus,
    NoExponent,
}

/// The public key in a list of two texts.
pub open spec fn key_of(
    list: json::JsonModel,
    first: json::JsonModel,
    second: json::JsonModel,
) -> Result<KeyModel, KeyFault> {
    if !(list is List) {
        Err(KeyFault::NoKey)
    } else if !(first is Text) {
        Err(KeyFault::NoModulus)
    } else if !(second is Text) {
        Err(KeyFault::NoExponent)
    } else {
        Ok(KeyModel { nn: first->Text_0, ee: second->Text_0 })
    }
}

/// Takes a public key out of a list of two texts, given the list and its first
/// two items.
pub fn public_key(list: Json, first: Json, second: Json) -> (res: Result<PublicKey, KeyFault>)
    ensures
        match res {
            Ok(key) => key_of(list@, first@, second@) == Ok::<KeyModel, KeyFault>(key@),
            Err(e) => key_of(list@, first@, second@) == Err::<KeyModel, KeyFault>(e),
        },
{
    match list {
        Json::List => {},
        _ => {
            return Err(KeyFault::NoKey);
        },
    }
    let nn = match first {
        Json::Text(nn) => nn,
        _ => {
            return Err(KeyFault::NoModulus);
        },
    };
    let ee = match second {
        Json::Text(ee) => ee,
        _ => {
            return Err(KeyFault::NoExponent);
        },
    };
    Ok(PublicKey { nn, ee })
}

/// The document as text; nothing where it is no JSON.
pub open spec fn shown(document: Seq<u8>) -> Seq<char> {
    match json::json_text(document, ""@) {
        Some(s) => s,
        None => Seq::<char>::empty(),
    }
}

fn show(document: &[u8]) -> (res: String)
    ensures
        res@ == shown(document@),
{
    match json_text_at(document, "") {
        Some(s) => s,
        None => String::new(),
    }
}

/// What is wrong with the reply to a form, if anything: it is no JSON, or it
/// has no data.
pub open spec fn form_fault(form: Seq<char>, reply: Seq<u8>) -> Option<ErrorModel> {
    match json::json_part(reply, "/data"@) {
        json::JsonModel::Broken { .. } => Some(ErrorModel::FormBroken { form }),
        json::JsonModel::Missing => Some(ErrorModel::FormEmpty { form, reply: shown(reply) }),
        _ => None,
    }
}

fn check_form(form: &str, reply: &[u8]) -> (res: Option<RouterError>)
    ensures
        match res {
            Some(e) => form_fault(form@, reply@) == Some(e@),
            None => form_fault(form@, reply@) is None,
        },
{
    match json_at(reply, "/data") {
        Json::Broken { .. } => Some(RouterError::FormBroken { form: form.to_string() }),
        Json::Missing => Some(
            RouterError::FormEmpty { form: form.to_string(), reply: show(reply) },
        ),
        _ => None,
    }
}

/// The key for the password in the reply to the form `keys`.
pub open spec fn password_key_in(reply: Seq<u8>) -> Result<KeyModel, ErrorModel> {
    match form_fault("keys"@, reply) {
        Some(e) => Err(e),
        None => match key_of(
            json::json_part(reply, "/data/password"@),
            json::json_part(reply, "/data/password/0"@),
            json::json_part(reply, "/data/password/1"@),
        ) {
            Ok(key) => Ok(key),
            Err(KeyFault::NoKey) => Err(ErrorModel::NoPasswordKey),
            Err(KeyFault::NoModulus) => Err(ErrorModel::NoPasswordModulus),
            Err(KeyFault::NoExponent) => Err(ErrorModel::NoPasswordExponent),
        },
    }
}

/// Reads the key for the password from the reply to the form `keys`.
pub fn password_key(reply: &[u8]) -> (res: Result<PublicKey, RouterError>)
    ensures
        match res {
            Ok(key) => password_key_in(reply@) == Ok::<KeyModel, ErrorModel>(key@),
            Err(e) => password_key_in(reply@) == Err::<KeyModel, ErrorModel>(e@),
        },
{
    match check_form("keys", reply) {
        Some(e) => {
            return Err(e);
        },
        None => {},
    }
    match public_key(
        json_at(reply, "/data/password"),
        json_at(reply, "/data/password/0"),
        json_at(reply, "/data/password/1"),
    ) {
        Ok(key) => Ok(key),
        Err(KeyFault::NoKey) => Err(RouterError::NoPasswordKey),
        Err(KeyFault::NoModulus) => Err(RouterError::NoPasswordModulus),
        Err(KeyFault::NoExponent) => Err(RouterError::NoPasswordExponent),
    }
}

/// The sequence number and the key for signatures in the reply to the form
/// `auth`.
pub open spec fn sign_key_in(reply: Seq<u8>) -> Result<(u64, KeyModel), ErrorModel> {
    match form_fault("auth"@, reply) {
        Some(e) => Err(e),
        None => match json::json_part(reply, "/data/seq"@) {
            json::JsonModel::Number(Some(seq)) => match key_of(
                json::json_part(reply, "/data/key"@),
                json::json_part(reply, "/data/key/0"@),
                json::json_part(reply, "/data/key/1"@),
            ) {
                Ok(key) => Ok((seq, key)),
                Err(KeyFault::NoKey) => Err(ErrorModel::NoSignKey),
                Err(KeyFault::NoModulus) => Err(ErrorModel::NoSignModulus),
                Err(KeyFault::NoExponent) => Err(ErrorModel::NoSignExponent),
            },
            _ => Err(ErrorModel::NoSequence),
        },
    }
}

/// Reads the sequence number and the key for signatures from the reply to the
/// form `auth`.
pub fn sign_key(reply: &[u8]) -> (res: Result<(u64, PublicKey), RouterError>)
    ensures
        match res {
            Ok((seq, key)) => sign_key_in(reply@) == Ok::<(u64, KeyModel), ErrorModel>((seq, key@)),
            Err(e) => sign_key_in(reply@) == Err::<(u64, KeyModel), ErrorModel>(e@),
        },
{
    match check_form("auth", reply) {
        Some(e) => {
            return Err(e);
        },
        None => {},
    }
    let seq = match json_at(reply, "/data/seq") {
        Json::Number(Some(seq)) => seq,
        _ => {
            return Err(RouterError::NoSequence);
        },
    };
    match public_key(
        json_at(reply, "/data/key"),
        json_at(reply, "/data/key/0"),
        json_at(reply, "/data/key/1"),
    ) {
        Ok(key) => Ok((seq, key)),
        Err(KeyFault::NoKey) => Err(RouterError::NoSignKey),
        Err(KeyFault::NoModulus) => Err(RouterError::NoSignModulus),
        Err(KeyFault::NoExponent) => Err(RouterError::NoSignExponent),
    }
}

/// Where the first of the characters that end a cookie stands in `s` from `i`
/// on, or else its end.
pub open spec fn cookie_end(s: Seq<char>, i: int) -> int
    decreases s.len() - i,
{
    if i >= s.len() || s[i] == ';' || s[i] == ',' {
        i
    } else {
        cookie_end(s, i + 1)
    }
}

/// The session cookie in a `Set-Cookie` header.
pub open spec fn sysauth_in(cookie: Seq<char>) -> Option<Seq<char>> {
    match text::first_at(cookie, "sysauth="@) {
        Some(i) => {
            let rest = cookie.skip(i + 8);
            Some(rest.take(cookie_end(rest, 0)))
        },
        None => None,
    }
}

/// Pulls the session cookie out of a `Set-Cookie` header.
pub fn extract_sysauth(cookie: &str) -> (res: Option<String>)
    ensures
        storage::text_of(res) == sysauth_in(cookie@),
{
    proof {
        reveal_strlit("sysauth=");
    }
    let chars = chars_of(cookie);
    let n = chars.len();
    match find(&chars, &chars_of("sysauth=")) {
        Some(i) => {
            let rest = slice_subrange(&chars, i + 8, n);
            assert(rest@ =~= cookie@.skip(i + 8));
            let mut end: usize = 0;
            while end < rest.len() && rest[end] != ';' && rest[end] != ','
                invariant
                    end <= rest@.len(),
                    cookie_end(rest@, end as int) == cookie_end(rest@, 0),
                decreases rest@.len() - end,
            {
                end = end + 1;
            }
            let token = slice_subrange(rest, 0, end);
            assert(token@ =~= rest@.take(end as int));
            Some(string_of(token))
        },
        None => None,
    }
}

/// A sealed message: its data, encrypted, and the signature that goes with it.
#[derive(Clone, Debug)]
pub struct Sealed {
    pub data: String,
    pub sign: String,
}

/// The login to the router: who logs in.
pub struct LoginModel {
    pub user: Seq<char>,
    pub password: Seq<char>,
}

/// The data of a sealed message.
pub open spec fn sealed_data(body: Seq<char>, key: Seq<char>, iv: Seq<char>) -> Seq<char> {
    crypto::base64_text(
        crypto::aes_ciphertext(encode_utf8(body), encode_utf8(key), encode_utf8(iv)),
    )
}

/// What is signed for a message: the digest of the login and the sequence
/// number, moved on by the length of the data.
pub open spec fn to_sign(
    login: LoginModel,
    body: Seq<char>,
    is_login: bool,
    key: Seq<char>,
    iv: Seq<char>,
    seq: u64,
) -> Seq<u8> {
    let hash = numerals::hex_text(
        crypto::md5_digest(encode_utf8(login.user) + encode_utf8(login.password)),
    );
    encode_utf8(
        crypto::sign_text(
            (seq + crypto::sealed_len(encode_utf8(body).len())) as u64,
            is_login,
            hash,
            key,
            iv,
        ),
    )
}

/// Whether the sequence number can be moved on by the length of the data.
pub open spec fn has_room(seq: u64, body: Seq<char>) -> bool {
    seq + crypto::sealed_len(encode_utf8(body).len()) <= u64::MAX
}

proof fn lemma_hex16_bytes(s: Seq<char>)
    requires
        crypto::is_hex16(s),
    ensures
        encode_utf8(s).len() == 16,
{
    assert forall|i: int| 0 <= i < s.len() implies '\0' <= #[trigger] s[i] <= '\u{7f}' by {}
    is_ascii_chars_encode_utf8(s);
}

/// Checks that the sequence number can be moved on by the length of the data.
pub fn check_room(seq: u64, body: &str) -> (res: bool)
    ensures
        res == has_room(seq, body@),
{
    let n = body.as_bytes().len() as u128;
    let len: u128 = 4 * ((16 * (n / 16 + 1) + 2) / 3);
    seq as u128 + len <= 18446744073709551615
}

/// Seals a message: the body is encrypted, and the header signed.
pub fn seal(
    user: &str,
    password: &str,
    body: &str,
    is_login: bool,
    key: &str,
    iv: &str,
    seq: u64,
    sign_key: &PublicKey,
) -> (res: Result<Sealed, RouterError>)
    requires
        crypto::is_hex16(key@),
        crypto::is_hex16(iv@),
        has_room(seq, body@),
    ensures
        ({
            let bytes = to_sign(
                LoginModel { user: user@, password: password@ },
                body@,
                is_login,
                key@,
                iv@,
                seq,
            );
            match crypto::rsa_fault(
                crypto::chunk_at(bytes, 0).len(),
                sign_key.nn@,
                sign_key.ee@,
            ) {
                Some(fault) => res matches Err(e) && e@ == ErrorModel::Rsa(fault),
                None => match res {
                    Ok(sealed) => {
                        &&& sealed.data@ == sealed_data(body@, key@, iv@)
                        &&& crypto::decrypted(sealed.data@, encode_utf8(key@), encode_utf8(iv@))
                            == Ok::<Seq<char>, crypto::AesFault>(body@)
                        &&& crypto::is_signature(
                            sealed.sign@,
                            bytes,
                            sign_key.nn@,
                            sign_key.ee@,
                        )
                    },
                    Err(e) => lacks_padding(e@),
                },
            }
        }),
        res matches Ok(sealed) ==> sealed.data@.len() == crypto::sealed_len(
            encode_utf8(body@).len(),
        ),
        is_login ==> match sign_fault(sign_key@) {
            Some(fault) => res matches Err(e) && e@ == ErrorModel::Rsa(fault),
            None => res matches Err(e) ==> lacks_padding(e@),
        },
{
    proof {
        lemma_hex16_bytes(key@);
        lemma_hex16_bytes(iv@);
    }
    let data = aes_encrypt(body, key.as_bytes(), iv.as_bytes());
    proof {
        is_ascii_chars_encode_utf8(data@);
    }
    let len = data.as_str().as_bytes().len() as u64;
    let hash = md5_hex(user, password);
    proof {
        let who = LoginModel { user: user@, password: password@ };
        numerals::lemma_hex_text(crypto::md5_digest(encode_utf8(user@) + encode_utf8(password@)));
        if is_login {
            lemma_first_chunk(who, body@, key@, iv@, seq);
        }
    }
    match build_signature(
        seq + len,
        is_login,
        hash.as_str(),
        key,
        iv,
        sign_key.nn.as_str(),
        sign_key.ee.as_str(),
    ) {
        Ok(sign) => Ok(Sealed { data, sign }),
        Err(e) => Err(RouterError::Rsa(e)),
    }
}

/// The body of a login: the password, encrypted.
pub open spec fn login_body(crypted: Seq<char>) -> Seq<char> {
    "password="@ + crypted + "&operation=login"@
}

/// How many bytes the body of a login has under a password key of `k` bytes.
pub open spec fn login_body_len(k: nat) -> nat {
    2 * k + 25
}

/// What is wrong with the password or its key, if anything.
pub open spec fn password_fault(password: Seq<char>, password_key: KeyModel) -> Option<crypto::RsaFault> {
    crypto::rsa_fault(encode_utf8(password).len(), password_key.nn, password_key.ee)
}

/// Whether the sequence number can be moved on by the length of a login, where
/// the password can be encrypted at all.
pub open spec fn login_has_room(password: Seq<char>, seq: u64, password_key: KeyModel) -> bool {
    password_fault(password, password_key) is None ==> seq + crypto::sealed_len(
        login_body_len(crypto::key_len(password_key.nn)),
    ) <= u64::MAX
}

/// Checks that the sequence number can be moved on by the length of a login.
pub fn check_login_room(password: &str, seq: u64, password_key: &PublicKey) -> (res: bool)
    ensures
        res == login_has_room(password@, seq, password_key@),
{
    let bytes = password.as_bytes();
    match check_key(bytes.len(), password_key.nn.as_str(), password_key.ee.as_str()) {
        Ok(k) => {
            let n: u128 = 2 * (k as u128) + 25;
            let len: u128 = 4 * ((16 * (n / 16 + 1) + 2) / 3);
            seq as u128 + len <= 18446744073709551615
        },
        Err(_) => true,
    }
}

/// Whether the padding of a password fits its key, where the password can be
/// encrypted at all.
pub open spec fn password_fits(password: Seq<char>, password_key: KeyModel) -> bool {
    password_fault(password, password_key) is None ==> crypto::key_len(password_key.nn) >= 3
}

/// Checks that the padding of a password fits its key.
pub fn check_password(password: &str, password_key: &PublicKey) -> (res: bool)
    ensures
        res == password_fits(password@, password_key@),
{
    let bytes = password.as_bytes();
    match check_key(bytes.len(), password_key.nn.as_str(), password_key.ee.as_str()) {
        Ok(k) => k >= 3,
        Err(_) => true,
    }
}

/// What is wrong with the key for signatures, if anything: it must have room
/// for a whole chunk, since what is signed at login is longer than one.
pub open spec fn sign_fault(sign_key: KeyModel) -> Option<crypto::RsaFault> {
    crypto::rsa_fault(crypto::SIGN_CHUNK as nat, sign_key.nn, sign_key.ee)
}

proof fn lemma_first_chunk(
    login: LoginModel,
    body: Seq<char>,
    key: Seq<char>,
    iv: Seq<char>,
    seq: u64,
)
    requires
        crypto::is_hex16(key),
        crypto::is_hex16(iv),
        crypto::md5_digest(encode_utf8(login.user) + encode_utf8(login.password)).len() == 16,
    ensures
        crypto::chunk_at(to_sign(login, body, true, key, iv, seq), 0).len() == crypto::SIGN_CHUNK,
{
    reveal_strlit("k=");
    reveal_strlit("&i=");
    reveal_strlit("h=");
    reveal_strlit("&s=");
    let digest = crypto::md5_digest(encode_utf8(login.user) + encode_utf8(login.password));
    numerals::lemma_hex_text(digest);
    unicode::lemma_encoded_len(
        crypto::sign_text(
            (seq + crypto::sealed_len(encode_utf8(body).len())) as u64,
            true,
            numerals::hex_text(digest),
            key,
            iv,
        ),
    );
}

/// What is sent to log in, and what has to be kept for the reply.
#[derive(Clone, Debug)]
pub struct LoginRequest {
    pub sealed: Sealed,
    /// The key that the reply is encrypted under.
    pub key: String,
    pub iv: String,
    pub seq: u64,
    pub sign_key: PublicKey,
}

/// A session with the router.
#[derive(Clone, Debug)]
pub struct Session {
    pub stok: String,
    pub sysauth: String,
    pub key: String,
    pub iv: String,
    pub seq: u64,
    pub sign_key: PublicKey,
}

impl LoginRequest {
    /// Whether key and vector are ones.
    pub open spec fn wf(&self) -> bool {
        crypto::is_hex16(self.key@) && crypto::is_hex16(self.iv@)
    }
}

impl Session {
    /// Whether key and vector are ones.
    pub open spec fn wf(&self) -> bool {
        crypto::is_hex16(self.key@) && crypto::is_hex16(self.iv@)
    }
}

/// The client of a router: its address, the login to it, and the session once
/// there is one.
pub struct RouterClient {
    pub base: String,
    pub user: String,
    pub password: String,
    pub session: Option<Session>,
}

impl RouterClient {
    /// Whether the session, if there is one, has a key and a vector.
    pub open spec fn wf(&self) -> bool {
        self.session matches Some(s) ==> s.wf()
    }

    /// A client of the router at `base`; slashes at the end of the address do
    /// not count.
    pub fn new(base: String, user: String, password: String) -> (res: Self)
        ensures
            res.base@ == text::without_tail(base@, '/'),
            res.user@ == user@,
            res.password@ == password@,
            res.session is None,
    {
        let chars = chars_of(base.as_str());
        let bare = string_of(trim_tail(&chars, '/'));
        RouterClient { base: bare, user, password, session: None }
    }

    /// The page that requests claim to come from.
    pub fn referer(&self) -> (res: String)
        ensures
            res@ == self.base@ + "/webpages/index.html"@,
    {
        two(self.base.as_str(), "/webpages/index.html")
    }

    /// The address of a form that is open to everybody: `keys`, `auth` and
    /// `login`.
    pub fn form_url(&self, form: &str) -> (res: String)
        ensures
            res@ == self.base@ + "/cgi-bin/luci/;stok=/login?form="@ + form@,
    {
        three(self.base.as_str(), "/cgi-bin/luci/;stok=/login?form=", form)
    }

    /// The address of a page within a session.
    pub fn request_url(&self, session: &Session, path: &str) -> (res: String)
        ensures
            res@ == self.base@ + "/cgi-bin/luci/;stok="@ + session.stok@ + "/"@ + path@,
    {
        let head = three(self.base.as_str(), "/cgi-bin/luci/;stok=", session.stok.as_str());
        three(head.as_str(), "/", path)
    }

    /// Prepares the login under a given key and vector.
    pub fn login_with(
        &self,
        password_key: &PublicKey,
        seq: u64,
        sign_key: PublicKey,
        key: String,
        iv: String,
    ) -> (res: Result<LoginRequest, RouterError>)
        requires
            crypto::is_hex16(key@),
            crypto::is_hex16(iv@),
            password_fits(self.password@, password_key@),
            login_has_room(self.password@, seq, password_key@),
        ensures
            match password_fault(self.password@, password_key@) {
                Some(fault) => res matches Err(e) && e@ == ErrorModel::Rsa(fault),
                None => match res {
                    Ok(request) => {
                        &&& sign_fault(sign_key@) is None
                        &&& request.key@ == key@
                        &&& request.iv@ == iv@
                        &&& request.seq == seq
                        &&& request.sign_key == sign_key
                        &&& login_is_sealed(
                            request.sealed,
                            LoginModel { user: self.user@, password: self.password@ },
                            password_key@,
                            seq,
                            sign_key@,
                            key@,
                            iv@,
                        )
                    },
                    Err(e) => lacks_padding(e@) || (sign_fault(
                        sign_key@,
                    ) matches Some(fault) && e@ == ErrorModel::Rsa(fault)),
                },
            },
    {
        let crypted = match rsa_encrypt_block(
            self.password.as_str().as_bytes(),
            password_key.nn.as_str(),
            password_key.ee.as_str(),
        ) {
            Ok(crypted) => crypted,
            Err(e) => {
                return Err(RouterError::Rsa(e));
            },
        };
        let body = three("password=", crypted.as_str(), "&operation=login");
        proof {
            reveal_strlit("password=");
            reveal_strlit("&operation=login");
            lemma_login_body(crypted@, self.password@, password_key.nn@, password_key.ee@);
            assert(body@ == login_body(crypted@));
        }
        match seal(
            self.user.as_str(),
            self.password.as_str(),
            body.as_str(),
            true,
            key.as_str(),
            iv.as_str(),
            seq,
            &sign_key,
        ) {
            Ok(sealed) => {
                proof {
                    assert(crypto::is_rsa_block(
                        crypted@,
                        encode_utf8(self.password@),
                        password_key.nn@,
                        password_key.ee@,
                    ));
                }
                Ok(LoginRequest { sealed, key, iv, seq, sign_key })
            },
            Err(e) => Err(e),
        }
    }

    /// Prepares the login: draws a key and a vector, encrypts the password, and
    /// seals it all.
    pub fn login_request(&self, password_key: &PublicKey, seq: u64, sign_key: PublicKey) -> (res:
        Result<LoginRequest, RouterError>)
        requires
            password_fits(self.password@, password_key@),
            login_has_room(self.password@, seq, password_key@),
        ensures
            match res {
                Ok(request) => {
                    &&& request.wf()
                    &&& request.seq == seq
                    &&& request.sign_key == sign_key
                    &&& password_fault(self.password@, password_key@) is None
                    &&& sign_fault(sign_key@) is None
                    &&& login_is_sealed(
                        request.sealed,
                        LoginModel { user: self.user@, password: self.password@ },
                        password_key@,
                        seq,
                        sign_key@,
                        request.key@,
                        request.iv@,
                    )
                },
                Err(e) => {
                    ||| e@ is NoRandom
                    ||| lacks_padding(e@)
                    ||| password_fault(
                        self.password@,
                        password_key@,
                    ) matches Some(fault) && e@ == ErrorModel::Rsa(fault)
                    ||| sign_fault(sign_key@) matches Some(fault) && e@ == ErrorModel::Rsa(fault)
                },
            },
    {
        let key = match gen_hex16() {
            Ok(key) => key,
            Err(e) => {
                return Err(RouterError::NoRandom { why: e.why });
            },
        };
        let iv = match gen_hex16() {
            Ok(iv) => iv,
            Err(e) => {
                return Err(RouterError::NoRandom { why: e.why });
            },
        };
        self.login_with(password_key, seq, sign_key, key, iv)
    }
}

/// Whether a sealed message is a login: its body carries the password,
/// encrypted under the password key, and its signature is one of the login.
pub open spec fn login_is_sealed(
    sealed: Sealed,
    login: LoginModel,
    password_key: KeyModel,
    seq: u64,
    sign_key: KeyModel,
    key: Seq<char>,
    iv: Seq<char>,
) -> bool {
    exists|crypted: Seq<char>|
        {
            &&& #[trigger] crypto::is_rsa_block(
                crypted,
                encode_utf8(login.password),
                password_key.nn,
                password_key.ee,
            )
            &&& sealed.data@ == sealed_data(login_body(crypted), key, iv)
            &&& crypto::is_signature(
                sealed.sign@,
                to_sign(login, login_body(crypted), true, key, iv, seq),
                sign_key.nn,
                sign_key.ee,
            )
        }
}

/// The body of a login is as long as its key makes it.
proof fn lemma_login_body(
    crypted: Seq<char>,
    password: Seq<char>,
    n_hex: Seq<char>,
    e_hex: Seq<char>,
)
    requires
        crypto::is_rsa_block(crypted, encode_utf8(password), n_hex, e_hex),
        crypted.len() == 2 * crypto::key_len(n_hex),
    ensures
        encode_utf8(login_body(crypted)).len() == login_body_len(crypto::key_len(n_hex)),
{
    reveal_strlit("password=");
    reveal_strlit("&operation=login");
    let padding = choose|padding: Seq<u8>|
        {
            &&& crypto::is_padding(
                padding,
                crypto::key_len(n_hex) - encode_utf8(password).len() - 3,
            )
            &&& crypted == numerals::hex_text(
                #[trigger] crypto::rsa_block(encode_utf8(password), padding, n_hex, e_hex),
            )
        };
    numerals::lemma_hex_text(crypto::rsa_block(encode_utf8(password), padding, n_hex, e_hex));
    let body = login_body(crypted);
    assert forall|i: int| 0 <= i < body.len() implies '\0' <= #[trigger] body[i] <= '\u{7f}' by {
        if 9 <= i < 9 + crypted.len() {
            assert(body[i] == crypted[i - 9]);
        }
    }
    is_ascii_chars_encode_utf8(body);
}

/// The session token that a reply hides: at its usual place, or else at the
/// top.
pub open spec fn token_of(nested: json::JsonModel, top: json::JsonModel) -> Option<Seq<char>> {
    match nested {
        json::JsonModel::Text(s) => Some(s),
        json::JsonModel::Missing => match top {
            json::JsonModel::Text(s) => Some(s),
            _ => None,
        },
        _ => None,
    }
}

/// Takes the session token from its usual place, or else from the top.
pub fn pick_token(nested: Json, top: Json) -> (res: Option<String>)
    ensures
        storage::text_of(res) == token_of(nested@, top@),
{
    match nested {
        Json::Text(s) => Some(s),
        Json::Missing => match top {
            Json::Text(s) => Some(s),
            _ => None,
        },
        _ => None,
    }
}

/// The session token in what a reply to the login hides.
pub open spec fn token_in(inner: Seq<u8>) -> Result<Seq<char>, ErrorModel> {
    match json::json_part(inner, "/data/stok"@) {
        json::JsonModel::Broken { why } => Err(ErrorModel::LoginInnerBroken { why }),
        nested => match token_of(nested, json::json_part(inner, "/stok"@)) {
            Some(stok) => Ok(stok),
            None => Err(ErrorModel::NoToken { inner: shown(inner) }),
        },
    }
}

/// The session cookie in the header of a reply, if it has one.
pub open spec fn cookie_in(set_cookie: Option<Seq<char>>) -> Option<Seq<char>> {
    match set_cookie {
        Some(header) => sysauth_in(header),
        None => None,
    }
}

/// The session token and the session cookie that a reply to the login brings.
pub open spec fn session_in(
    key: Seq<char>,
    iv: Seq<char>,
    reply: Seq<char>,
    set_cookie: Option<Seq<char>>,
) -> Result<(Seq<char>, Seq<char>), ErrorModel> {
    match json::json_part(encode_utf8(reply), "/data"@) {
        json::JsonModel::Broken { why } => Err(ErrorModel::LoginBroken { why, reply }),
        json::JsonModel::Text(data) => match crypto::decrypted(
            data,
            encode_utf8(key),
            encode_utf8(iv),
        ) {
            Ok(plain) => match cookie_in(set_cookie) {
                Some(sysauth) => match token_in(encode_utf8(plain)) {
                    Ok(stok) => Ok((stok, sysauth)),
                    Err(e) => Err(e),
                },
                None => Err(ErrorModel::NoCookie),
            },
            Err(e) => Err(ErrorModel::Aes(e)),
        },
        _ => Err(ErrorModel::LoginUnexpected { reply: shown(encode_utf8(reply)) }),
    }
}

fn read_token(inner: &[u8]) -> (res: Result<String, RouterError>)
    ensures
        match res {
            Ok(stok) => token_in(inner@) == Ok::<Seq<char>, ErrorModel>(stok@),
            Err(e) => token_in(inner@) == Err::<Seq<char>, ErrorModel>(e@),
        },
{
    let nested = match json_at(inner, "/data/stok") {
        Json::Broken { why } => {
            return Err(RouterError::LoginInnerBroken { why });
        },
        part => part,
    };
    match pick_token(nested, json_at(inner, "/stok")) {
        Some(stok) => Ok(stok),
        None => Err(RouterError::NoToken { inner: show(inner) }),
    }
}

/// Makes a session of the reply to a login.
pub fn finish_login(request: LoginRequest, reply: &str, set_cookie: Option<&str>) -> (res: Result<
    Session,
    RouterError,
>)
    requires
        request.wf(),
    ensures
        match res {
            Ok(session) => {
                &&& session.wf()
                &&& session_in(request.key@, request.iv@, reply@, text::held(set_cookie)) == Ok::<
                    (Seq<char>, Seq<char>),
                    ErrorModel,
                >((session.stok@, session.sysauth@))
                &&& session.key@ == request.key@
                &&& session.iv@ == request.iv@
                &&& session.seq == request.seq
                &&& session.sign_key == request.sign_key
            },
            Err(e) => session_in(request.key@, request.iv@, reply@, text::held(set_cookie)) == Err::<
                (Seq<char>, Seq<char>),
                ErrorModel,
            >(e@),
        },
{
    proof {
        lemma_hex16_bytes(request.key@);
        lemma_hex16_bytes(request.iv@);
    }
    let data = match json_at(reply.as_bytes(), "/data") {
        Json::Broken { why } => {
            return Err(RouterError::LoginBroken { why, reply: reply.to_string() });
        },
        Json::Text(data) => data,
        _ => {
            return Err(RouterError::LoginUnexpected { reply: show(reply.as_bytes()) });
        },
    };
    let plain = match aes_decrypt(
        data.as_str(),
        request.key.as_str().as_bytes(),
        request.iv.as_str().as_bytes(),
    ) {
        Ok(plain) => plain,
        Err(e) => {
            return Err(RouterError::Aes(e));
        },
    };
    let found = match set_cookie {
        Some(header) => extract_sysauth(header),
        None => None,
    };
    let sysauth = match found {
        Some(sysauth) => sysauth,
        None => {
            return Err(RouterError::NoCookie);
        },
    };
    let stok = match read_token(plain.as_str().as_bytes()) {
        Ok(stok) => stok,
        Err(e) => {
            return Err(e);
        },
    };
    Ok(
        Session {
            stok,
            sysauth,
            key: request.key,
            iv: request.iv,
            seq: request.seq,
            sign_key: request.sign_key,
        },
    )
}

/// A request within a session.
#[derive(Clone, Debug)]
pub struct RouterRequest {
    pub url: String,
    pub cookie: String,
    pub sealed: Sealed,
}

/// What the router is asked for to learn how it manages devices: what it is
/// called, the page, and the operation.
pub open spec fn discovery_list() -> Seq<(Seq<char>, Seq<char>, Seq<char>)> {
    seq![
        ("owner_list"@, "admin/smart_network?form=patrol_owner_list"@, "operation=load"@),
        ("patrol_devices"@, "admin/smart_network?form=patrol_devices"@, "operation=load"@),
        ("patrol_enable"@, "admin/smart_network?form=patrol_enable"@, "operation=read"@),
    ]
}

/// What each entry of a list of requests holds.
pub open spec fn entries_of(v: Seq<(String, String, String)>) -> Seq<
    (Seq<char>, Seq<char>, Seq<char>),
> {
    v.map_values(|e: (String, String, String)| (e.0@, e.1@, e.2@))
}

/// Lists what the router is asked for to learn how it manages devices.
pub fn discovery_requests() -> (res: Vec<(String, String, String)>)
    ensures
        entries_of(res@) == discovery_list(),
{
    let mut out: Vec<(String, String, String)> = Vec::new();
    out.push(
        (
            "owner_list".to_string(),
            "admin/smart_network?form=patrol_owner_list".to_string(),
            "operation=load".to_string(),
        ),
    );
    out.push(
        (
            "patrol_devices".to_string(),
            "admin/smart_network?form=patrol_devices".to_string(),
            "operation=load".to_string(),
        ),
    );
    out.push(
        (
            "patrol_enable".to_string(),
            "admin/smart_network?form=patrol_enable".to_string(),
            "operation=read".to_string(),
        ),
    );
    assert(entries_of(out@) =~= discovery_list());
    out
}

/// Whether an error says that nobody is logged in: there is no session, or it
/// has expired.
pub open spec fn is_auth_failure(e: ErrorModel) -> bool {
    e is NotAuthorised || e is Expired
}

/// Tells whether an error says that nobody is logged in.
pub fn needs_login(e: &RouterError) -> (res: bool)
    ensures
        res == is_auth_failure(e@),
{
    match e {
        RouterError::NotAuthorised => true,
        RouterError::Expired { .. } => true,
        _ => false,
    }
}

/// How far a request has come.
#[derive(Clone, Copy, Debug, PartialEq, Eq, Structural)]
pub enum RequestState {
    /// It was sent for the first time.
    Sent,
    /// A login is under way.
    LoggingIn,
    /// It was sent again, after a login.
    SentAgain,
    /// It is over.
    Over,
}

/// What can befall a request.
#[derive(Clone, Debug)]
pub enum RequestEvent {
    /// It was answered.
    Answered { data: String },
    /// It failed, because nobody is logged in or for another reason.
    Failed { auth: bool, error: String },
    LoggedIn,
    LoginFailed { error: String },
}

/// What to do next with a request.
#[derive(Clone, Debug)]
pub enum RequestAction {
    LogIn,
    Send,
    Return { data: String },
    Fail { error: String },
}

/// What can befall a request.
pub enum EventModel {
    Answered { data: Seq<char> },
    Failed { auth: bool, error: Seq<char> },
    LoggedIn,
    LoginFailed { error: Seq<char> },
}

/// What to do next with a request.
pub enum ActionModel {
    LogIn,
    Send,
    Return { data: Seq<char> },
    Fail { error: Seq<char> },
}

impl View for RequestEvent {
    type V = EventModel;

    open spec fn view(&self) -> EventModel {
        match self {
            RequestEvent::Answered { data } => EventModel::Answered { data: data@ },
            RequestEvent::Failed { auth, error } => EventModel::Failed {
                auth: *auth,
                error: error@,
            },
            RequestEvent::LoggedIn => EventModel::LoggedIn,
            RequestEvent::LoginFailed { error } => EventModel::LoginFailed { error: error@ },
        }
    }
}

impl View for RequestAction {
    type V = ActionModel;

    open spec fn view(&self) -> ActionModel {
        match self {
            RequestAction::LogIn => ActionModel::LogIn,
            RequestAction::Send => ActionModel::Send,
            RequestAction::Return { data } => ActionModel::Return { data: data@ },
            RequestAction::Fail { error } => ActionModel::Fail { error: error@ },
        }
    }
}

/// Whether an event can befall a request in this state.
pub open spec fn can_happen(s: RequestState, e: EventModel) -> bool {
    match s {
        RequestState::Sent | RequestState::SentAgain => e is Answered || e is Failed,
        RequestState::LoggingIn => e is LoggedIn || e is LoginFailed,
        RequestState::Over => false,
    }
}

/// Where a request goes from here, and what to do. An answer is handed on. The
/// first failure for want of a login leads to a login, and a login to a second
/// attempt; any other failure is handed on.
pub open spec fn step_of(s: RequestState, e: EventModel) -> (RequestState, ActionModel) {
    match e {
        EventModel::Answered { data } => (RequestState::Over, ActionModel::Return { data }),
        EventModel::Failed { auth, error } => if auth && s is Sent {
            (RequestState::LoggingIn, ActionModel::LogIn)
        } else {
            (RequestState::Over, ActionModel::Fail { error })
        },
        EventModel::LoggedIn => (RequestState::SentAgain, ActionModel::Send),
        EventModel::LoginFailed { error } => (RequestState::Over, ActionModel::Fail { error }),
    }
}

/// Decides where a request goes from here, and what to do.
pub fn next_step(s: RequestState, e: RequestEvent) -> (res: (RequestState, RequestAction))
    requires
        can_happen(s, e@),
    ensures
        res.0 == step_of(s, e@).0,
        res.1@ == step_of(s, e@).1,
{
    match e {
        RequestEvent::Answered { data } => (RequestState::Over, RequestAction::Return { data }),
        RequestEvent::Failed { auth, error } => {
            if auth && s == RequestState::Sent {
                (RequestState::LoggingIn, RequestAction::LogIn)
            } else {
                (RequestState::Over, RequestAction::Fail { error })
            }
        },
        RequestEvent::LoggedIn => (RequestState::SentAgain, RequestAction::Send),
        RequestEvent::LoginFailed { error } => (RequestState::Over, RequestAction::Fail { error }),
    }
}

/// A request makes at most one login and is sent at most twice: a login comes
/// only of the first attempt, a second attempt only of that login, and nothing
/// leads back.
pub proof fn law_one_login_a_request(s: RequestState, e: EventModel)
    requires
        can_happen(s, e),
    ensures
        step_of(s, e).0 != RequestState::Sent,
        step_of(s, e).1 is LogIn ==> s is Sent && (e matches EventModel::Failed { auth, .. }
            && auth),
        step_of(s, e).1 is LogIn <==> step_of(s, e).0 is LoggingIn,
        step_of(s, e).1 is Send ==> s is LoggingIn,
        step_of(s, e).1 is Send <==> step_of(s, e).0 is SentAgain,
        step_of(s, e).1 is Return || step_of(s, e).1 is Fail <==> step_of(s, e).0 is Over,
{
}

impl RouterClient {
    /// Prepares a request within the session.
    pub fn seal_request(&self, path: &str, data: &str) -> (res: Result<RouterRequest, RouterError>)
        requires
            self.wf(),
            self.session matches Some(s) ==> has_room(s.seq, data@),
        ensures
            match self.session {
                None => res matches Err(e) && e@ is NotAuthorised,
                Some(s) => {
                    let bytes = to_sign(
                        LoginModel { user: self.user@, password: self.password@ },
                        data@,
                        false,
                        s.key@,
                        s.iv@,
                        s.seq,
                    );
                    match crypto::rsa_fault(
                        crypto::chunk_at(bytes, 0).len(),
                        s.sign_key.nn@,
                        s.sign_key.ee@,
                    ) {
                        Some(fault) => res matches Err(e) && e@ == ErrorModel::Rsa(fault),
                        None => match res {
                            Ok(request) => {
                                &&& request.url@ == self.base@ + "/cgi-bin/luci/;stok="@ + s.stok@
                                    + "/"@ + path@
                                &&& request.cookie@ == "sysauth="@ + s.sysauth@
                                &&& request.sealed.data@ == sealed_data(data@, s.key@, s.iv@)
                                &&& crypto::is_signature(
                                    request.sealed.sign@,
                                    bytes,
                                    s.sign_key.nn@,
                                    s.sign_key.ee@,
                                )
                            },
                            Err(e) => lacks_padding(e@),
                        },
                    }
                },
            },
    {
        match &self.session {
            Some(s) => match seal(
                self.user.as_str(),
                self.password.as_str(),
                data,
                false,
                s.key.as_str(),
                s.iv.as_str(),
                s.seq,
                &s.sign_key,
            ) {
                Ok(sealed) => Ok(
                    RouterRequest {
                        url: self.request_url(s, path),
                        cookie: two("sysauth=", s.sysauth.as_str()),
                        sealed,
                    },
                ),
                Err(e) => Err(e),
            },
            None => Err(RouterError::NotAuthorised),
        }
    }
}

/// What a reply brings, given whether it reports success, its data as text,
/// and the whole of it as text.
pub open spec fn verdict(
    path: Seq<char>,
    success: json::JsonModel,
    data: Option<Seq<char>>,
    inner: Seq<char>,
) -> Result<Seq<char>, ErrorModel> {
    match success {
        json::JsonModel::Broken { why } => Err(ErrorModel::ReplyInnerBroken { path, why }),
        json::JsonModel::Bool(true) => Ok(
            match data {
                Some(s) => s,
                None => "null"@,
            },
        ),
        _ => Err(ErrorModel::Refused { path, inner }),
    }
}

/// Decides what a reply brings: its data where it reports success, `null`
/// where it then has none.
pub fn judge(path: &str, success: Json, data: Option<String>, inner: String) -> (res: Result<
    String,
    RouterError,
>)
    ensures
        match res {
            Ok(s) => verdict(path@, success@, storage::text_of(data), inner@) == Ok::<
                Seq<char>,
                ErrorModel,
            >(s@),
            Err(e) => verdict(path@, success@, storage::text_of(data), inner@) == Err::<
                Seq<char>,
                ErrorModel,
            >(e@),
        },
{
    match success {
        Json::Broken { why } => Err(RouterError::ReplyInnerBroken { path: path.to_string(), why }),
        Json::Bool(true) => match data {
            Some(s) => Ok(s),
            None => Ok("null".to_string()),
        },
        _ => Err(RouterError::Refused { path: path.to_string(), inner }),
    }
}

/// The data that the reply to a request brings, as JSON text.
pub open spec fn data_in(
    key: Seq<char>,
    iv: Seq<char>,
    path: Seq<char>,
    status: u16,
    reply: Seq<u8>,
) -> Result<Seq<char>, ErrorModel> {
    if status == 403 {
        Err(ErrorModel::Expired { path })
    } else {
        match json::json_part(reply, "/data"@) {
            json::JsonModel::Broken { .. } => Err(ErrorModel::ReplyBroken { path }),
            json::JsonModel::Text(data) => match crypto::decrypted(
                data,
                encode_utf8(key),
                encode_utf8(iv),
            ) {
                Ok(plain) => {
                    let inner = encode_utf8(plain);
                    verdict(
                        path,
                        json::json_part(inner, "/success"@),
                        json::json_text(inner, "/data"@),
                        shown(inner),
                    )
                },
                Err(e) => Err(ErrorModel::Aes(e)),
            },
            _ => Err(ErrorModel::ReplyUnexpected { path, reply: shown(reply) }),
        }
    }
}

/// Opens the reply to a request, of which `status` is the HTTP status, and
/// gives its data as JSON text.
pub fn open_reply(session: &Session, path: &str, status: u16, reply: &[u8]) -> (res: Result<
    String,
    RouterError,
>)
    requires
        session.wf(),
    ensures
        match res {
            Ok(s) => data_in(session.key@, session.iv@, path@, status, reply@) == Ok::<
                Seq<char>,
                ErrorModel,
            >(s@),
            Err(e) => data_in(session.key@, session.iv@, path@, status, reply@) == Err::<
                Seq<char>,
                ErrorModel,
            >(e@),
        },
{
    proof {
        lemma_hex16_bytes(session.key@);
        lemma_hex16_bytes(session.iv@);
    }
    if status == 403 {
        return Err(RouterError::Expired { path: path.to_string() });
    }
    let data = match json_at(reply, "/data") {
        Json::Broken { .. } => {
            return Err(RouterError::ReplyBroken { path: path.to_string() });
        },
        Json::Text(data) => data,
        _ => {
            return Err(
                RouterError::ReplyUnexpected { path: path.to_string(), reply: show(reply) },
            );
        },
    };
    match aes_decrypt(
        data.as_str(),
        session.key.as_str().as_bytes(),
        session.iv.as_str().as_bytes(),
    ) {
        Ok(plain) => {
            let inner = plain.as_str().as_bytes();
            judge(path, json_at(inner, "/success"), json_text_at(inner, "/data"), show(inner))
        },
        Err(e) => Err(RouterError::Aes(e)),
    }
}

impl RouterClient {
    /// Takes in the reply to a login: its session is the client's from now on. A
    /// reply that makes none leaves the client as it was.
    pub fn accept_login(
        &mut self,
        request: LoginRequest,
        reply: &str,
        set_cookie: Option<&str>,
    ) -> (res: Result<(), RouterError>)
        requires
            request.wf(),
            old(self).wf(),
        ensures
            final(self).wf(),
            final(self).base == old(self).base,
            final(self).user == old(self).user,
            final(self).password == old(self).password,
            ({
                let found = session_in(request.key@, request.iv@, reply@, text::held(set_cookie));
                match res {
                    Ok(()) => {
                        &&& final(self).session matches Some(session)
                        &&& found == Ok::<(Seq<char>, Seq<char>), ErrorModel>(
                            (session.stok@, session.sysauth@),
                        )
                        &&& session.key@ == request.key@
                        &&& session.iv@ == request.iv@
                        &&& session.seq == request.seq
                        &&& session.sign_key == request.sign_key
                    },
                    Err(e) => {
                        &&& found == Err::<(Seq<char>, Seq<char>), ErrorModel>(e@)
                        &&& final(self).session == old(self).session
                    },
                }
            }),
    {
        match finish_login(request, reply, set_cookie) {
            Ok(session) => {
                self.session = Some(session);
                Ok(())
            },
            Err(e) => Err(e),
        }
    }
}

/// The session cookie is read back from the header that sets it, whatever
/// attributes follow.
pub proof fn law_sysauth_reads_back(token: Seq<char>, attributes: Seq<char>)
    requires
        forall|i: int| 0 <= i < token.len() ==> #[trigger] token[i] != ';' && token[i] != ',',
        attributes.len() > 0 ==> attributes[0] == ';',
    ensures
        sysauth_in("sysauth="@ + token + attributes) == Some(token),
{
    reveal_strlit("sysauth=");
    let cookie = "sysauth="@ + token + attributes;
    assert(cookie.subrange(0, 8) =~= "sysauth="@);
    assert(text::occurs_at(cookie, "sysauth="@, 0));
    assert(cookie.skip(8) =~= token + attributes);
    lemma_cookie_end(token, attributes, 0);
    assert((token + attributes).take(token.len() as int) =~= token);
}

proof fn lemma_cookie_end(token: Seq<char>, attributes: Seq<char>, i: int)
    requires
        0 <= i <= token.len(),
        forall|i: int| 0 <= i < token.len() ==> #[trigger] token[i] != ';' && token[i] != ',',
        attributes.len() > 0 ==> attributes[0] == ';',
    ensures
        cookie_end(token + attributes, i) == token.len(),
    decreases token.len() - i,
{
    let s = token + attributes;
    if i < token.len() {
        assert(s[i] == token[i]);
        lemma_cookie_end(token, attributes, i + 1);
    } else if attributes.len() > 0 {
        assert(s[i] == attributes[0]);
    }
}

/// A session is made only of a reply that decrypts under the key of its own
/// login, and only with a cookie.
pub proof fn law_session_needs_key_and_cookie(
    key: Seq<char>,
    iv: Seq<char>,
    reply: Seq<char>,
    set_cookie: Option<Seq<char>>,
)
    requires
        session_in(key, iv, reply, set_cookie) is Ok,
    ensures
        json::json_part(encode_utf8(reply), "/data"@) matches json::JsonModel::Text(data)
            && crypto::decrypted(data, encode_utf8(key), encode_utf8(iv)) is Ok,
        set_cookie matches Some(header) && text::first_at(header, "sysauth="@) is Some,
{
}

/// An expired session is reported as such whatever the reply holds.
pub proof fn law_forbidden_is_expired(
    key: Seq<char>,
    iv: Seq<char>,
    path: Seq<char>,
    reply: Seq<u8>,
)
    ensures
        data_in(key, iv, path, 403, reply) == Err::<Seq<char>, ErrorModel>(
            ErrorModel::Expired { path },
        ),
{
}

/// A public key is a list whose first two items are texts: the modulus, and then
/// the exponent. What is missing first is told.
pub proof fn law_public_key(
    list: json::JsonModel,
    nn: Seq<char>,
    ee: Seq<char>,
    other: json::JsonModel,
)
    requires
        !(other is Text),
        !(list is List),
    ensures
        key_of(
            json::JsonModel::List,
            json::JsonModel::Text(nn),
            json::JsonModel::Text(ee),
        ) == Ok::<KeyModel, KeyFault>(KeyModel { nn, ee }),
        key_of(json::JsonModel::List, json::JsonModel::Text(nn), other) == Err::<
            KeyModel,
            KeyFault,
        >(KeyFault::NoExponent),
        key_of(json::JsonModel::List, other, json::JsonModel::Text(ee)) == Err::<
            KeyModel,
            KeyFault,
        >(KeyFault::NoModulus),
        key_of(list, json::JsonModel::Text(nn), json::JsonModel::Text(ee)) == Err::<
            KeyModel,
            KeyFault,
        >(KeyFault::NoKey),
{
}

/// Where the keys stand in the replies to the forms: the one for the password in
/// `data`, under `password`; the one for signatures there under `key`, beside the
/// sequence number under `seq`.
pub proof fn law_keys_in_replies(reply: Seq<u8>, nn: Seq<char>, ee: Seq<char>, seq: u64)
    requires
        json::json_part(reply, "/data"@) is Object,
    ensures
        json::json_part(reply, "/data/password"@) is List && json::json_part(
            reply,
            "/data/password/0"@,
        ) == json::JsonModel::Text(nn) && json::json_part(reply, "/data/password/1"@)
            == json::JsonModel::Text(ee) ==> password_key_in(reply) == Ok::<KeyModel, ErrorModel>(
            KeyModel { nn, ee },
        ),
        json::json_part(reply, "/data/seq"@) == json::JsonModel::Number(Some(seq))
            && json::json_part(reply, "/data/key"@) is List && json::json_part(
            reply,
            "/data/key/0"@,
        ) == json::JsonModel::Text(nn) && json::json_part(reply, "/data/key/1"@)
            == json::JsonModel::Text(ee) ==> sign_key_in(reply) == Ok::<
            (u64, KeyModel),
            ErrorModel,
        >((seq, KeyModel { nn, ee })),
        !(json::json_part(reply, "/data/password"@) is List) ==> password_key_in(reply) == Err::<
            KeyModel,
            ErrorModel,
        >(ErrorModel::NoPasswordKey),
        !(json::json_part(reply, "/data/seq"@) is Number) ==> sign_key_in(reply) == Err::<
            (u64, KeyModel),
            ErrorModel,
        >(ErrorModel::NoSequence),
{
}

/// The session cookie is what follows the first `sysauth=` of a header, up to a
/// semicolon, a comma or the end.
pub proof fn law_sysauth_anywhere(front: Seq<char>, token: Seq<char>, back: Seq<char>)
    requires
        forall|i: int| 0 <= i < token.len() ==> #[trigger] token[i] != ';' && token[i] != ',',
        back.len() > 0 ==> back[0] == ';' || back[0] == ',',
        forall|j: int|
            0 <= j < front.len() ==> #[trigger] (front + "sysauth="@ + (token + back)).subrange(
                j,
                j + 8,
            ) != "sysauth="@,
    ensures
        sysauth_in(front + "sysauth="@ + (token + back)) == Some(token),
{
    reveal_strlit("sysauth=");
    let rest = token + back;
    let cookie = front + "sysauth="@ + rest;
    text::lemma_found_behind(front, "sysauth="@, rest);
    assert(cookie.skip(front.len() as int + 8) =~= rest);
    lemma_token_ends(token, back, 0);
    assert(rest.take(token.len() as int) =~= token);
}

proof fn lemma_token_ends(token: Seq<char>, back: Seq<char>, i: int)
    requires
        0 <= i <= token.len(),
        forall|i: int| 0 <= i < token.len() ==> #[trigger] token[i] != ';' && token[i] != ',',
        back.len() > 0 ==> back[0] == ';' || back[0] == ',',
    ensures
        cookie_end(token + back, i) == token.len(),
    decreases token.len() - i,
{
    let s = token + back;
    if i < token.len() {
        assert(s[i] == token[i]);
        lemma_token_ends(token, back, i + 1);
    } else if back.len() > 0 {
        assert(s[i] == back[0]);
    }
}

/// What is signed for a message: the digest of the name and the password, one
/// after the other, and the sequence number moved on by the length of the data.
pub proof fn law_what_is_signed(
    user: Seq<char>,
    password: Seq<char>,
    body: Seq<char>,
    key: Seq<char>,
    iv: Seq<char>,
    seq: u64,
    moved: u64,
)
    requires
        moved == seq + 4 * ((16 * (encode_utf8(body).len() / 16 + 1) + 2) / 3),
    ensures
        ({
            let login = LoginModel { user, password };
            let hash = numerals::hex_text(
                crypto::md5_digest(encode_utf8(user) + encode_utf8(password)),
            );
            &&& to_sign(login, body, false, key, iv, seq) == encode_utf8(
                "h="@ + hash + "&s="@ + numerals::decimal(moved as nat),
            )
            &&& to_sign(login, body, true, key, iv, seq) == encode_utf8(
                "k="@ + key + "&i="@ + iv + "&"@ + ("h="@ + hash + "&s="@ + numerals::decimal(
                    moved as nat,
                )),
            )
        }),
{
}

/// Whether the sequence number can be moved on: the sum stays a number of 64 bits.
pub proof fn law_room(seq: u64, body: Seq<char>)
    ensures
        has_room(seq, body) <==> seq + 4 * ((16 * (encode_utf8(body).len() / 16 + 1) + 2) / 3)
            <= 18446744073709551615,
{
}

/// What a login carries: the password, encrypted, and that it is a login.
pub proof fn law_login_body(crypted: Seq<char>)
    requires
        !crypted.contains('&'),
    ensures
        text::pieces(login_body(crypted), '&') == seq![
            "password="@ + crypted,
            "operation=login"@,
        ],
{
    reveal_strlit("password=");
    reveal_strlit("&operation=login");
    reveal_strlit("operation=login");
    let a = "password="@ + crypted;
    let b = "operation=login"@;
    assert(login_body(crypted) =~= a + seq!['&'] + b);
    assert forall|i: int| 0 <= i < a.len() implies #[trigger] a[i] != '&' by {
        if i >= 9 {
            assert(a[i] == crypted[i - 9]);
            assert(crypted.contains(crypted[i - 9]));
        }
    }
    text::lemma_one_piece(a, '&');
    text::lemma_one_piece(b, '&');
    text::lemma_pieces_across(a, b, '&');
    assert(seq![a] + seq![b] =~= seq![a, b]);
}

/// Where the session token stands: in `data`, and where nothing is there, at the
/// top; anything but a text is none.
pub proof fn law_token_place(nested: Seq<char>, top: Seq<char>, other: json::JsonModel)
    requires
        !(other is Text),
    ensures
        token_of(json::JsonModel::Text(nested), other) == Some(nested),
        token_of(json::JsonModel::Text(nested), json::JsonModel::Text(top)) == Some(nested),
        token_of(json::JsonModel::Missing, json::JsonModel::Text(top)) == Some(top),
        token_of(json::JsonModel::Missing, other) is None,
        !(other is Missing) ==> token_of(other, json::JsonModel::Text(top)) is None,
{
}

/// A reply to the login whose data decrypts to a token, with a cookie in its
/// header, makes a session of the two.
pub proof fn law_session_of_reply(
    key: Seq<char>,
    iv: Seq<char>,
    reply: Seq<char>,
    data: Seq<char>,
    plain: Seq<char>,
    stok: Seq<char>,
    header: Seq<char>,
    sysauth: Seq<char>,
)
    requires
        json::json_part(encode_utf8(reply), "/data"@) == json::JsonModel::Text(data),
        crypto::decrypted(data, encode_utf8(key), encode_utf8(iv)) == Ok::<
            Seq<char>,
            crypto::AesFault,
        >(plain),
        json::json_part(encode_utf8(plain), "/data/stok"@) == json::JsonModel::Text(stok),
        sysauth_in(header) == Some(sysauth),
    ensures
        session_in(key, iv, reply, Some(header)) == Ok::<(Seq<char>, Seq<char>), ErrorModel>(
            (stok, sysauth),
        ),
        session_in(key, iv, reply, None) == Err::<(Seq<char>, Seq<char>), ErrorModel>(
            ErrorModel::NoCookie,
        ),
{
}

/// A reply whose data decrypts to a report of success brings the data in it, and
/// `null` where there is none; any other report is a refusal.
pub proof fn law_data_of_reply(
    key: Seq<char>,
    iv: Seq<char>,
    path: Seq<char>,
    status: u16,
    reply: Seq<u8>,
    data: Seq<char>,
    plain: Seq<char>,
)
    requires
        status != 403,
        json::json_part(reply, "/data"@) == json::JsonModel::Text(data),
        crypto::decrypted(data, encode_utf8(key), encode_utf8(iv)) == Ok::<
            Seq<char>,
            crypto::AesFault,
        >(plain),
    ensures
        ({
            let inner = encode_utf8(plain);
            let success = json::json_part(inner, "/success"@);
            let found = data_in(key, iv, path, status, reply);
            &&& success == json::JsonModel::Bool(true) ==> found == Ok::<Seq<char>, ErrorModel>(
                match json::json_text(inner, "/data"@) {
                    Some(s) => s,
                    None => "null"@,
                },
            )
            &&& success != json::JsonModel::Bool(true) && !(success is Broken) ==> found == Err::<
                Seq<char>,
                ErrorModel,
            >(ErrorModel::Refused { path, inner: shown(inner) })
            &&& success is Broken ==> found is Err && found->Err_0 is ReplyInnerBroken
        }),
{
}

/// Only a lack of a session calls for a login: there is none, or it has expired.
pub proof fn law_what_calls_for_login(e: ErrorModel, path: Seq<char>)
    ensures
        is_auth_failure(ErrorModel::NotAuthorised),
        is_auth_failure(ErrorModel::Expired { path }),
        is_auth_failure(e) ==> e is NotAuthorised || e is Expired,
{
}

/// The whole course of a request: an answer is handed on; a failure for want of a
/// login leads to one, which leads to a second attempt; any other failure, a
/// failed login and a second failure are handed on.
pub proof fn law_course_of_request(data: Seq<char>, error: Seq<char>)
    ensures
        step_of(RequestState::Sent, EventModel::Answered { data }) == (
            RequestState::Over,
            ActionModel::Return { data },
        ),
        step_of(RequestState::Sent, EventModel::Failed { auth: true, error }) == (
            RequestState::LoggingIn,
            ActionModel::LogIn,
        ),
        step_of(RequestState::Sent, EventModel::Failed { auth: false, error }) == (
            RequestState::Over,
            ActionModel::Fail { error },
        ),
        step_of(RequestState::LoggingIn, EventModel::LoggedIn) == (
            RequestState::SentAgain,
            ActionModel::Send,
        ),
        step_of(RequestState::LoggingIn, EventModel::LoginFailed { error }) == (
            RequestState::Over,
            ActionModel::Fail { error },
        ),
        step_of(RequestState::SentAgain, EventModel::Answered { data }) == (
            RequestState::Over,
            ActionModel::Return { data },
        ),
        step_of(RequestState::SentAgain, EventModel::Failed { auth: true, error }) == (
            RequestState::Over,
            ActionModel::Fail { error },
        ),
        step_of(RequestState::SentAgain, EventModel::Failed { auth: false, error }) == (
            RequestState::Over,
            ActionModel::Fail { error },
        ),
{
}

/// Where a message tells of a form or a path, it begins with it.
pub proof fn law_messages_name_their_place(
    form: Seq<char>,
    path: Seq<char>,
    why: Seq<char>,
    shown: Seq<char>,
)
    ensures
        text::begins_with(message_of(ErrorModel::FormBroken { form }), "form="@ + form),
        text::begins_with(
            message_of(ErrorModel::FormEmpty { form, reply: shown }),
            "form="@ + form,
        ),
        text::begins_with(message_of(ErrorModel::Expired { path }), path),
        text::begins_with(message_of(ErrorModel::ReplyBroken { path }), path),
        text::begins_with(message_of(ErrorModel::ReplyUnexpected { path, reply: shown }), path),
        text::begins_with(message_of(ErrorModel::ReplyInnerBroken { path, why }), path),
        text::begins_with(message_of(ErrorModel::Refused { path, inner: shown }), path),
{
    let f = "form="@ + form;
    lemma_begins(f, " JSON: error decoding response body"@);
    lemma_begins(f, ": no data in "@ + shown);
    assert(f + (": no data in "@ + shown) =~= f + ": no data in "@ + shown);
    lemma_begins(path, ": 403 (session expired)"@);
    lemma_begins(path, " JSON: error decoding response body"@);
    lemma_begins(path, ": unexpected response "@ + shown);
    assert(path + (": unexpected response "@ + shown) =~= path + ": unexpected response "@ + shown);
    lemma_begins(path, " inner JSON: "@ + why);
    assert(path + (" inner JSON: "@ + why) =~= path + " inner JSON: "@ + why);
    lemma_begins(path, ": router error "@ + shown);
    assert(path + (": router error "@ + shown) =~= path + ": router error "@ + shown);
}

proof fn lemma_begins(a: Seq<char>, b: Seq<char>)
    ensures
        text::begins_with(a + b, a),
{
    assert((a + b).subrange(0, a.len() as int) =~= a);
}

/// What a failure of an outside step says stands at the end of its message.
pub proof fn law_messages_end_in_their_cause(why: Seq<char>, path: Seq<char>, message: nat, key: nat)
    ensures
        message_of(ErrorModel::NoRandom { why }) == "OS RNG unavailable: "@ + why,
        message_of(ErrorModel::Rsa(crypto::RsaFault::NoRandom { why })) == "OS RNG unavailable: "@
            + why,
        message_of(ErrorModel::Aes(crypto::AesFault::NotBase64 { why })) == "b64 decode: "@ + why,
        message_of(ErrorModel::Aes(crypto::AesFault::NotText { why })) == "utf8: "@ + why,
        message_of(ErrorModel::LoginInnerBroken { why }) == "login inner JSON: "@ + why,
        message_of(ErrorModel::LoginUnexpected { reply: why }) == "login: unexpected response "@
            + why,
        message_of(ErrorModel::NoToken { inner: why }) == "login: no stok in "@ + why,
        message_of(ErrorModel::Refused { path, inner: why }) == path + ": router error "@ + why,
        message_of(ErrorModel::Rsa(crypto::RsaFault::TooLong { message, key })) == "RSA message "@
            + numerals::decimal(message) + " too long for "@ + numerals::decimal(key)
            + "-byte key"@,
{
}

/// How long a login gets, and when the sequence number can be moved on by it: two
/// digits for each byte of the key, and twenty-five characters beside them.
pub proof fn law_login_length(
    password: Seq<char>,
    seq: u64,
    key: KeyModel,
    n: nat,
    block: Seq<u8>,
)
    requires
        bignum::numeral(key.nn) == Some(n),
        bignum::numeral(key.ee) is Some,
        block.len() == bignum::byte_len(n),
        encode_utf8(password).len() + 11 <= block.len(),
    ensures
        login_body(numerals::hex_text(block)).len() == 2 * block.len() + 25,
        login_has_room(password, seq, key) <==> seq + 4 * ((16 * ((2 * block.len() + 25) / 16 + 1)
            + 2) / 3) <= 18446744073709551615,
        password_fits(password, key),
{
    reveal_strlit("password=");
    reveal_strlit("&operation=login");
    numerals::lemma_hex_text(block);
}

/// An empty password can be sent under a key of any length that has room for the
/// three bytes around the padding.
pub proof fn law_shortest_key(password: Seq<char>, key: KeyModel, n: nat)
    requires
        bignum::numeral(key.nn) == Some(n),
        bignum::numeral(key.ee) is Some,
        encode_utf8(password).len() == 0,
    ensures
        password_fits(password, key) <==> bignum::byte_len(n) >= 3,
{
}

/// A sealed login holds the password encrypted under its own key, and is signed
/// for what it holds.
pub proof fn law_sealed_login(
    sealed: Sealed,
    login: LoginModel,
    password_key: KeyModel,
    seq: u64,
    sign_key: KeyModel,
    key: Seq<char>,
    iv: Seq<char>,
)
    requires
        login_is_sealed(sealed, login, password_key, seq, sign_key, key, iv),
    ensures
        exists|crypted: Seq<char>|
            {
                let body = "password="@ + crypted + "&operation=login"@;
                &&& #[trigger] crypto::is_rsa_block(
                    crypted,
                    encode_utf8(login.password),
                    password_key.nn,
                    password_key.ee,
                )
                &&& sealed.data@ == crypto::base64_text(
                    crypto::aes_ciphertext(encode_utf8(body), encode_utf8(key), encode_utf8(iv)),
                )
                &&& crypto::is_signature(
                    sealed.sign@,
                    to_sign(login, body, true, key, iv, seq),
                    sign_key.nn,
                    sign_key.ee,
                )
            },
{
}

}
