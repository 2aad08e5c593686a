use lansight::crypto::{aes_decrypt, aes_encrypt, AesError, RsaError};
use lansight::json::Json;
use lansight::router::{
    check_login_room, check_password, check_room, discovery_requests, extract_sysauth,
    finish_login, judge, needs_login, next_step, open_reply, password_key, pick_token, public_key,
    seal, sign_key, KeyFault, LoginRequest, PublicKey, RequestAction, RequestEvent, RequestState,
    RouterClient, RouterError, Sealed, Session,
};

const N: &str = "DBBF149B525796DCB380BE29E25A64022443BE0F315822414DAC9FC54F4CBC82\
                 B4C2F0CC97D433909939DD1526C8D3E0C41AB2F8117F6E300C0CCC30EAFAF9D1";
const KEY: &str = "0123456789abcdef";
const IV: &str = "fedcba9876543210";

fn key() -> PublicKey {
    PublicKey { nn: N.to_string(), ee: "010001".to_string() }
}

fn client() -> RouterClient {
    RouterClient::new("http://192.168.0.1//".to_string(), "admin".to_string(), "secret".to_string())
}

fn session() -> Session {
    Session {
        stok: "tok".to_string(),
        sysauth: "auth".to_string(),
        key: KEY.to_string(),
        iv: IV.to_string(),
        seq: 100,
        sign_key: key(),
    }
}

fn pending() -> LoginRequest {
    LoginRequest {
        sealed: Sealed { data: String::new(), sign: String::new() },
        key: KEY.to_string(),
        iv: IV.to_string(),
        seq: 7,
        sign_key: key(),
    }
}

fn wrapped(inner: &str) -> String {
    format!("{{\"data\": \"{}\"}}", aes_encrypt(inner, KEY.as_bytes(), IV.as_bytes()))
}

#[test]
fn addresses_of_the_router() {
    let client = client();
    assert_eq!(client.base, "http://192.168.0.1");
    assert_eq!(client.referer(), "http://192.168.0.1/webpages/index.html");
    assert_eq!(client.form_url("keys"), "http://192.168.0.1/cgi-bin/luci/;stok=/login?form=keys");
    assert_eq!(
        client.request_url(&session(), "admin/x?form=y"),
        "http://192.168.0.1/cgi-bin/luci/;stok=tok/admin/x?form=y"
    );
    assert!(client.session.is_none());
}

#[test]
fn password_keys_are_read() {
    let got = password_key(br#"{"data": {"password": ["AB", "03"]}}"#).unwrap();
    assert_eq!((got.nn.as_str(), got.ee.as_str()), ("AB", "03"));
    let message = |body: &str| password_key(body.as_bytes()).unwrap_err().message();
    assert_eq!(message("nonsense"), "form=keys JSON: error decoding response body");
    assert_eq!(message(r#"{ "a" : 1 }"#), "form=keys: no data in {\"a\":1}");
    assert_eq!(message(r#"{"data": null}"#), "form=keys: no password key");
    assert_eq!(message(r#"{"data": {"password": "AB"}}"#), "form=keys: no password key");
    assert_eq!(message(r#"{"data": {"password": []}}"#), "no pwd modulus");
    assert_eq!(message(r#"{"data": {"password": ["AB", 3]}}"#), "no pwd exponent");
}

#[test]
fn sign_keys_are_read() {
    let (seq, got) = sign_key(br#"{"data": {"seq": 42, "key": ["CD", "05"]}}"#).unwrap();
    assert_eq!((seq, got.nn.as_str(), got.ee.as_str()), (42, "CD", "05"));
    let message = |body: &str| sign_key(body.as_bytes()).unwrap_err().message();
    assert_eq!(message("["), "form=auth JSON: error decoding response body");
    assert_eq!(message("[]"), "form=auth: no data in []");
    assert_eq!(message(r#"{"data": {"seq": -1, "key": []}}"#), "form=auth: no seq");
    assert_eq!(message(r#"{"data": {"seq": "1", "key": []}}"#), "form=auth: no seq");
    assert_eq!(message(r#"{"data": {"seq": 1}}"#), "form=auth: no sign key");
    assert_eq!(message(r#"{"data": {"seq": 1, "key": [null]}}"#), "no sign modulus");
    assert_eq!(message(r#"{"data": {"seq": 1, "key": ["CD"]}}"#), "no sign exponent");
}

#[test]
fn keys_from_parts() {
    let text = |s: &str| Json::Text(s.to_string());
    let got = public_key(Json::List, text("n"), text("e")).unwrap();
    assert_eq!((got.nn.as_str(), got.ee.as_str()), ("n", "e"));
    assert_eq!(public_key(Json::Null, text("n"), text("e")).unwrap_err(), KeyFault::NoKey);
    assert_eq!(public_key(Json::List, Json::Missing, text("e")).unwrap_err(), KeyFault::NoModulus);
    assert_eq!(public_key(Json::List, text("n"), Json::Object).unwrap_err(), KeyFault::NoExponent);
}

#[test]
fn session_cookies_are_pulled_out() {
    assert_eq!(extract_sysauth("sysauth=abc; path=/").as_deref(), Some("abc"));
    assert_eq!(extract_sysauth("x=1, sysauth=abc,y=2").as_deref(), Some("abc"));
    assert_eq!(extract_sysauth("sysauth=abc").as_deref(), Some("abc"));
    assert_eq!(extract_sysauth("sysauth=").as_deref(), Some(""));
    assert_eq!(extract_sysauth("auth=abc"), None);
}

#[test]
fn messages_are_sealed() {
    let sealed = seal("admin", "secret", "operation=load", false, KEY, IV, 10, &key()).unwrap();
    assert_eq!(sealed.data, "DmCJsuEmQGUVdO0RrmAFlw==");
    // "h=" + 32 + "&s=34" is one chunk
    assert_eq!(sealed.sign.len(), 128);
    let bad = PublicKey { nn: "zz".to_string(), ee: "3".to_string() };
    let fault = seal("admin", "secret", "x", true, KEY, IV, 10, &bad).unwrap_err();
    assert_eq!(fault.message(), "bad RSA modulus");
}

#[test]
fn sequence_numbers_have_room() {
    assert!(check_room(10, "operation=load"));
    assert!(check_room(u64::MAX - 24, "operation=load"));
    assert!(!check_room(u64::MAX - 23, "operation=load"));
    assert!(check_login_room("secret", 10, &key()));
    // 2 * 64 + 25 bytes, padded to 160, in base 64
    assert!(check_login_room("secret", u64::MAX - 216, &key()));
    assert!(!check_login_room("secret", u64::MAX - 215, &key()));
    assert!(check_password("", &key()));
    assert!(check_password("x", &PublicKey { nn: "ff".to_string(), ee: "3".to_string() }));
    assert!(!check_password("", &PublicKey { nn: "ff".to_string(), ee: "3".to_string() }));
    // where the password cannot be encrypted, the login says so instead
    let unreadable = PublicKey { nn: "zz".to_string(), ee: "3".to_string() };
    assert!(check_password("", &unreadable));
    assert!(check_login_room("", u64::MAX, &unreadable));
    assert!(check_login_room(&"x".repeat(54), u64::MAX, &key()));
    let nobody = RouterClient::new("http://r".to_string(), "admin".to_string(), String::new());
    assert_eq!(
        nobody.login_request(&unreadable, u64::MAX, key()).unwrap_err().message(),
        "bad RSA modulus"
    );
}

#[test]
fn login_carries_the_password() {
    let request = client().login_request(&key(), 5, key()).unwrap();
    assert_eq!(request.seq, 5);
    assert_eq!(request.key.len(), 16);
    assert_eq!(request.sealed.data.len(), 216);
    assert_eq!(request.sealed.sign.len(), 256);
    let body = aes_decrypt(&request.sealed.data, request.key.as_bytes(), request.iv.as_bytes()).unwrap();
    assert!(body.starts_with("password="));
    assert!(body.ends_with("&operation=login"));
    assert_eq!(body.len(), 9 + 128 + 16);
    let again = client().login_with(&key(), 5, key(), KEY.to_string(), IV.to_string()).unwrap();
    assert_eq!(again.key, KEY);
    assert_eq!(again.iv, IV);
}

#[test]
fn login_passes_faults_on() {
    let small = PublicKey { nn: "ffffffffffffffff".to_string(), ee: "3".to_string() };
    let fault = client().login_request(&small, 5, key()).unwrap_err();
    assert_eq!(fault.message(), "RSA message 6 too long for 8-byte key");
    let fault = client().login_request(&key(), 5, small).unwrap_err();
    assert_eq!(fault.message(), "RSA message 53 too long for 8-byte key");
}

#[test]
fn login_replies_make_sessions() {
    let cookie = Some("sysauth=cafe; path=/");
    let s = finish_login(pending(), &wrapped(r#"{"data": {"stok": "abc"}}"#), cookie).unwrap();
    assert_eq!((s.stok.as_str(), s.sysauth.as_str()), ("abc", "cafe"));
    assert_eq!((s.key.as_str(), s.iv.as_str(), s.seq), (KEY, IV, 7));
    let s = finish_login(pending(), &wrapped(r#"{"stok": "top"}"#), cookie).unwrap();
    assert_eq!(s.stok, "top");
}

#[test]
fn login_replies_are_refused() {
    let cookie = Some("sysauth=cafe");
    let message = |reply: &str, cookie: Option<&str>| {
        finish_login(pending(), reply, cookie).unwrap_err().message()
    };
    assert_eq!(message("oops", cookie), "login JSON: expected value at line 1 column 1; body=oops");
    assert_eq!(message(r#"{"error": 1}"#, cookie), "login: unexpected response {\"error\":1}");
    assert_eq!(message(r#"{"data": "***"}"#, cookie), "b64 decode: Invalid symbol 42, offset 0.");
    assert_eq!(message(r#"{"data": "AAAA"}"#, cookie), "aes decrypt/unpad: Unpad Error");
    assert_eq!(message(&wrapped("{}"), None), "login: no sysauth cookie");
    assert_eq!(message(&wrapped("{}"), Some("x=1")), "login: no sysauth cookie");
    assert_eq!(message(&wrapped("no json"), cookie), "login inner JSON: expected ident at line 1 column 2");
    assert_eq!(message(&wrapped("{}"), cookie), "login: no stok in {}");
    assert_eq!(
        message(&wrapped(r#"{"data":{"stok":1},"stok":"top"}"#), cookie),
        "login: no stok in {\"data\":{\"stok\":1},\"stok\":\"top\"}"
    );
}

#[test]
fn the_session_of_a_login_is_kept() {
    let mut client = client();
    let cookie = Some("sysauth=cafe");
    let fault = client.accept_login(pending(), "oops", cookie).unwrap_err();
    assert_eq!(fault.message(), "login JSON: expected value at line 1 column 1; body=oops");
    assert!(client.session.is_none());
    client.accept_login(pending(), &wrapped(r#"{"stok": "abc"}"#), cookie).unwrap();
    let s = client.session.as_ref().unwrap();
    assert_eq!((s.stok.as_str(), s.sysauth.as_str()), ("abc", "cafe"));
    assert_eq!((s.key.as_str(), s.iv.as_str(), s.seq), (KEY, IV, 7));
    assert!(client.accept_login(pending(), &wrapped("{}"), cookie).is_err());
    assert_eq!(client.session.as_ref().unwrap().stok, "abc");
    assert!(client.seal_request("p", "operation=load").is_ok());
}

#[test]
fn tokens_from_parts() {
    let text = |s: &str| Json::Text(s.to_string());
    assert_eq!(pick_token(text("a"), text("b")).as_deref(), Some("a"));
    assert_eq!(pick_token(Json::Missing, text("b")).as_deref(), Some("b"));
    assert_eq!(pick_token(Json::Null, text("b")), None);
    assert_eq!(pick_token(Json::Missing, Json::Missing), None);
}

#[test]
fn requests_need_a_session() {
    let mut client = client();
    assert_eq!(
        client.seal_request("p", "operation=load").unwrap_err().message(),
        "not authorised"
    );
    client.session = Some(session());
    let request = client.seal_request("p", "operation=load").unwrap();
    assert_eq!(request.url, "http://192.168.0.1/cgi-bin/luci/;stok=tok/p");
    assert_eq!(request.cookie, "sysauth=auth");
    assert_eq!(request.sealed.data, "DmCJsuEmQGUVdO0RrmAFlw==");
    assert_eq!(request.sealed.sign.len(), 128);
}

#[test]
fn replies_are_opened() {
    let s = session();
    let open = |inner: &str| open_reply(&s, "p", 200, wrapped(inner).as_bytes());
    assert_eq!(open(r#"{"success": true, "data": {"b": [1, 2], "a": null}}"#).unwrap(), r#"{"a":null,"b":[1,2]}"#);
    assert_eq!(open(r#"{"success": true}"#).unwrap(), "null");
    assert_eq!(open(r#"{"success": false}"#).unwrap_err().message(), "p: router error {\"success\":false}");
    assert_eq!(open(r#"{"success": 1}"#).unwrap_err().message(), "p: router error {\"success\":1}");
    assert_eq!(open("x").unwrap_err().message(), "p inner JSON: expected value at line 1 column 1");
    let message = |status: u16, reply: &str| {
        open_reply(&s, "p", status, reply.as_bytes()).unwrap_err().message()
    };
    assert_eq!(message(403, "{}"), "p: 403 (session expired)");
    assert_eq!(message(200, "x"), "p JSON: error decoding response body");
    assert_eq!(message(200, "[1]"), "p: unexpected response [1]");
    assert_eq!(message(200, r#"{"data": "AA=="}"#), "aes decrypt/unpad: Unpad Error");
}

#[test]
fn verdicts_from_parts() {
    let inner = "{}".to_string();
    assert_eq!(judge("p", Json::Bool(true), Some("1".to_string()), inner.clone()).unwrap(), "1");
    assert_eq!(judge("p", Json::Bool(true), None, inner.clone()).unwrap(), "null");
    assert_eq!(
        judge("p", Json::Bool(false), None, inner.clone()).unwrap_err().message(),
        "p: router error {}"
    );
    let broken = Json::Broken { why: "odd".to_string() };
    assert_eq!(judge("p", broken, None, inner).unwrap_err().message(), "p inner JSON: odd");
}

#[test]
fn other_messages() {
    let why = "no device".to_string();
    assert_eq!(
        RouterError::NoRandom { why: why.clone() }.message(),
        "OS RNG unavailable: no device"
    );
    assert_eq!(
        RouterError::Rsa(RsaError::NoRandom { why: why.clone() }).message(),
        "OS RNG unavailable: no device"
    );
    assert_eq!(RouterError::Rsa(RsaError::BadExponent).message(), "bad RSA exponent");
    assert_eq!(RouterError::Aes(AesError::NotText { why }).message(), "utf8: no device");
}

#[test]
fn only_a_missing_login_calls_for_one() {
    assert!(needs_login(&RouterError::NotAuthorised));
    assert!(needs_login(&open_reply(&session(), "p", 403, b"").unwrap_err()));
    assert!(!needs_login(&open_reply(&session(), "p", 200, b"{}").unwrap_err()));
    assert!(!needs_login(&RouterError::NoToken { inner: String::new() }));
}

fn failed(auth: bool) -> RequestEvent {
    RequestEvent::Failed { auth, error: "why".to_string() }
}

#[test]
fn a_request_logs_in_once() {
    let (state, action) = next_step(RequestState::Sent, failed(true));
    assert_eq!(state, RequestState::LoggingIn);
    assert!(matches!(action, RequestAction::LogIn));
    let (state, action) = next_step(state, RequestEvent::LoggedIn);
    assert_eq!(state, RequestState::SentAgain);
    assert!(matches!(action, RequestAction::Send));
    let (over, action) = next_step(state, failed(true));
    assert_eq!(over, RequestState::Over);
    assert!(matches!(action, RequestAction::Fail { error } if error == "why"));
    let (over, action) = next_step(state, RequestEvent::Answered { data: "1".to_string() });
    assert_eq!(over, RequestState::Over);
    assert!(matches!(action, RequestAction::Return { data } if data == "1"));
}

#[test]
fn a_request_ends() {
    let (state, action) =
        next_step(RequestState::Sent, RequestEvent::Answered { data: "{}".to_string() });
    assert_eq!(state, RequestState::Over);
    assert!(matches!(action, RequestAction::Return { data } if data == "{}"));
    let (state, action) = next_step(RequestState::Sent, failed(false));
    assert_eq!(state, RequestState::Over);
    assert!(matches!(action, RequestAction::Fail { error } if error == "why"));
    let (state, action) = next_step(
        RequestState::LoggingIn,
        RequestEvent::LoginFailed { error: "no".to_string() },
    );
    assert_eq!(state, RequestState::Over);
    assert!(matches!(action, RequestAction::Fail { error } if error == "no"));
}

#[test]
fn discovery_asks_three_forms() {
    let all = discovery_requests();
    assert_eq!(all.len(), 3);
    assert_eq!(all[0].0, "owner_list");
    assert_eq!(all[1].1, "admin/smart_network?form=patrol_devices");
    assert_eq!(all[2].2, "operation=read");
}
