use lansight::auth::{
    clear_cookie_header, cookie_value, ct_eq, login_page, login_submit, login_with_token, logout,
    new_token, require_auth, set_cookie_header, token_from, token_of, AuthConfig, Access, Sessions,
};
use lansight::random::NoRandom;

fn guarded() -> AuthConfig {
    AuthConfig::from_settings(Some("rahasia".to_string()), None)
}

#[test]
fn settings_from_environment() {
    assert!(!AuthConfig::from_settings(None, None).enabled());
    assert!(!AuthConfig::from_settings(Some(String::new()), None).enabled());
    assert!(guarded().enabled());
    for (value, secure) in [("1", true), ("TRUE", true), ("true", true), ("0", false), ("yes", false)] {
        let auth = AuthConfig::from_settings(None, Some(value.to_string()));
        assert_eq!(auth.cookie_secure, secure);
    }
    assert!(!AuthConfig::from_settings(None, None).cookie_secure);
}

#[test]
fn compares_all_bytes() {
    assert!(ct_eq(b"", b""));
    assert!(ct_eq(b"secret", b"secret"));
    assert!(!ct_eq(b"secret", b"secreT"));
    assert!(!ct_eq(b"Secret", b"secret"));
    assert!(!ct_eq(b"secret", b"secrets"));
}

#[test]
fn tokens_are_random_hex() {
    assert_eq!(token_of(&[0, 1, 0xab, 0xff]), "0001abff");
    assert_eq!(token_from(Ok(vec![0x10, 2])), Ok("1002".to_string()));
    let none = NoRandom { why: "broken".to_string() };
    assert_eq!(token_from(Err(none.clone())), Err(none));
    let a = new_token().unwrap();
    let b = new_token().unwrap();
    assert_eq!(a.len(), 64);
    assert_ne!(a, b);
}

#[test]
fn cookies_are_found() {
    let name = "lansight_session";
    assert_eq!(cookie_value(None, name), None);
    assert_eq!(cookie_value(Some(""), name), None);
    assert_eq!(cookie_value(Some("lansight_session=abc"), name).as_deref(), Some("abc"));
    assert_eq!(cookie_value(Some("a=1;  lansight_session=x=y ; b=2"), name).as_deref(), Some("x=y"));
    assert_eq!(cookie_value(Some("lansight_session_old=1; lansight_session=2"), name).as_deref(), Some("2"));
    assert_eq!(cookie_value(Some("lansight_session=1; lansight_session=2"), name).as_deref(), Some("1"));
    assert_eq!(cookie_value(Some("lansight_session =1"), name), None);
    assert_eq!(cookie_value(Some("lansight_session="), name).as_deref(), Some(""));
}

#[test]
fn cookie_headers() {
    assert_eq!(
        set_cookie_header("abc", false),
        "lansight_session=abc; HttpOnly; SameSite=Lax; Path=/; Max-Age=2592000"
    );
    assert_eq!(
        set_cookie_header("abc", true),
        "lansight_session=abc; HttpOnly; SameSite=Lax; Path=/; Max-Age=2592000; Secure"
    );
    assert_eq!(
        clear_cookie_header(false),
        "lansight_session=; HttpOnly; SameSite=Lax; Path=/; Max-Age=0"
    );
    assert_eq!(
        clear_cookie_header(true),
        "lansight_session=; HttpOnly; SameSite=Lax; Path=/; Max-Age=0; Secure"
    );
}

#[test]
fn without_password_all_pass() {
    let auth = AuthConfig::from_settings(None, None);
    let mut sessions = Sessions::new();
    assert_eq!(require_auth(&auth, &sessions, None, "/api/devices"), Access::Pass);
    assert!(!login_page(&auth, &sessions, None));
    let reply = login_submit(&auth, &mut sessions, "anything").unwrap();
    assert_eq!(reply.location, "/");
    assert_eq!(reply.set_cookie, None);
    assert_eq!(reply.delay_ms, 0);
}

#[test]
fn without_session_none_pass() {
    let auth = guarded();
    let sessions = Sessions::new();
    assert_eq!(require_auth(&auth, &sessions, None, "/"), Access::ToLogin);
    assert_eq!(require_auth(&auth, &sessions, None, "/api/devices"), Access::Unauthorized);
    assert_eq!(require_auth(&auth, &sessions, Some("lansight_session=made-up"), "/"), Access::ToLogin);
    assert!(login_page(&auth, &sessions, None));
}

#[test]
fn session_from_login_to_logout() {
    let auth = guarded();
    let mut sessions = Sessions::new();
    let reply = login_submit(&auth, &mut sessions, "rahasia").unwrap();
    assert_eq!(reply.location, "/");
    let header = reply.set_cookie.unwrap();
    let cookie = header.split(';').next().unwrap().to_string();
    assert_eq!(cookie.len(), "lansight_session=".len() + 64);
    assert_eq!(require_auth(&auth, &sessions, Some(&cookie), "/"), Access::Pass);
    assert_eq!(require_auth(&auth, &sessions, Some(&cookie), "/api/label"), Access::Pass);
    assert!(!login_page(&auth, &sessions, Some(&cookie)));

    let bye = logout(&auth, &mut sessions, Some(&cookie));
    assert_eq!(bye.location, "/login");
    assert_eq!(bye.set_cookie.as_deref(), Some("lansight_session=; HttpOnly; SameSite=Lax; Path=/; Max-Age=0"));
    assert_eq!(require_auth(&auth, &sessions, Some(&cookie), "/"), Access::ToLogin);
}

#[test]
fn wrong_password_is_sent_back() {
    let auth = guarded();
    let mut sessions = Sessions::new();
    let reply = login_submit(&auth, &mut sessions, "Rahasia").unwrap();
    assert_eq!(reply.location, "/login?e=1");
    assert_eq!(reply.set_cookie, None);
    assert_eq!(reply.delay_ms, 500);
    let reply = login_with_token(&auth, &mut sessions, "", "token".to_string());
    assert_eq!(reply.location, "/login?e=1");
    assert_eq!(require_auth(&auth, &sessions, Some("lansight_session=token"), "/"), Access::ToLogin);
}

#[test]
fn logout_closes_one_session() {
    let auth = guarded();
    let mut sessions = Sessions::new();
    login_with_token(&auth, &mut sessions, "rahasia", "one".to_string());
    login_with_token(&auth, &mut sessions, "rahasia", "two".to_string());
    logout(&auth, &mut sessions, Some("lansight_session=one"));
    logout(&auth, &mut sessions, None);
    assert_eq!(require_auth(&auth, &sessions, Some("lansight_session=one"), "/x"), Access::ToLogin);
    assert_eq!(require_auth(&auth, &sessions, Some("lansight_session=two"), "/x"), Access::Pass);
}
