use localserver::utils::cookie::{create_set_cookie_header, parse_cookies};
use localserver::utils::session::{session_token, SessionManager};

#[test]
fn cookies_are_split_and_trimmed() {
    let cookies = parse_cookies("session_id=abc123xyz; user=Alice");
    assert_eq!(cookies.len(), 2);
    assert_eq!(cookies.get("session_id").map(|s| s.as_str()), Some("abc123xyz"));
    assert_eq!(cookies.get("user").map(|s| s.as_str()), Some("Alice"));
}

#[test]
fn cookie_values_keep_later_equals_signs() {
    let cookies = parse_cookies("a=b=c;  flag ; x=1; x=2");
    assert_eq!(cookies.get("a").map(|s| s.as_str()), Some("b=c"));
    assert!(cookies.get("flag").is_none());
    assert_eq!(cookies.get("x").map(|s| s.as_str()), Some("2"));
    assert_eq!(cookies.len(), 2);
}

#[test]
fn empty_cookie_header_has_no_cookies() {
    assert_eq!(parse_cookies("").len(), 0);
    assert_eq!(parse_cookies(" ; ;").len(), 0);
    let c = parse_cookies("=v");
    assert_eq!(c.get("").map(|s| s.as_str()), Some("v"));
}

#[test]
fn set_cookie_header_format() {
    assert_eq!(
        create_set_cookie_header("session_id", "abc", Some(3600)),
        "Set-Cookie: session_id=abc; Path=/; HttpOnly; Max-Age=3600"
    );
    assert_eq!(create_set_cookie_header("a", "b", None), "Set-Cookie: a=b; Path=/; HttpOnly");
    assert_eq!(
        create_set_cookie_header("a", "b", Some(0)),
        "Set-Cookie: a=b; Path=/; HttpOnly; Max-Age=0"
    );
}

#[test]
fn session_token_mixes_seconds_into_high_bits() {
    assert_eq!(session_token(0), 0);
    assert_eq!(session_token(999_999_999), 999_999_999);
    assert_eq!(session_token(1_000_000_000), 1_000_000_000u128 ^ (1u128 << 64));
    assert_eq!(session_token(5_500_000_000), 5_500_000_000u128 ^ (5u128 << 64));
}

#[test]
fn created_session_is_found_until_it_expires() {
    let mut m = SessionManager::new(10);
    let id = m.create_session_at(1_000, 0xbeef);
    assert_eq!(id, "beef");
    let s = m.get_session_at("beef", 1_000 + 9_999_999_999).unwrap();
    assert_eq!(s.id, "beef");
    assert_eq!(s.expires_at, 1_000 + 9_999_999_999 + 10_000_000_000);
    assert!(m.get_session_at("beef", 1_000 + 9_999_999_999 + 10_000_000_000).is_none());
}

#[test]
fn expired_session_is_dropped() {
    let mut m = SessionManager::new(1);
    m.create_session_at(0, 1);
    assert!(m.get_session_at("1", 1_000_000_000).is_none());
    assert!(m.get_session_at("1", 0).is_none());
}

#[test]
fn destroyed_session_is_not_found() {
    let mut m = SessionManager::new(3600);
    let a = m.create_session_at(5, 0xa);
    let b = m.create_session_at(6, 0xb);
    m.destroy_session(&a);
    assert!(m.get_session_at(&a, 7).is_none());
    assert!(m.get_session_at(&b, 7).is_some());
    m.destroy_session("missing");
    assert!(m.get_session_at(&b, 8).is_some());
}

#[test]
fn an_identifier_in_use_is_not_given_again() {
    let mut m = SessionManager::new(1);
    assert_eq!(m.create_session_at(0, 7), "7");
    assert_eq!(m.create_session_at(500_000_000, 7), "8");
    assert_eq!(m.create_session_at(600_000_000, 7), "9");
    let s = m.get_session_at("7", 900_000_000).unwrap();
    assert_eq!(s.expires_at, 1_900_000_000);
    let last = m.create_session_at(0, u128::MAX);
    assert_eq!(last, "ffffffffffffffffffffffffffffffff");
    assert_eq!(m.create_session_at(0, u128::MAX), "0");
    // Sessions that have expired are dropped first, so their identifiers can
    // be given again.
    assert_eq!(m.create_session_at(5_000_000_000, 7), "7");
    assert!(m.get_session_at("8", 5_000_000_000).is_none());
    assert_eq!(m.create_session_at(5_000_000_000, 7), "8");
}

#[test]
fn fresh_sessions_are_created_from_the_clock() {
    let mut m = SessionManager::new(3600);
    let id = m.create_session();
    assert!(!id.is_empty());
    assert!(id.chars().all(|c| c.is_ascii_hexdigit() && !c.is_ascii_uppercase()));
    assert!(m.get_session(&id).is_some());
    m.destroy_session(&id);
    assert!(m.get_session(&id).is_none());
}

#[test]
fn session_data_starts_empty_and_keeps_what_is_written() {
    let mut m = SessionManager::new(60);
    let a = m.create_session_at(0, 0xa);
    let b = m.create_session_at(1, 0xb);
    {
        let s = m.get_session_at(&a, 2).unwrap();
        assert!(s.data.is_empty());
        s.data.insert("user".to_string(), "alice".to_string());
    }
    let s = m.get_session_at(&a, 3).unwrap();
    assert_eq!(s.data.get("user"), Some(&"alice".to_string()));
    let t = m.get_session_at(&b, 4).unwrap();
    assert!(t.data.is_empty());
}

#[test]
fn several_cookies_parse_back() {
    let c = parse_cookies("a=1; bb=two; c=x=y");
    assert_eq!(c.len(), 3);
    assert_eq!(c.get("a"), Some(&"1".to_string()));
    assert_eq!(c.get("bb"), Some(&"two".to_string()));
    assert_eq!(c.get("c"), Some(&"x=y".to_string()));
}

#[test]
fn a_repeated_token_after_expiry_gives_the_same_identifier() {
    let mut m = SessionManager::new(1);
    assert_eq!(m.create_session_at(0, 5), "5");
    assert_eq!(m.create_session_at(2_000_000_000, 5), "5");
    assert!(m.get_session_at("5", 2_000_000_001).is_some());
}
