use small_http::cookie::{cookie_value, parse_header, SetCookie};
use small_http::users::{
    random_base58, session_clear_cookie, session_id_from_cookies, session_set_cookie, SessionId,
    UserEntry, UserId, Users,
};

fn check_entry_saveload(entry: UserEntry) {
    let entry_string = entry.to_line();
    let parsed_entry: UserEntry = entry_string.parse().unwrap();
    assert_eq!(entry, parsed_entry);
}

#[test]
fn userentry_save_load() {
    let entry = UserEntry::new_user(Some("test".into()), "gen".into(), "password".into());
    check_entry_saveload(entry);

    let entry_no_email = UserEntry::new_user(None, "gen".into(), "password".into());
    check_entry_saveload(entry_no_email);

    let mut entry_with_sessions =
        UserEntry::new_user(Some("test".into()), "gen".into(), "password".into());
    entry_with_sessions.new_session();
    entry_with_sessions.new_session();
    check_entry_saveload(entry_with_sessions);
}

#[test]
fn new_user_and_sessions() {
    let mut entry = UserEntry::new_user(None, "gen".into(), "hunter2".into());
    assert_eq!(entry.id.as_str().len(), 6);
    assert!(entry.verify_password("hunter2"));
    assert!(!entry.verify_password("hunter3"));
    let session = entry.new_session();
    assert_eq!(session.sid.as_str().len(), 6);
    assert_eq!(session.stub.username, "gen");
    assert_eq!(session.stub.id, entry.id);
    let line = entry.to_line();
    assert!(line.ends_with(&format!("sessions={},", session.sid.as_str())));
}

#[test]
fn entry_line_format() {
    let parsed: UserEntry = "abc <me@x> gen $hash sessions=s1,s2,".parse().unwrap();
    assert_eq!(parsed.id.as_str(), "abc");
    assert_eq!(parsed.email, Some("me@x".to_string()));
    assert_eq!(parsed.username, "gen");
    assert_eq!(parsed.password_hash, "$hash");
    assert_eq!(parsed.to_line(), "abc <me@x> gen $hash sessions=s1,s2,");
    assert!("abc".parse::<UserEntry>().is_err());
    assert!("abc me gen h sessions=".parse::<UserEntry>().is_err());
    assert!("abc <> gen h".parse::<UserEntry>().is_err());
    assert!("abc <> gen h list=".parse::<UserEntry>().is_err());
}

#[test]
fn random_ids_use_base58() {
    let s = random_base58(40);
    assert_eq!(s.chars().count(), 40);
    assert!(s.chars().all(|c| "123456789ABCDEFGHJKLMNPQRSTUVWXYZabcdefghijkmnopqrstuvwxyz".contains(c)));
    assert_eq!(random_base58(0), "");
}

#[test]
fn session_cookies() {
    let sid = SessionId::new("abc123".to_string());
    assert_eq!(session_set_cookie(&sid), "sid=abc123; Max-Age=2592000; Secure; HttpOnly; Path=/");
    assert_eq!(session_clear_cookie(&sid), "sid=abc123; Max-Age=0; Secure; HttpOnly; Path=/");
    assert_eq!(UserId::new("u".to_string()).as_str(), "u");
}

#[test]
fn set_cookie_builder() {
    let c = SetCookie::new("k".to_string(), "v".to_string());
    assert_eq!(c.as_string(), "k=v; Secure; HttpOnly");
    let c = SetCookie::new("k".to_string(), "v".to_string())
        .secure(false)
        .httponly(false)
        .max_age(Some(60))
        .path(Some("/app".to_string()));
    assert_eq!(c.as_string(), "k=v; Max-Age=60; Path=/app");
}

#[test]
fn cookie_header_parsing() {
    let pairs = parse_header("sid=abc; theme = dark ;sid=def").unwrap();
    assert_eq!(pairs.len(), 3);
    assert_eq!(pairs[1], ("theme".to_string(), "dark".to_string()));
    assert_eq!(cookie_value(&pairs, "sid"), Some("def"));
    assert_eq!(cookie_value(&pairs, "theme"), Some("dark"));
    assert_eq!(cookie_value(&pairs, "none"), None);
    assert!(parse_header("novalue").is_err());
    assert!(parse_header("a=b;").is_err());
    assert_eq!(parse_header("a=b=c").unwrap()[0], ("a".to_string(), "b=c".to_string()));
}

#[test]
fn registry_login_and_logout() {
    let mut users = Users::new();
    let session = users.register(Some("a@b".into()), "alice".into(), "pw1".into());
    assert_eq!(session.stub.username, "alice");
    assert!(users.login("alice", "wrong").is_none());
    assert!(users.login("bob", "pw1").is_none());
    let second = users.login("alice", "pw1").unwrap();
    assert_eq!(second.stub.id, session.stub.id);
    assert!(users.authenticate("alice", "pw1").is_some());
    assert!(users.authenticate("alice", "nope").is_none());

    let found = users.session_by_id(second.sid.clone()).unwrap();
    assert_eq!(found.stub.username, "alice");
    assert_eq!(users.stub_by_session(&session.sid).unwrap().id, session.stub.id);
    assert_eq!(users.stub_by_uid(&session.stub.id).unwrap().username, "alice");
    assert_eq!(users.stub_by_username("alice").len(), 1);
    assert!(users.stub_by_username("carol").is_empty());

    let out = users.logout(&session.sid).unwrap();
    assert_eq!(out.username, "alice");
    assert!(users.stub_by_session(&session.sid).is_none());
    assert!(users.logout(&session.sid).is_none());
    assert!(users.session_by_id(second.sid.clone()).is_some());
}

#[test]
fn registry_save_and_load() {
    let mut users = Users::new();
    users.register(None, "gen".into(), "password".into());
    let text = users.save_text();
    assert!(text.ends_with('\n'));
    let mut loaded = Users::new();
    assert_eq!(loaded.load_text(&text), Ok(()));
    assert_eq!(loaded.save_text(), text);
    let mut other = Users::new();
    assert_eq!(other.load_text("not an entry\n"), Err(()));
    assert_eq!(other.save_text(), "");
    assert_eq!(other.load_text("u1 <> n h sessions=\r\nu2 <> m h sessions=s,\n"), Ok(()));
    assert_eq!(other.stub_by_username("m").len(), 1);
}

#[test]
fn session_id_from_cookie_header() {
    assert_eq!(
        session_id_from_cookies("theme=dark; sid=xyz").map(|s| s.as_str().to_string()),
        Some("xyz".to_string())
    );
    assert!(session_id_from_cookies("theme=dark").is_none());
    assert!(session_id_from_cookies("broken").is_none());
}

#[test]
fn base58_text_picks_alphabet_characters() {
    assert_eq!(small_http::users::base58_text(&vec![0, 8, 9, 57, 32]), "19AzZ".to_string());
    assert_eq!(small_http::users::base58_text(&vec![]), "");
}

#[test]
fn ids_from_strings() {
    let uid: UserId = String::from("abc").into();
    assert_eq!(uid.as_str(), "abc");
    let sid: SessionId = SessionId::from(String::from("s1"));
    assert_eq!(sid.as_str(), "s1");
}

#[test]
fn registry_stubs_carry_email() {
    let mut users = Users::new();
    let s = users.register(Some("m@x".into()), "ann".into(), "pw".into());
    users.register(None, "ann".into(), "pw2".into());
    let stubs = users.stub_by_username("ann");
    assert_eq!(stubs.len(), 2);
    assert_eq!(stubs[0].email, Some("m@x".to_string()));
    assert_eq!(stubs[1].email, None);
    assert_eq!(users.session_by_id(s.sid.clone()).unwrap().stub.email, Some("m@x".to_string()));
    assert_eq!(users.logout(&s.sid).unwrap().email, Some("m@x".to_string()));
}
