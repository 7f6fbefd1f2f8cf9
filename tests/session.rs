use ircd_core::client_commands::{ClientCommand, Failure, User as UserLine};
use ircd_core::session::{Handshake, LineOutcome, Session, SessionError, User};

#[test]
fn registers_nick_then_user() {
    let mut s = Session::new("10.0.0.1".to_string(), 512);
    let r = s.receive(b"NICK alice\r\n").unwrap();
    assert_eq!(r.outcomes.len(), 1);
    assert!(r.registered.is_none());
    assert!(!s.is_registered());
    let r = s.receive(b"USER al 0 * :Alice A\r\n").unwrap();
    let u = r.registered.unwrap();
    assert_eq!(u.nickname, "alice");
    assert_eq!(u.username, "al");
    assert_eq!(u.hostname, "10.0.0.1");
    assert_eq!(u.host_mask(), "alice!al@10.0.0.1");
    assert!(s.is_registered());
    assert_eq!(s.close(), Ok(()));
}

#[test]
fn registers_user_then_nick_once() {
    let mut s = Session::new("h".to_string(), 512);
    let r = s.receive(b"USER u 0 * :x\nNICK n\nNICK m\nUSER v 0 * :y\n").unwrap();
    assert_eq!(r.outcomes.len(), 4);
    let u = r.registered.unwrap();
    assert_eq!(u.nickname, "n");
    assert_eq!(u.username, "u");
    let r = s.receive(b"NICK again\nUSER again 0 * :z\n").unwrap();
    assert!(r.registered.is_none());
}

#[test]
fn malformed_line_between_good_lines() {
    let mut s = Session::new("h".to_string(), 512);
    let r = s.receive(b"NICK a\r\nBOGUS line\r\nUSER b 0 * :c\r\n").unwrap();
    assert_eq!(r.outcomes.len(), 3);
    assert!(matches!(&r.outcomes[0], LineOutcome::Parsed(ClientCommand::Nick(n, 0)) if n == "a"));
    assert!(matches!(&r.outcomes[1], LineOutcome::Malformed(e) if e.reason == Failure::UnknownVerb));
    assert!(matches!(&r.outcomes[2], LineOutcome::Parsed(ClientCommand::User(u)) if u.user == "b" && u.real_name == "c"));
    assert!(r.registered.is_some());
}

#[test]
fn invalid_utf8_is_not_text() {
    let mut s = Session::new("h".to_string(), 512);
    let r = s.receive(b"\xff\xfe\r\nNICK a\r\n").unwrap();
    assert!(matches!(r.outcomes[0], LineOutcome::NotText));
    assert!(matches!(&r.outcomes[1], LineOutcome::Parsed(ClientCommand::Nick(_, _))));
}

#[test]
fn line_too_long() {
    let mut s = Session::new("h".to_string(), 4);
    assert!(s.receive(b"NICK").is_ok());
    assert_eq!(s.receive(b"x").err(), Some(SessionError::LineTooLong));
}

#[test]
fn close_before_registration() {
    let mut s = Session::new("h".to_string(), 512);
    s.receive(b"NICK a\r\n").unwrap();
    assert_eq!(s.close(), Err(SessionError::HandshakeIncomplete));
}

#[test]
fn handshake_ignores_other_commands() {
    let mut h = Handshake::new("host".to_string());
    assert!(h.apply(&ClientCommand::Ping("t".to_string())).is_none());
    assert!(h.apply(&ClientCommand::Cap("LS".to_string())).is_none());
    assert!(h.apply(&ClientCommand::Nick("n".to_string(), 0)).is_none());
    assert!(!h.is_registered());
    let u = h.apply(&user_line("u")).unwrap();
    assert_eq!(u.host_mask(), "n!u@host");
    assert!(h.apply(&user_line("w")).is_none());
}

fn user_line(name: &str) -> ClientCommand {
    ClientCommand::User(UserLine { user: name.to_string(), mode: 0, real_name: "r".to_string() })
}

#[test]
fn host_mask_format() {
    let u = User { nickname: "n".to_string(), username: "u".to_string(), hostname: "::1".to_string() };
    assert_eq!(u.host_mask(), "n!u@::1");
}

#[test]
fn registration_across_chunks() {
    let mut s = Session::new("h".to_string(), 512);
    let mut registered = None;
    for chunk in [&b"NICK ab"[..], &b"c\r\nUSER u 0 "[..], &b"* :r\r\n"[..]] {
        let r = s.receive(chunk).unwrap();
        if r.registered.is_some() {
            assert!(registered.is_none());
            registered = r.registered;
        }
    }
    let u = registered.unwrap();
    assert_eq!(u.nickname, "abc");
    assert_eq!(u.username, "u");
    assert_eq!(s.pending_len(), 0);
}

#[test]
fn ping_token_reaches_the_session() {
    let mut s = Session::new("h".to_string(), 512);
    let r = s.receive(b"PING tok\r\n").unwrap();
    assert!(matches!(&r.outcomes[0], LineOutcome::Parsed(ClientCommand::Ping(t)) if t == "tok"));
}

#[test]
fn later_nick_does_not_change_the_identity() {
    let mut s = Session::new("h".to_string(), 512);
    let r = s.receive(b"NICK a\r\nUSER u 0 * :r\r\nNICK b\r\nUSER v 0 * :s\r\n").unwrap();
    let u = r.registered.unwrap();
    assert_eq!(u.nickname, "a");
    assert_eq!(u.username, "u");
    assert_eq!(r.outcomes.len(), 4);
}
