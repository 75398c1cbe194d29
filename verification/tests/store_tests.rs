use mail_app::{LoginError, MailApp, RegisterError, SessionError};

#[test]
fn seeded_accounts_can_login() {
    let mut app = MailApp::new();
    assert_eq!(app.users.len(), 2);
    assert!(app.login("user1".to_string(), "1234".to_string()).is_ok());
    assert!(app.login("user2".to_string(), "1234".to_string()).is_ok());
}

#[test]
fn register_then_register_again_fails() {
    let mut app = MailApp::new();
    assert!(app.register("alice".to_string(), "pw".to_string()).is_ok());
    let count = app.users.len();
    let r = app.register("alice".to_string(), "other".to_string());
    assert_eq!(r, Err(RegisterError::UserAlreadyExists));
    assert_eq!(app.users.len(), count);
}

#[test]
fn login_after_register_succeeds_with_fresh_id() {
    let mut app = MailApp::new();
    app.register("bob".to_string(), "secret".to_string()).unwrap();
    let s1 = app.login("bob".to_string(), "secret".to_string()).unwrap();
    let s2 = app.login("bob".to_string(), "secret".to_string()).unwrap();
    assert_ne!(s1, s2);
    assert_eq!(app.sessions.len(), 2);
    for user in &app.users {
        assert_ne!(user.id, s1);
        assert_ne!(user.id, s2);
    }
}

#[test]
fn login_wrong_password_fails() {
    let mut app = MailApp::new();
    let r = app.login("user1".to_string(), "wrong".to_string());
    assert_eq!(r, Err(LoginError::WrongPassword));
    assert_eq!(app.sessions.len(), 0);
}

#[test]
fn login_unknown_user_fails() {
    let mut app = MailApp::new();
    let r = app.login("nobody".to_string(), "1234".to_string());
    assert_eq!(r, Err(LoginError::UserDoesntExist));
    assert_eq!(app.sessions.len(), 0);
}

#[test]
fn written_mail_is_listed_then_read_and_leaves_unread() {
    let mut app = MailApp::new();
    let s1 = app.login("user1".to_string(), "1234".to_string()).unwrap();
    let s2 = app.login("user2".to_string(), "1234".to_string()).unwrap();
    app.write_mail(
        s1,
        "user2".to_string(),
        "hello".to_string(),
        "how are you".to_string(),
    )
    .unwrap();
    let all = app.list_mails(s2).unwrap();
    assert_eq!(all.len(), 1);
    let id = all[0];
    let unread = app.list_unread_mails(s2).unwrap();
    assert!(unread.contains(&id));
    let body = app.read_mail(id);
    assert_eq!(body, Some("how are you".to_string()));
    let unread_after = app.list_unread_mails(s2).unwrap();
    assert!(!unread_after.contains(&id));
    let all_after = app.list_mails(s2).unwrap();
    assert!(all_after.contains(&id));
}

#[test]
fn write_to_unknown_recipient_creates_no_mail() {
    let mut app = MailApp::new();
    let s1 = app.login("user1".to_string(), "1234".to_string()).unwrap();
    let before = app.mails.len();
    app.write_mail(
        s1,
        "nobody".to_string(),
        "void".to_string(),
        "lost".to_string(),
    )
    .unwrap();
    assert_eq!(app.mails.len(), before);
}

#[test]
fn write_with_dead_session_is_an_error() {
    let mut app = MailApp::new();
    let s1 = app.login("user1".to_string(), "1234".to_string()).unwrap();
    app.logout(s1).unwrap();
    let r = app.write_mail(
        s1,
        "user2".to_string(),
        "s".to_string(),
        "b".to_string(),
    );
    assert_eq!(r, Err(SessionError::SessionNotFound));
}

#[test]
fn mail_info_resolves_sender_and_keeps_read_state() {
    let mut app = MailApp::new();
    let s1 = app.login("user1".to_string(), "1234".to_string()).unwrap();
    let s2 = app.login("user2".to_string(), "1234".to_string()).unwrap();
    app.write_mail(
        s1,
        "user2".to_string(),
        "greetings".to_string(),
        "body text".to_string(),
    )
    .unwrap();
    let id = app.list_mails(s2).unwrap()[0];
    let info = app.mail_info(id).expect("mail should exist");
    assert_eq!(info.id, id);
    assert_eq!(info.sender, "user1".to_string());
    assert_eq!(info.subject, "greetings".to_string());
    // mail_info must not mark anything read
    assert!(app.list_unread_mails(s2).unwrap().contains(&id));
}

#[test]
fn mail_info_on_unknown_id_is_none() {
    let app = MailApp::new();
    assert!(app.mail_info(12345).is_none());
}

#[test]
fn read_mail_on_unknown_id_is_none_and_mutates_nothing() {
    let mut app = MailApp::new();
    let s1 = app.login("user1".to_string(), "1234".to_string()).unwrap();
    let s2 = app.login("user2".to_string(), "1234".to_string()).unwrap();
    app.write_mail(s1, "user2".to_string(), "s".to_string(), "b".to_string())
        .unwrap();
    let id = app.list_mails(s2).unwrap()[0];
    let users = app.users.len();
    let sessions = app.sessions.len();
    let mails = app.mails.len();
    let missing = id.wrapping_add(1);
    assert_eq!(app.read_mail(missing), None);
    assert_eq!(app.users.len(), users);
    assert_eq!(app.sessions.len(), sessions);
    assert_eq!(app.mails.len(), mails);
    assert!(app.list_unread_mails(s2).unwrap().contains(&id));
}

#[test]
fn read_mail_twice_returns_same_body_and_stays_read() {
    let mut app = MailApp::new();
    let s1 = app.login("user1".to_string(), "1234".to_string()).unwrap();
    let s2 = app.login("user2".to_string(), "1234".to_string()).unwrap();
    app.write_mail(
        s1,
        "user2".to_string(),
        "once".to_string(),
        "twice".to_string(),
    )
    .unwrap();
    let id = app.list_mails(s2).unwrap()[0];
    let first = app.read_mail(id);
    let second = app.read_mail(id);
    assert_eq!(first, Some("twice".to_string()));
    assert_eq!(second, Some("twice".to_string()));
    assert!(!app.list_unread_mails(s2).unwrap().contains(&id));
    assert!(app.mails.iter().find(|m| m.id == id).unwrap().is_read);
}

#[test]
fn logout_removes_only_that_session() {
    let mut app = MailApp::new();
    let s1 = app.login("user1".to_string(), "1234".to_string()).unwrap();
    let s2 = app.login("user1".to_string(), "1234".to_string()).unwrap();
    assert_eq!(app.logout(s1), Ok(()));
    assert_eq!(app.sessions.len(), 1);
    assert_eq!(app.logout(s1), Err(SessionError::SessionNotFound));
    assert!(app.list_mails(s2).is_ok());
    assert_eq!(app.list_mails(s1), Err(SessionError::SessionNotFound));
}

#[test]
fn every_account_can_read_any_mail_it_knows() {
    // reading is gated on existence only, mirroring the modelled behaviour
    let mut app = MailApp::new();
    let s1 = app.login("user1".to_string(), "1234".to_string()).unwrap();
    let s2 = app.login("user2".to_string(), "1234".to_string()).unwrap();
    app.write_mail(s1, "user2".to_string(), "s".to_string(), "b".to_string())
        .unwrap();
    let id = app.list_mails(s2).unwrap()[0];
    // user1's session holder can read the mail addressed to user2
    assert_eq!(app.read_mail(id), Some("b".to_string()));
}

#[test]
fn usernames_are_case_sensitive() {
    let mut app = MailApp::new();
    assert!(app.register("Carol".to_string(), "pw".to_string()).is_ok());
    assert!(app.register("carol".to_string(), "pw".to_string()).is_ok());
    assert_eq!(
        app.login("CAROL".to_string(), "pw".to_string()),
        Err(LoginError::UserDoesntExist)
    );
    assert!(app.login("Carol".to_string(), "pw".to_string()).is_ok());
}

#[test]
fn empty_username_is_an_ordinary_name() {
    let mut app = MailApp::new();
    assert!(app.register(String::new(), "pw".to_string()).is_ok());
    assert_eq!(
        app.register(String::new(), "other".to_string()),
        Err(RegisterError::UserAlreadyExists)
    );
    assert!(app.login(String::new(), "pw".to_string()).is_ok());
}
