use maze_wars::lobby::{resolve_address, validate_name, Field, LobbyForm};

#[test]
fn lobby_opens_with_default_address_and_name_focus() {
    let f = LobbyForm::new();
    assert_eq!(f.ip, "127.0.0.1:7878");
    assert_eq!(f.name, "");
    assert_eq!(f.focused, Field::Name);
    assert!(!f.show_ip_error && !f.show_name_error);
    assert_eq!(f.error_message(), None);
}

#[test]
fn typing_goes_to_the_focused_field() {
    let mut f = LobbyForm::new();
    for c in "Bob".chars() {
        f.type_char(c);
    }
    f.type_char('\n');
    f.type_char('\u{7f}');
    assert_eq!(f.name, "Bob");
    f.toggle_focus();
    assert_eq!(f.focused, Field::Ip);
    f.type_char('9');
    assert_eq!(f.ip, "127.0.0.1:78789");
    f.delete_char();
    f.delete_char();
    assert_eq!(f.ip, "127.0.0.1:787");
    f.toggle_focus();
    assert_eq!(f.focused, Field::Name);
}

#[test]
fn deleting_from_an_empty_field_keeps_it_empty() {
    let mut f = LobbyForm::new();
    f.delete_char();
    assert_eq!(f.name, "");
    f.type_char('é');
    assert_eq!(f.name, "é");
    f.delete_char();
    assert_eq!(f.name, "");
}

#[test]
fn address_text_rules() {
    assert_eq!(resolve_address(""), "127.0.0.1:7878");
    assert_eq!(resolve_address("   "), "127.0.0.1:7878");
    assert_eq!(resolve_address(" 10.0.0.5 "), "10.0.0.5:7878");
    assert_eq!(resolve_address("10.0.0.5:9000"), "10.0.0.5:9000");
    let mut f = LobbyForm::new();
    f.focus(Field::Ip);
    for _ in 0..20 {
        f.delete_char();
    }
    for c in "192.168.1.2".chars() {
        f.type_char(c);
    }
    assert_eq!(f.address_text(), "192.168.1.2:7878");
}

#[test]
fn name_rules() {
    assert_eq!(validate_name("  Ann  "), Some("Ann".to_string()));
    assert_eq!(validate_name("Al"), None);
    assert_eq!(validate_name("   "), None);
    // Three bytes of UTF-8 are enough, however few characters.
    assert_eq!(validate_name("é1"), Some("é1".to_string()));
}

#[test]
fn refused_start_shows_the_right_error() {
    let mut f = LobbyForm::new();
    assert_eq!(f.submit_name(), None);
    assert!(f.show_name_error);
    assert_eq!(f.focused, Field::Name);
    assert_eq!(f.error_message(), Some("Please enter your name to continue!"));
    f.type_char('A');
    assert!(!f.show_name_error);
    assert_eq!(f.submit_name(), None);
    assert_eq!(f.error_message(), Some("Name must be more than 2 characters!"));
    f.reject_address();
    assert_eq!(f.focused, Field::Ip);
    assert_eq!(f.error_message(), Some("Please enter a valid IP!"));
    f.expire_errors();
    assert_eq!(f.error_message(), None);
    f.focus(Field::Name);
    f.type_char('b');
    f.type_char('c');
    assert_eq!(f.submit_name(), Some("Abc".to_string()));
    assert!(!f.show_name_error);
}

#[test]
fn unicode_white_space_is_trimmed() {
    assert_eq!(validate_name("\u{3000}Ann\u{2003}\t"), Some("Ann".to_string()));
    assert_eq!(resolve_address("\u{a0}10.0.0.7\n"), "10.0.0.7:7878");
}
