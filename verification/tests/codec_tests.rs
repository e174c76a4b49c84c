use password_manager::codec::{parse_entries, render_entries, str_eq};
use password_manager::password::PasswordEntry;

#[test]
fn render_one_entry_is_one_line() {
    let es = vec![PasswordEntry::new(
        "github".to_string(),
        "johndoe".to_string(),
        "password123".to_string(),
    )];
    assert_eq!(render_entries(&es), "github johndoe password123\n");
}

#[test]
fn render_empty_is_empty() {
    let es: Vec<PasswordEntry> = vec![];
    assert_eq!(render_entries(&es), "");
}

#[test]
fn parse_round_trips_rendered_content() {
    let es = vec![
        PasswordEntry::new("github".to_string(), "alice".to_string(), "p1".to_string()),
        PasswordEntry::new("mail".to_string(), "bob".to_string(), "p2".to_string()),
    ];
    let content = render_entries(&es);
    let parsed = parse_entries(&content).unwrap();
    assert_eq!(parsed.len(), 2);
    assert_eq!(parsed[0], es[0]);
    assert_eq!(parsed[1], es[1]);
}

#[test]
fn parse_empty_content_gives_no_entries() {
    let parsed = parse_entries("").unwrap();
    assert_eq!(parsed.len(), 0);
}

#[test]
fn parse_allows_spaces_in_passwords() {
    let parsed = parse_entries("github alice a pass with spaces\n").unwrap();
    assert_eq!(parsed.len(), 1);
    assert_eq!(parsed[0].service, "github");
    assert_eq!(parsed[0].username, "alice");
    assert_eq!(parsed[0].password, "a pass with spaces");
}

#[test]
fn parse_rejects_unclosed_last_line() {
    assert!(parse_entries("github alice p1").is_none());
}

#[test]
fn parse_rejects_line_with_too_few_fields() {
    assert!(parse_entries("github\n").is_none());
    assert!(parse_entries("github alice\n").is_none());
    assert!(parse_entries("github alice p1\nbroken\n").is_none());
}

#[test]
fn str_eq_compares_by_characters() {
    assert!(str_eq("", ""));
    assert!(str_eq("abc", "abc"));
    assert!(!str_eq("abc", "abd"));
    assert!(!str_eq("abc", "ab"));
    assert!(str_eq("naïve", "naïve"));
}
