use password_manager::cli::{
    parse_add_choice, parse_command, parse_update_choice, AddChoice, Command, UpdateChoice,
};
use password_manager::password::Password;

#[test]
fn commands_by_digit_and_name() {
    assert_eq!(parse_command("1"), Command::AddPassword);
    assert_eq!(parse_command("add"), Command::AddPassword);
    assert_eq!(parse_command("2"), Command::GetPassword);
    assert_eq!(parse_command("get"), Command::GetPassword);
    assert_eq!(parse_command("3"), Command::UpdateService);
    assert_eq!(parse_command("update"), Command::UpdateService);
    assert_eq!(parse_command("delete"), Command::Invalid);
    assert_eq!(parse_command(""), Command::Invalid);
}

#[test]
fn add_choices_by_digit_and_name() {
    assert_eq!(parse_add_choice("1"), AddChoice::Generate);
    assert_eq!(parse_add_choice("generate"), AddChoice::Generate);
    assert_eq!(parse_add_choice("2"), AddChoice::Enter);
    assert_eq!(parse_add_choice("enter"), AddChoice::Enter);
    assert_eq!(parse_add_choice("3"), AddChoice::Invalid);
}

#[test]
fn update_choices_by_digit_and_name() {
    assert_eq!(parse_update_choice("1"), UpdateChoice::Username);
    assert_eq!(parse_update_choice("username"), UpdateChoice::Username);
    assert_eq!(parse_update_choice("2"), UpdateChoice::Password);
    assert_eq!(parse_update_choice("password"), UpdateChoice::Password);
    assert_eq!(parse_update_choice("x"), UpdateChoice::Invalid);
}

#[test]
fn generated_passwords_are_thirty_alphanumeric_characters() {
    let p = Password::generate();
    assert_eq!(p.chars().count(), 30);
    assert!(p.chars().all(|c| c.is_ascii_alphanumeric()));

    let q = Password::generate();
    assert_eq!(q.chars().count(), 30);
}
