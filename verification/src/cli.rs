//! The decisions of the interactive dialog, separated from the terminal:
//! which operation a typed command selects. The surrounding program reads
//! the input, calls these, and performs the chosen action.

use vstd::prelude::*;

use crate::codec::str_eq;

verus! {

/// The top-level commands of the dialog loop.
#[derive(Clone, Copy, PartialEq, Eq, Structural, Debug)]
pub enum Command {
    AddPassword,
    GetPassword,
    UpdateService,
    Invalid,
}

/// How a new password is to be obtained.
#[derive(Clone, Copy, PartialEq, Eq, Structural, Debug)]
pub enum AddChoice {
    Generate,
    Enter,
    Invalid,
}

/// Which field of a stored service is to be updated.
#[derive(Clone, Copy, PartialEq, Eq, Structural, Debug)]
pub enum UpdateChoice {
    Username,
    Password,
    Invalid,
}

/// The command selected by a line of input: a digit or the command's name.
pub open spec fn spec_parse_command(s: Seq<char>) -> Command {
    if s == "1"@ || s == "add"@ {
        Command::AddPassword
    } else if s == "2"@ || s == "get"@ {
        Command::GetPassword
    } else if s == "3"@ || s == "update"@ {
        Command::UpdateService
    } else {
        Command::Invalid
    }
}

pub fn parse_command(input: &str) -> (c: Command)
    ensures
        c == spec_parse_command(input@),
{
    if str_eq(input, "1") || str_eq(input, "add") {
        Command::AddPassword
    } else if str_eq(input, "2") || str_eq(input, "get") {
        Command::GetPassword
    } else if str_eq(input, "3") || str_eq(input, "update") {
        Command::UpdateService
    } else {
        Command::Invalid
    }
}

/// The choice selected when adding a password: generate one, or enter one.
pub open spec fn spec_parse_add_choice(s: Seq<char>) -> AddChoice {
    if s == "1"@ || s == "generate"@ {
        AddChoice::Generate
    } else if s == "2"@ || s == "enter"@ {
        AddChoice::Enter
    } else {
        AddChoice::Invalid
    }
}

pub fn parse_add_choice(input: &str) -> (c: AddChoice)
    ensures
        c == spec_parse_add_choice(input@),
{
    if str_eq(input, "1") || str_eq(input, "generate") {
        AddChoice::Generate
    } else if str_eq(input, "2") || str_eq(input, "enter") {
        AddChoice::Enter
    } else {
        AddChoice::Invalid
    }
}

/// The choice selected when updating a service: its username or its
/// password.
pub open spec fn spec_parse_update_choice(s: Seq<char>) -> UpdateChoice {
    if s == "1"@ || s == "username"@ {
        UpdateChoice::Username
    } else if s == "2"@ || s == "password"@ {
        UpdateChoice::Password
    } else {
        UpdateChoice::Invalid
    }
}

pub fn parse_update_choice(input: &str) -> (c: UpdateChoice)
    ensures
        c == spec_parse_update_choice(input@),
{
    if str_eq(input, "1") || str_eq(input, "username") {
        UpdateChoice::Username
    } else if str_eq(input, "2") || str_eq(input, "password") {
        UpdateChoice::Password
    } else {
        UpdateChoice::Invalid
    }
}

} // verus!
