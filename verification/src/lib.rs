//! A small credential manager library: named (service, username, password)
//! records kept in an in-memory index and mirrored to a line-oriented
//! persisted form.
//!
//! The persisted form is plain UTF-8 text, one record per line, the three
//! fields separated by single spaces (`service username password`). Embedded
//! whitespace is not escaped: a service or username containing a space or a
//! newline, or a password containing a newline, cannot be stored faithfully.
//! Content that does not parse under this format is rejected with an error
//! rather than silently discarded.

pub mod cli;
pub mod codec;
pub mod password;
pub mod store;
