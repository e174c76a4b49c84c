//! The record value type: one (service, username, password) triple, plus
//! random password generation.

use vstd::prelude::*;

use rand::Rng;

verus! {

/// One stored credential record. The service name is the key under which the
/// record is filed; equality is structural over all three fields.
#[derive(Debug)]
pub struct PasswordEntry {
    pub service: String,
    pub username: String,
    pub password: String,
}

impl View for PasswordEntry {
    type V = (Seq<char>, Seq<char>, Seq<char>);

    open spec fn view(&self) -> Self::V {
        (self.service@, self.username@, self.password@)
    }
}

impl PasswordEntry {
    /// Pure value construction; no validation is performed, empty strings are
    /// accepted.
    pub fn new(service: String, username: String, password: String) -> (e: PasswordEntry)
        ensures
            e.service == service,
            e.username == username,
            e.password == password,
    {
        PasswordEntry { service, username, password }
    }
}

impl Clone for PasswordEntry {
    fn clone(&self) -> (e: Self)
        ensures
            e == *self,
    {
        PasswordEntry {
            service: self.service.clone(),
            username: self.username.clone(),
            password: self.password.clone(),
        }
    }
}

impl PartialEq for PasswordEntry {
    fn eq(&self, other: &Self) -> (r: bool) {
        self.service == other.service && self.username == other.username && self.password
            == other.password
    }
}

impl vstd::std_specs::cmp::PartialEqSpecImpl for PasswordEntry {
    open spec fn obeys_eq_spec() -> bool {
        true
    }

    open spec fn eq_spec(&self, other: &Self) -> bool {
        self@ == other@
    }
}

/// A plain collection of records, compared element by element.
#[derive(Debug)]
pub struct Passwords(pub Vec<PasswordEntry>);

impl Passwords {
    pub fn new() -> (p: Passwords)
        ensures
            p.0@ == Seq::<PasswordEntry>::empty(),
    {
        Passwords(Vec::new())
    }
}

impl PartialEq for Passwords {
    fn eq(&self, other: &Self) -> (r: bool) {
        let n = self.0.len();
        if n != other.0.len() {
            return false;
        }
        for i in 0..n
            invariant
                n == self.0@.len(),
                n == other.0@.len(),
                forall|j: int| 0 <= j < i ==> self.0@[j]@ == other.0@[j]@,
        {
            if !(self.0[i] == other.0[i]) {
                return false;
            }
        }
        true
    }
}

impl vstd::std_specs::cmp::PartialEqSpecImpl for Passwords {
    open spec fn obeys_eq_spec() -> bool {
        true
    }

    open spec fn eq_spec(&self, other: &Self) -> bool {
        self.0@.len() == other.0@.len() && (forall|j: int|
            0 <= j < self.0@.len() ==> self.0@[j]@ == other.0@[j]@)
    }
}

/// True of the characters that a generated password is drawn from.
pub open spec fn is_password_char(c: char) -> bool {
    ||| ('a' as u32) <= (c as u32) <= ('z' as u32)
    ||| ('A' as u32) <= (c as u32) <= ('Z' as u32)
    ||| ('0' as u32) <= (c as u32) <= ('9' as u32)
}

/// Marker type for random password generation.
pub struct Password();

impl Password {
    /// Relies on rand's `Alphanumeric` distribution, which samples bytes
    /// uniformly from a-z, A-Z and 0-9; thirty samples are taken, so the
    /// result is a thirty-character alphanumeric string. Nothing more is
    /// assumed: the characters themselves are random.
    #[verifier::external_body]
    pub fn generate() -> (r: String)
        ensures
            r@.len() == 30,
            forall|i: int| 0 <= i < r@.len() ==> is_password_char(#[trigger] r@[i]),
    {
        rand::thread_rng().sample_iter(&rand::distributions::Alphanumeric).take(30).map(
            char::from,
        ).collect()
    }
}

} // verus!
