//! Account and admin-file records, as the surrounding service stores them.
//! Only plain data and the one derived attribute live here; persistence and
//! password handling belong to the caller.

use vstd::prelude::*;

verus! {

/// The ASCII upper-case form of a character; anything but a lower-case
/// ASCII letter is left alone.
pub open spec fn spec_ascii_upper(c: char) -> char {
    if c == 'a' {
        'A'
    } else if c == 'b' {
        'B'
    } else if c == 'c' {
        'C'
    } else if c == 'd' {
        'D'
    } else if c == 'e' {
        'E'
    } else if c == 'f' {
        'F'
    } else if c == 'g' {
        'G'
    } else if c == 'h' {
        'H'
    } else if c == 'i' {
        'I'
    } else if c == 'j' {
        'J'
    } else if c == 'k' {
        'K'
    } else if c == 'l' {
        'L'
    } else if c == 'm' {
        'M'
    } else if c == 'n' {
        'N'
    } else if c == 'o' {
        'O'
    } else if c == 'p' {
        'P'
    } else if c == 'q' {
        'Q'
    } else if c == 'r' {
        'R'
    } else if c == 's' {
        'S'
    } else if c == 't' {
        'T'
    } else if c == 'u' {
        'U'
    } else if c == 'v' {
        'V'
    } else if c == 'w' {
        'W'
    } else if c == 'x' {
        'X'
    } else if c == 'y' {
        'Y'
    } else if c == 'z' {
        'Z'
    } else {
        c
    }
}

/// The ASCII upper-case form of a character.
pub fn ascii_upper(c: char) -> (r: char)
    ensures
        r == spec_ascii_upper(c),
{
    if c == 'a' {
        'A'
    } else if c == 'b' {
        'B'
    } else if c == 'c' {
        'C'
    } else if c == 'd' {
        'D'
    } else if c == 'e' {
        'E'
    } else if c == 'f' {
        'F'
    } else if c == 'g' {
        'G'
    } else if c == 'h' {
        'H'
    } else if c == 'i' {
        'I'
    } else if c == 'j' {
        'J'
    } else if c == 'k' {
        'K'
    } else if c == 'l' {
        'L'
    } else if c == 'm' {
        'M'
    } else if c == 'n' {
        'N'
    } else if c == 'o' {
        'O'
    } else if c == 'p' {
        'P'
    } else if c == 'q' {
        'Q'
    } else if c == 'r' {
        'R'
    } else if c == 's' {
        'S'
    } else if c == 't' {
        'T'
    } else if c == 'u' {
        'U'
    } else if c == 'v' {
        'V'
    } else if c == 'w' {
        'W'
    } else if c == 'x' {
        'X'
    } else if c == 'y' {
        'Y'
    } else if c == 'z' {
        'Z'
    } else {
        c
    }
}

/// A registered account.
#[derive(Clone, Debug)]
pub struct User {
    pub id: String,
    pub email: String,
    pub username: String,
}

impl User {
    /// The letter shown for the account: the first character of the user
    /// name, upper-cased when it is an ASCII letter, or a placeholder for an
    /// empty name.
    pub fn initial(&self) -> (r: char)
        ensures
            r == spec_initial(self.username@),
    {
        let name = self.username.as_str();
        if name.is_empty() {
            return '?';
        }
        let mut it = name.chars();
        match it.next() {
            Some(c) => ascii_upper(c),
            None => '?',
        }
    }
}

/// The derived account letter: the upper-cased first character of the name.
pub open spec fn spec_initial(name: Seq<char>) -> char {
    if name.len() == 0 {
        '?'
    } else {
        spec_ascii_upper(name.first())
    }
}

/// What a login form submits.
#[derive(Clone, Debug)]
pub struct LoginCredentials {
    pub email_or_username: String,
    pub password: String,
}

/// What a registration form submits.
#[derive(Clone, Debug)]
pub struct RegisterCredentials {
    pub email: String,
    pub username: String,
    pub password: String,
}

/// One stored admin file's metadata.
#[derive(Clone, Debug)]
pub struct AdminFile {
    pub id: String,
    pub filename: String,
    pub content_type: String,
    pub uploaded_by: String,
    pub uploaded_at: String,
}

/// One stored admin file with its encoded contents.
#[derive(Clone, Debug)]
pub struct AdminFileWithData {
    pub id: String,
    pub filename: String,
    pub content_type: String,
    pub data: String,
    pub uploaded_by: String,
    pub uploaded_at: String,
}

} // verus!
