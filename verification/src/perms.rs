//! Access permissions of a mapped region, written as four characters.

use crate::chars::{chars_of, string_of};
use std::str::FromStr;
use vstd::prelude::*;

verus! {

/// What a process may do with a mapped region.
#[derive(PartialEq, Eq, Clone, Copy, Debug, Structural)]
pub struct Perms {
    pub read: bool,
    pub write: bool,
    pub execute: bool,
    pub shared: bool,
}

/// The text was not four permission characters.
#[derive(Debug, Clone, PartialEq, Eq)]
pub struct ParsePermsError;

/// The flag that `c` stands for when `on` sets it and `off` clears it.
pub open spec fn flag_of(c: char, on: char, off: char) -> Option<bool> {
    if c == on {
        Some(true)
    } else if c == off {
        Some(false)
    } else {
        None
    }
}

/// The character that writes the flag `b`.
pub open spec fn flag_char(b: bool, on: char, off: char) -> char {
    if b {
        on
    } else {
        off
    }
}

impl Perms {
    /// The four characters that write these permissions.
    pub open spec fn encode(self) -> Seq<char> {
        seq![
            flag_char(self.read, 'r', '-'),
            flag_char(self.write, 'w', '-'),
            flag_char(self.execute, 'x', '-'),
            flag_char(self.shared, 's', 'p'),
        ]
    }

    /// The permissions that `s` writes, if it writes any.
    pub open spec fn decode(s: Seq<char>) -> Option<Perms> {
        if s.len() != 4 {
            None
        } else {
            match (
                flag_of(s[0], 'r', '-'),
                flag_of(s[1], 'w', '-'),
                flag_of(s[2], 'x', '-'),
                flag_of(s[3], 's', 'p'),
            ) {
                (Some(read), Some(write), Some(execute), Some(shared)) => Some(
                    Perms { read, write, execute, shared },
                ),
                _ => None,
            }
        }
    }

    /// Reads permissions from exactly four characters.
    pub fn parse_chars(s: &[char]) -> (r: Option<Perms>)
        ensures
            r == Perms::decode(s@),
    {
        if s.len() != 4 {
            return None;
        }
        let read = match read_flag(s[0], 'r', '-') {
            Some(b) => b,
            None => return None,
        };
        let write = match read_flag(s[1], 'w', '-') {
            Some(b) => b,
            None => return None,
        };
        let execute = match read_flag(s[2], 'x', '-') {
            Some(b) => b,
            None => return None,
        };
        let shared = match read_flag(s[3], 's', 'p') {
            Some(b) => b,
            None => return None,
        };
        Some(Perms { read, write, execute, shared })
    }

    /// Appends the four characters of these permissions to `out`.
    pub fn write_chars(&self, out: &mut Vec<char>)
        ensures
            final(out)@ == old(out)@ + self.encode(),
    {
        out.push(if self.read { 'r' } else { '-' });
        out.push(if self.write { 'w' } else { '-' });
        out.push(if self.execute { 'x' } else { '-' });
        out.push(if self.shared { 's' } else { 'p' });
    }

    /// The permissions as text, such as `r-xp`.
    pub fn to_string(&self) -> (s: String)
        ensures
            s@ == self.encode(),
    {
        let mut out: Vec<char> = Vec::new();
        self.write_chars(&mut out);
        string_of(out.as_slice())
    }
}

fn read_flag(c: char, on: char, off: char) -> (r: Option<bool>)
    ensures
        r == flag_of(c, on, off),
{
    if c == on {
        Some(true)
    } else if c == off {
        Some(false)
    } else {
        None
    }
}

impl FromStr for Perms {
    type Err = ParsePermsError;

    /// Reads permissions from text of exactly four characters.
    fn from_str(s: &str) -> (r: Result<Perms, ParsePermsError>)
        ensures
            r == match Perms::decode(s@) {
                Some(p) => Ok::<Perms, ParsePermsError>(p),
                None => Err(ParsePermsError),
            },
    {
        let chars = chars_of(s);
        match Perms::parse_chars(chars.as_slice()) {
            Some(p) => Ok(p),
            None => Err(ParsePermsError),
        }
    }
}

/// Writing permissions and reading them back gives the same permissions.
pub proof fn lemma_perms_round_trip(p: Perms)
    ensures
        Perms::decode(p.encode()) == Some(p),
{
}

/// Text of another length than four, or with a character at one of the
/// four places that does not stand for the flag of that place, reads as no
/// permissions.
pub proof fn lemma_perms_rejected(s: Seq<char>)
    requires
        s.len() != 4 || (s[0] != 'r' && s[0] != '-') || (s[1] != 'w' && s[1] != '-') || (s[2] != 'x'
            && s[2] != '-') || (s[3] != 's' && s[3] != 'p'),
    ensures
        Perms::decode(s) is None,
{
}

/// Text that reads as permissions is the text that those permissions write.
pub proof fn lemma_perms_text_unique(s: Seq<char>)
    requires
        Perms::decode(s) is Some,
    ensures
        Perms::decode(s)->0.encode() == s,
{
    assert(Perms::decode(s)->0.encode() =~= s);
}

} // verus!
