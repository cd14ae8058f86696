//! Names and small rules that the command surface shares with the store.
use vstd::prelude::*;
use crate::timestamp::{parse_timestamp, timestamp_of};

verus! {

/// The names of the subcommands.
pub struct MemoCommand;

impl MemoCommand {
    pub const ADD: &'static str = "add";
    pub const GET: &'static str = "get";
    pub const RM: &'static str = "rm";
    pub const LIST: &'static str = "ls";
    pub const SET: &'static str = "set";
    pub const COPY: &'static str = "cp";
}

/// The names of the arguments.
pub struct MemoArg;

impl MemoArg {
    pub const KEY: &'static str = "KEY";
    pub const VALUE: &'static str = "VALUE";
    pub const TTL: &'static str = "ttl";
}

/// Why a key is refused.
#[derive(Debug, Clone, Copy, PartialEq, Eq, Structural)]
pub enum KeyError {
    Empty,
    ContainsSpace,
    NoAlphabeticStart,
}

pub open spec fn is_ascii_alphabetic(c: char) -> bool {
    ('a' <= c && c <= 'z') || ('A' <= c && c <= 'Z')
}

/// What is wrong with a key, checked in this order; `None` for a valid key.
pub open spec fn key_problem(k: Seq<char>) -> Option<KeyError> {
    if k.len() == 0 {
        Some(KeyError::Empty)
    } else if k.contains(' ') {
        Some(KeyError::ContainsSpace)
    } else if !is_ascii_alphabetic(k[0]) {
        Some(KeyError::NoAlphabeticStart)
    } else {
        None
    }
}

/// Accepts a key that is non-empty, holds no space and starts with an ASCII
/// letter.
pub fn validate_key(key: &str) -> (r: Result<(), KeyError>)
    ensures
        r == match key_problem(key@) {
            Some(e) => Err::<(), KeyError>(e),
            None => Ok(()),
        },
{
    let n = key.unicode_len();
    if n == 0 {
        return Err(KeyError::Empty);
    }
    let mut i: usize = 0;
    while i < n
        invariant
            n == key@.len(),
            i <= n,
            forall|j: int| 0 <= j < i ==> key@[j] != ' ',
        decreases n - i,
    {
        if key.get_char(i) == ' ' {
            assert(key@.contains(' '));
            return Err(KeyError::ContainsSpace);
        }
        i = i + 1;
    }
    let c = key.get_char(0);
    if !(('a' <= c && c <= 'z') || ('A' <= c && c <= 'Z')) {
        return Err(KeyError::NoAlphabeticStart);
    }
    Ok(())
}

/// The column titles of a listing.
pub open spec fn title_row(ttl: bool, created: bool) -> Seq<Seq<char>> {
    seq!["Key"@, "Value"@] + (if created {
        seq!["Created"@]
    } else {
        Seq::empty()
    }) + (if ttl {
        seq!["TTL"@]
    } else {
        Seq::empty()
    })
}

/// The column titles of a listing: key and value, then the creation column
/// and the expiry column where asked for.
pub fn get_title(ttl: bool, created: bool) -> (r: Vec<String>)
    ensures
        r@.map_values(|s: String| s@) == title_row(ttl, created),
{
    let mut title: Vec<String> = Vec::new();
    title.push("Key".to_string());
    title.push("Value".to_string());
    if created {
        title.push("Created".to_string());
    }
    if ttl {
        title.push("TTL".to_string());
    }
    assert(title@.map_values(|s: String| s@) =~= title_row(ttl, created));
    title
}

/// Seconds left before an expiry: `None` without one; an expiry that does
/// not read as a timestamp counts as instant zero.
pub open spec fn seconds_left(ttl: Option<Seq<char>>, now: i64) -> Option<int> {
    match ttl {
        Some(t) => Some(
            match timestamp_of(t) {
                Some(x) => x - now,
                None => 0 - now,
            },
        ),
        None => None,
    }
}

/// Seconds left before the expiry `ttl`, seen at `now`.
pub fn remaining_ttl(ttl: &Option<String>, now: i64) -> (r: Option<i128>)
    ensures
        seconds_left(crate::memo::opt_view(*ttl), now) == match r {
            Some(x) => Some(x as int),
            None => None::<int>,
        },
{
    match ttl {
        Some(t) => {
            let x: i64 = match parse_timestamp(t.as_str()) {
                Some(x) => x,
                None => 0,
            };
            Some(x as i128 - now as i128)
        },
        None => None,
    }
}

} // verus!
