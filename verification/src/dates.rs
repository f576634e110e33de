//! The calendar date at the head of a record key.

use vstd::prelude::*;
use vstd::string::*;

verus! {

/// Number of characters in a `YYYY-MM-DD` date prefix.
pub const DATE_LEN: usize = 10;

/// Whether a key is long enough to carry a date prefix.
pub open spec fn has_date(key: Seq<char>) -> bool {
    key.len() >= DATE_LEN
}

/// The date prefix of a key: its first ten characters.
pub open spec fn date_of(key: Seq<char>) -> Seq<char>
    recommends
        has_date(key),
{
    key.subrange(0, DATE_LEN as int)
}

/// Returns the date prefix of `key`, or `None` when the key is too short to hold one.
pub fn date_prefix(key: &str) -> (date: Option<String>)
    ensures
        has_date(key@) <==> date is Some,
        date is Some ==> date->0@ == date_of(key@),
{
    if key.unicode_len() < DATE_LEN {
        None
    } else {
        Some(String::from_str(key.substring_char(0, DATE_LEN)))
    }
}

} // verus!
