//! The history endpoint: the address to ask, what its answer must look like,
//! and what a run adds to the history log.

use crate::append::{append_unique_records, is_append_of, AppendError, Appended};
use crate::json::{array_elements, array_items, json_value, parse_json};
use crate::keys::INTERVAL_FIELD;
use serde_json::Value;
use vstd::prelude::*;
use vstd::string::*;

verus! {

/// The address of the five-minute history, up to the number of hours.
pub const HISTORY_ENDPOINT: &'static str = "https://api.coinybubble.com/v1/history/5min?hours=";

/// The number of hours of history that a run asks for.
pub const HISTORY_HOURS: u32 = 24;

/// The character of a decimal digit.
pub open spec fn digit_char(digit: nat) -> char {
    if digit == 0 {
        '0'
    } else if digit == 1 {
        '1'
    } else if digit == 2 {
        '2'
    } else if digit == 3 {
        '3'
    } else if digit == 4 {
        '4'
    } else if digit == 5 {
        '5'
    } else if digit == 6 {
        '6'
    } else if digit == 7 {
        '7'
    } else if digit == 8 {
        '8'
    } else {
        '9'
    }
}

/// A number written in decimal, without leading zeros.
pub open spec fn decimal(n: nat) -> Seq<char>
    decreases n,
{
    if n < 10 {
        seq![digit_char(n)]
    } else {
        decimal(n / 10).push(digit_char(n % 10))
    }
}

/// The address of the history of the last `hours` hours.
pub open spec fn history_address(hours: nat) -> Seq<char> {
    HISTORY_ENDPOINT@ + decimal(hours)
}

/// Why the answer of the history endpoint was not taken.
#[derive(Debug)]
pub enum FetchError {
    /// The answer is not JSON.
    Malformed(serde_json::Error),
    /// The answer is JSON, but not an array.
    NotArray,
}

/// Why a run added nothing, or not all, to the history log.
#[derive(Debug)]
pub enum RunError {
    /// The answer of the history endpoint was not taken.
    Fetch(FetchError),
    /// A record could not be encoded.
    Append(AppendError),
}

/// The text of a decimal digit.
fn digit_text(digit: u32) -> (text: &'static str)
    requires
        digit < 10,
    ensures
        text@ == seq![digit_char(digit as nat)],
{
    proof {
        reveal_strlit("0");
        reveal_strlit("1");
        reveal_strlit("2");
        reveal_strlit("3");
        reveal_strlit("4");
        reveal_strlit("5");
        reveal_strlit("6");
        reveal_strlit("7");
        reveal_strlit("8");
        reveal_strlit("9");
    }
    let text = if digit == 0 {
        "0"
    } else if digit == 1 {
        "1"
    } else if digit == 2 {
        "2"
    } else if digit == 3 {
        "3"
    } else if digit == 4 {
        "4"
    } else if digit == 5 {
        "5"
    } else if digit == 6 {
        "6"
    } else if digit == 7 {
        "7"
    } else if digit == 8 {
        "8"
    } else {
        "9"
    };
    assert(text@ =~= seq![digit_char(digit as nat)]);
    text
}

/// Writes a number in decimal.
pub fn decimal_text(n: u32) -> (text: String)
    ensures
        text@ == decimal(n as nat),
    decreases n,
{
    if n < 10 {
        String::from_str(digit_text(n))
    } else {
        let mut text = decimal_text(n / 10);
        text.append(digit_text(n % 10));
        assert(text@ =~= decimal(n as nat));
        text
    }
}

/// The address to ask for the history of the last `hours` hours.
pub fn history_url(hours: u32) -> (url: String)
    ensures
        url@ == history_address(hours as nat),
{
    let mut url = String::from_str(HISTORY_ENDPOINT);
    let count = decimal_text(hours);
    url.append(count.as_str());
    url
}

/// Reads the records out of the answer of the history endpoint, which must be
/// a JSON array: its elements are the records, in order.
pub fn history_records(body: &[u8]) -> (outcome: Result<Vec<Value>, FetchError>)
    ensures
        match json_value(body@) {
            None => outcome is Err && outcome->Err_0 is Malformed,
            Some(answer) => match array_items(answer) {
                None => outcome is Err && outcome->Err_0 is NotArray,
                Some(items) => outcome is Ok && outcome->Ok_0@ == items,
            },
        },
{
    let answer = match parse_json(body) {
        Ok(answer) => answer,
        Err(cause) => {
            return Err(FetchError::Malformed(cause));
        },
    };
    match array_elements(&answer) {
        Some(records) => Ok(records),
        None => Err(FetchError::NotArray),
    }
}

/// One run of the ingestion: reads the records out of the answer of the
/// history endpoint and appends to the history log those whose
/// `interval_end_time` is new. Returns the bytes to add at the end of the log.
pub fn run(body: &[u8], log: &[u8]) -> (outcome: Result<Appended, RunError>)
    ensures
        match json_value(body@) {
            None => outcome is Err && outcome->Err_0 is Fetch && outcome->Err_0->Fetch_0
                is Malformed,
            Some(answer) => match array_items(answer) {
                None => outcome is Err && outcome->Err_0 is Fetch && outcome->Err_0->Fetch_0
                    is NotArray,
                Some(items) => match outcome {
                    Ok(added) => is_append_of(Ok(added), log@, items, INTERVAL_FIELD@),
                    Err(RunError::Append(failed)) => is_append_of(
                        Err(failed),
                        log@,
                        items,
                        INTERVAL_FIELD@,
                    ),
                    Err(RunError::Fetch(_)) => false,
                },
            },
        },
{
    let records = match history_records(body) {
        Ok(records) => records,
        Err(error) => {
            return Err(RunError::Fetch(error));
        },
    };
    match append_unique_records(log, records.as_slice()) {
        Ok(added) => Ok(added),
        Err(failed) => Err(RunError::Append(failed)),
    }
}

} // verus!
