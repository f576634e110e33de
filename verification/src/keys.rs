//! Record keys: the string that a record holds under its key field, read from
//! a value or from a line of the log.

use crate::json::{json_value, parse_json, text_field, text_fields};
use crate::lines::{line_views, lines_of, split_lines};
use serde_json::Value;
use vstd::hash_set::StringHashSet;
use vstd::prelude::*;
use vstd::seq_lib::lemma_seq_contains_after_push;

verus! {

/// The field that the history records are keyed by.
pub const INTERVAL_FIELD: &'static str = "interval_end_time";

/// The field that records are keyed by where the caller names none.
pub const TIMESTAMP_FIELD: &'static str = "timestamp";

/// The view of an optional string.
pub open spec fn text_of(text: Option<String>) -> Option<Seq<char>> {
    match text {
        Some(s) => Some(s@),
        None => None,
    }
}

/// The views of a sequence of optional strings.
pub open spec fn key_views(keys: Seq<Option<String>>) -> Seq<Option<Seq<char>>> {
    keys.map_values(|key: Option<String>| text_of(key))
}

/// The views of a sequence of strings.
pub open spec fn texts(strings: Seq<String>) -> Seq<Seq<char>> {
    strings.map_values(|s: String| s@)
}

/// The key of a record: the string under `field`, if the record is an object
/// that holds a string there.
pub open spec fn value_key(value: Value, field: Seq<char>) -> Option<Seq<char>> {
    if text_fields(value).contains_key(field) {
        Some(text_fields(value)[field])
    } else {
        None
    }
}

/// The key of a log line. A line that is not valid JSON has none.
pub open spec fn line_key(line: Seq<u8>, field: Seq<char>) -> Option<Seq<char>> {
    match json_value(line) {
        Some(value) => value_key(value, field),
        None => None,
    }
}

/// The key of each line of a log, in order.
pub open spec fn log_keys(log: Seq<u8>, field: Seq<char>) -> Seq<Option<Seq<char>>> {
    lines_of(log).map_values(|line: Seq<u8>| line_key(line, field))
}

/// The key of each of the given lines, in order.
pub open spec fn line_keys(lines: Seq<Seq<u8>>, field: Seq<char>) -> Seq<Option<Seq<char>>> {
    lines.map_values(|line: Seq<u8>| line_key(line, field))
}

/// The key of each record of a batch, in order.
pub open spec fn entry_keys(entries: Seq<Value>, field: Seq<char>) -> Seq<Option<Seq<char>>> {
    entries.map_values(|value: Value| value_key(value, field))
}

/// The key values that occur in a sequence of keys.
pub open spec fn key_set(keys: Seq<Option<Seq<char>>>) -> Set<Seq<char>> {
    Set::new(|k: Seq<char>| keys.contains(Some(k)))
}

/// Whether no key value occurs on two lines: what a well-formed log keeps.
pub open spec fn distinct_keys(keys: Seq<Option<Seq<char>>>) -> bool {
    forall|i: int, j: int| 0 <= i < j < keys.len() && keys[i] is Some ==> keys[i] != keys[j]
}

/// The keys of a longer prefix are those of the shorter one and the key added.
pub proof fn lemma_key_set_step(keys: Seq<Option<Seq<char>>>, i: int)
    requires
        0 <= i < keys.len(),
    ensures
        key_set(keys.take(i + 1)) == match keys[i] {
            Some(k) => key_set(keys.take(i)).insert(k),
            None => key_set(keys.take(i)),
        },
{
    let shorter = keys.take(i);
    let longer = keys.take(i + 1);
    assert(longer == shorter.push(keys[i]));
    assert forall|k: Seq<char>| longer.contains(Some(k)) <==> (shorter.contains(Some(k))
        || keys[i] == Some(k)) by {
        lemma_seq_contains_after_push(shorter, keys[i], Some(k));
    }
    match keys[i] {
        Some(k) => {
            assert(key_set(longer) =~= key_set(shorter).insert(k));
        },
        None => {
            assert(key_set(longer) =~= key_set(shorter));
        },
    }
}

/// Reads the string that `value` holds under `field`.
pub fn record_key(value: &Value, field: &str) -> (key: Option<String>)
    ensures
        text_of(key) == value_key(*value, field@),
{
    text_field(value, field)
}

/// Reads the key of one log line. A line that does not parse has none.
pub fn line_key_of(line: &[u8], field: &str) -> (key: Option<String>)
    ensures
        text_of(key) == line_key(line@, field@),
{
    match parse_json(line) {
        Ok(value) => record_key(&value, field),
        Err(_) => None,
    }
}

/// Reads the key of each of the given lines, in order.
pub fn keys_of_lines(lines: &Vec<&[u8]>, field: &str) -> (keys: Vec<Option<String>>)
    ensures
        key_views(keys@) == line_keys(line_views(lines@), field@),
{
    let mut keys: Vec<Option<String>> = Vec::new();
    let mut i: usize = 0;
    while i < lines.len()
        invariant
            i <= lines.len(),
            keys@.len() == i,
            forall|j: int| 0 <= j < i ==> text_of(#[trigger] keys@[j]) == line_key(lines@[j]@, field@),
        decreases lines.len() - i,
    {
        let key = line_key_of(lines[i], field);
        keys.push(key);
        i = i + 1;
    }
    assert(key_views(keys@) =~= line_keys(line_views(lines@), field@));
    keys
}

/// Reads the key of every line of a log, in order.
pub fn read_keys(log: &[u8], field: &str) -> (keys: Vec<Option<String>>)
    ensures
        key_views(keys@) == log_keys(log@, field@),
{
    let lines = split_lines(log);
    let keys = keys_of_lines(&lines, field);
    assert(line_views(lines@) =~= lines_of(log@));
    assert(key_views(keys@) =~= log_keys(log@, field@));
    keys
}

/// Whether `row` is the first place at which two columns of keys part: the
/// two hold the same keys before it, and at it they hold different keys, or
/// one has ended and the other goes on.
pub open spec fn parts_at(
    ours: Seq<Option<Seq<char>>>,
    theirs: Seq<Option<Seq<char>>>,
    row: int,
) -> bool {
    &&& 0 <= row <= ours.len()
    &&& row <= theirs.len()
    &&& forall|i: int| 0 <= i < row ==> ours[i] == theirs[i]
    &&& if row < ours.len() && row < theirs.len() {
        ours[row] != theirs[row]
    } else {
        ours.len() != theirs.len()
    }
}

/// Finds the first place at which two columns of keys part. Columns that are
/// alike give `None`.
pub fn first_difference(ours: &Vec<Option<String>>, theirs: &Vec<Option<String>>) -> (row: Option<
    usize,
>)
    ensures
        row is None <==> key_views(ours@) == key_views(theirs@),
        row is Some ==> parts_at(key_views(ours@), key_views(theirs@), row->0 as int),
{
    let mut i: usize = 0;
    while i < ours.len() && i < theirs.len()
        invariant
            i <= ours@.len(),
            i <= theirs@.len(),
            forall|j: int| 0 <= j < i ==> text_of(ours@[j]) == text_of(theirs@[j]),
        decreases ours.len() - i,
    {
        let same = match (&ours[i], &theirs[i]) {
            (Some(a), Some(b)) => *a == *b,
            (None, None) => true,
            _ => false,
        };
        if !same {
            assert(key_views(ours@)[i as int] != key_views(theirs@)[i as int]);
            return Some(i);
        }
        i = i + 1;
    }
    if ours.len() == theirs.len() {
        assert(key_views(ours@) =~= key_views(theirs@));
        None
    } else {
        assert(key_views(ours@).len() != key_views(theirs@).len());
        Some(i)
    }
}

/// Reads the key of every record of a batch, in order.
pub fn batch_keys(entries: &[Value], field: &str) -> (keys: Vec<Option<String>>)
    ensures
        key_views(keys@) == entry_keys(entries@, field@),
{
    let mut keys: Vec<Option<String>> = Vec::new();
    let mut i: usize = 0;
    while i < entries.len()
        invariant
            i <= entries@.len(),
            keys@.len() == i,
            forall|j: int|
                0 <= j < i ==> text_of(#[trigger] keys@[j]) == value_key(entries@[j], field@),
        decreases entries.len() - i,
    {
        let key = record_key(&entries[i], field);
        keys.push(key);
        i = i + 1;
    }
    assert(key_views(keys@) =~= entry_keys(entries@, field@));
    keys
}

/// Collects the key values among `keys`.
pub fn key_values(keys: &Vec<Option<String>>) -> (seen: StringHashSet)
    ensures
        seen@ == key_set(key_views(keys@)),
{
    let ghost all = key_views(keys@);
    let mut seen = StringHashSet::new();
    let mut i: usize = 0;
    assert(key_set(all.take(0)) =~= Set::<Seq<char>>::empty());
    while i < keys.len()
        invariant
            i <= keys.len(),
            all == key_views(keys@),
            seen@ == key_set(all.take(i as int)),
        decreases keys.len() - i,
    {
        proof {
            lemma_key_set_step(all, i as int);
            assert(all[i as int] == text_of(keys@[i as int]));
        }
        match &keys[i] {
            Some(key) => {
                seen.insert(key.clone());
            },
            None => {},
        }
        i = i + 1;
    }
    assert(all.take(keys.len() as int) == all);
    seen
}

/// Collects the key values that occur in a log.
pub fn seen_keys(log: &[u8], field: &str) -> (seen: StringHashSet)
    ensures
        seen@ == key_set(log_keys(log@, field@)),
{
    let keys = read_keys(log, field);
    key_values(&keys)
}

/// Collects the `interval_end_time` values that occur in a log.
pub fn existing_intervals(log: &[u8]) -> (seen: StringHashSet)
    ensures
        seen@ == key_set(log_keys(log@, INTERVAL_FIELD@)),
{
    seen_keys(log, INTERVAL_FIELD)
}

} // verus!
