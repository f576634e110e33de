//! The deduplicating appender: which records of a batch are added to a log,
//! and the bytes that adding them writes.

use crate::json::{encode_json, json_bytes};
use crate::keys::{
    batch_keys, distinct_keys, entry_keys, key_set, key_values, key_views, lemma_key_set_step,
    line_key, line_key_of, log_keys, read_keys, record_key, text_of, value_key, INTERVAL_FIELD,
    TIMESTAMP_FIELD,
};
use crate::lines::{
    ends_lines, is_line, joined_lines, lemma_lines_of_appended, lines_of, LINE_FEED,
};
use serde_json::Value;
use vstd::prelude::*;
use vstd::seq_lib::{lemma_seq_concat_contains_all_elements, lemma_seq_contains_after_push};

verus! {

/// Whether record `i` of a batch is written: it has no key, or its key occurs
/// neither in the log nor earlier in the batch.
pub open spec fn is_fresh(seen: Set<Seq<char>>, keys: Seq<Option<Seq<char>>>, i: int) -> bool {
    match keys[i] {
        Some(k) => !seen.contains(k) && !keys.take(i).contains(Some(k)),
        None => true,
    }
}

/// How many of the first `n` records of a batch are written.
pub open spec fn fresh_count(seen: Set<Seq<char>>, keys: Seq<Option<Seq<char>>>, n: nat) -> nat
    decreases n,
{
    if n == 0 {
        0
    } else if is_fresh(seen, keys, n - 1) {
        fresh_count(seen, keys, (n - 1) as nat) + 1
    } else {
        fresh_count(seen, keys, (n - 1) as nat)
    }
}

/// The keys of the records written among the first `n` of a batch, in order.
pub open spec fn written_keys(
    seen: Set<Seq<char>>,
    keys: Seq<Option<Seq<char>>>,
    n: nat,
) -> Seq<Option<Seq<char>>>
    decreases n,
{
    if n == 0 {
        Seq::empty()
    } else if is_fresh(seen, keys, n - 1) {
        written_keys(seen, keys, (n - 1) as nat).push(keys[n - 1])
    } else {
        written_keys(seen, keys, (n - 1) as nat)
    }
}

/// The lines that the first `n` records of a batch add to a log: the encoding
/// of each record written, in order.
pub open spec fn written_lines(
    seen: Set<Seq<char>>,
    entries: Seq<Value>,
    field: Seq<char>,
    n: nat,
) -> Seq<Seq<u8>>
    decreases n,
{
    if n == 0 {
        Seq::empty()
    } else if is_fresh(seen, entry_keys(entries, field), n - 1) {
        written_lines(seen, entries, field, (n - 1) as nat).push(json_bytes(entries[n - 1])->0)
    } else {
        written_lines(seen, entries, field, (n - 1) as nat)
    }
}

/// The bytes that the first `n` records of a batch add to a log: the lines
/// written, each followed by a line feed.
pub open spec fn appended_bytes(
    seen: Set<Seq<char>>,
    entries: Seq<Value>,
    field: Seq<char>,
    n: nat,
) -> Seq<u8> {
    joined_lines(written_lines(seen, entries, field, n))
}

/// Whether every record written among the first `n` of a batch has an
/// encoding, and one that can stand as a line.
pub open spec fn all_encodable(
    seen: Set<Seq<char>>,
    entries: Seq<Value>,
    field: Seq<char>,
    n: int,
) -> bool {
    forall|i: int|
        0 <= i < n && is_fresh(seen, entry_keys(entries, field), i) ==> (#[trigger] json_bytes(
            entries[i],
        )) is Some && is_line(json_bytes(entries[i])->0)
}

/// Whether a record, once written, is read from the log with the key that it
/// was written for.
pub open spec fn reads_back(value: Value, field: Seq<char>) -> bool {
    json_bytes(value) is Some && line_key(json_bytes(value)->0, field) == value_key(value, field)
}

/// What a successful append adds to the log.
#[derive(Debug)]
pub struct Appended {
    /// The bytes to add at the end of the log: one line per record written.
    pub bytes: Vec<u8>,
    /// The number of records written.
    pub count: usize,
}

/// An append that stopped at a record that could not be encoded.
#[derive(Debug)]
pub struct AppendError {
    /// The position in the batch of the record that could not be encoded.
    pub index: usize,
    /// The lines of the records written before it; they stay in the log.
    pub written: Vec<u8>,
    /// The number of records written before it.
    pub count: usize,
    /// The encoder's error.
    pub cause: serde_json::Error,
}

/// Whether `outcome` is what appending `entries` to `log` under `field` gives:
/// on success every record written has an encoding, and the bytes and the
/// count are those of the whole batch; a failure names the first record
/// written that has no encoding, and carries the bytes and the count of the
/// records before it.
pub open spec fn is_append_of(
    outcome: Result<Appended, AppendError>,
    log: Seq<u8>,
    entries: Seq<Value>,
    field: Seq<char>,
) -> bool {
    let seen = key_set(log_keys(log, field));
    let keys = entry_keys(entries, field);
    match outcome {
        Ok(added) => {
            &&& all_encodable(seen, entries, field, entries.len() as int)
            &&& added.bytes@ == appended_bytes(seen, entries, field, entries.len())
            &&& added.count == fresh_count(seen, keys, entries.len())
        },
        Err(failed) => {
            &&& failed.index < entries.len()
            &&& is_fresh(seen, keys, failed.index as int)
            &&& json_bytes(entries[failed.index as int]) is None
            &&& all_encodable(seen, entries, field, failed.index as int)
            &&& failed.written@ == appended_bytes(seen, entries, field, failed.index as nat)
            &&& failed.count == fresh_count(seen, keys, failed.index as nat)
        },
    }
}

/// Decides which records of a batch are written, from the keys of the log and
/// the keys of the batch: a record is written where it has no key, and where
/// its key occurs neither in the log nor earlier in the batch.
pub fn select_fresh(existing: &Vec<Option<String>>, batch: &Vec<Option<String>>) -> (written: Vec<
    bool,
>)
    ensures
        written@.len() == batch@.len(),
        forall|i: int|
            0 <= i < batch@.len() ==> written@[i] == is_fresh(
                key_set(key_views(existing@)),
                key_views(batch@),
                i,
            ),
{
    let mut seen = key_values(existing);
    let ghost before = seen@;
    let ghost keys = key_views(batch@);
    let mut written: Vec<bool> = Vec::new();
    let mut i: usize = 0;
    assert(key_set(keys.take(0)) =~= Set::<Seq<char>>::empty());
    assert(seen@ =~= before.union(key_set(keys.take(0))));
    while i < batch.len()
        invariant
            i <= batch@.len(),
            before == key_set(key_views(existing@)),
            keys == key_views(batch@),
            seen@ == before.union(key_set(keys.take(i as int))),
            written@.len() == i,
            forall|j: int| 0 <= j < i ==> written@[j] == is_fresh(before, keys, j),
        decreases batch.len() - i,
    {
        proof {
            lemma_key_set_step(keys, i as int);
            assert(keys[i as int] == text_of(batch@[i as int]));
        }
        let fresh = match &batch[i] {
            Some(key) => {
                if seen.contains(key.as_str()) {
                    false
                } else {
                    seen.insert(key.clone());
                    true
                }
            },
            None => true,
        };
        assert(fresh == is_fresh(before, keys, i as int));
        assert(seen@ =~= before.union(key_set(keys.take(i + 1))));
        written.push(fresh);
        i = i + 1;
    }
    written
}

/// Appends to a log the records of `entries` whose value under `key` occurs
/// neither in the log nor earlier in `entries`; a record without such a value
/// is always appended. Returns the bytes to add at the end of the log. A
/// record that cannot be encoded ends the batch: the error carries the lines
/// written before it.
pub fn append_unique_jsonl_with_key(log: &[u8], entries: &[Value], key: &str) -> (outcome: Result<
    Appended,
    AppendError,
>)
    ensures
        is_append_of(outcome, log@, entries@, key@),
{
    let existing = read_keys(log, key);
    let batch = batch_keys(entries, key);
    let written = select_fresh(&existing, &batch);
    let ghost seen = key_set(log_keys(log@, key@));
    let ghost keys = entry_keys(entries@, key@);
    let mut bytes: Vec<u8> = Vec::new();
    let mut count: usize = 0;
    let mut i: usize = 0;
    assert(key_views(batch@).len() == batch@.len());
    assert(keys.len() == entries@.len());
    while i < entries.len()
        invariant
            i <= entries@.len(),
            seen == key_set(log_keys(log@, key@)),
            keys == entry_keys(entries@, key@),
            written@.len() == entries@.len(),
            forall|j: int| 0 <= j < entries@.len() ==> written@[j] == is_fresh(seen, keys, j),
            bytes@ == appended_bytes(seen, entries@, key@, i as nat),
            count == fresh_count(seen, keys, i as nat),
            count <= i,
            all_encodable(seen, entries@, key@, i as int),
        decreases entries.len() - i,
    {
        if written[i] {
            match encode_json(&entries[i]) {
                Ok(line) => {
                    let mut line = line;
                    proof {
                        let lines = written_lines(seen, entries@, key@, i as nat);
                        assert(lines.push(line@).drop_last() == lines);
                    }
                    bytes.append(&mut line);
                    bytes.push(LINE_FEED);
                    count = count + 1;
                },
                Err(cause) => {
                    return Err(AppendError { index: i, written: bytes, count, cause });
                },
            }
        }
        i = i + 1;
    }
    Ok(Appended { bytes, count })
}

/// Tells whether a record, once written, would be read from the log with the
/// key that it is written for. A record that cannot be encoded does not read
/// back.
pub fn record_reads_back(value: &Value, field: &str) -> (same: bool)
    ensures
        same == reads_back(*value, field@),
{
    match encode_json(value) {
        Ok(line) => {
            let written = record_key(value, field);
            let read = line_key_of(line.as_slice(), field);
            match (written, read) {
                (Some(a), Some(b)) => a == b,
                (None, None) => true,
                _ => false,
            }
        },
        Err(_) => false,
    }
}

/// Appends the records whose `timestamp` is new to the log.
pub fn append_unique_jsonl(log: &[u8], entries: &[Value]) -> (outcome: Result<
    Appended,
    AppendError,
>)
    ensures
        is_append_of(outcome, log@, entries@, TIMESTAMP_FIELD@),
{
    append_unique_jsonl_with_key(log, entries, TIMESTAMP_FIELD)
}

/// Appends the records whose `interval_end_time` is new to the log.
pub fn append_unique_records(log: &[u8], records: &[Value]) -> (outcome: Result<
    Appended,
    AppendError,
>)
    ensures
        is_append_of(outcome, log@, records@, INTERVAL_FIELD@),
{
    append_unique_jsonl_with_key(log, records, INTERVAL_FIELD)
}

/// The keys of a log after a run of appends: each batch adds the keys of the
/// records that it writes.
pub open spec fn keys_after(
    log: Seq<Option<Seq<char>>>,
    batches: Seq<Seq<Option<Seq<char>>>>,
) -> Seq<Option<Seq<char>>>
    decreases batches.len(),
{
    if batches.len() == 0 {
        log
    } else {
        let so_far = keys_after(log, batches.drop_last());
        so_far + written_keys(key_set(so_far), batches.last(), batches.last().len())
    }
}

/// The records written carry keys of the batch that the log did not hold, each
/// at most once, and together with the log's keys they make up the keys of the
/// log and the batch.
pub proof fn lemma_written_keys(seen: Set<Seq<char>>, keys: Seq<Option<Seq<char>>>, n: nat)
    requires
        n <= keys.len(),
    ensures
        written_keys(seen, keys, n).len() == fresh_count(seen, keys, n),
        forall|k: Seq<char>| #[trigger]
            written_keys(seen, keys, n).contains(Some(k)) ==> !seen.contains(k) && keys.take(
                n as int,
            ).contains(Some(k)),
        seen.union(key_set(written_keys(seen, keys, n))) == seen.union(key_set(keys.take(n as int))),
        distinct_keys(written_keys(seen, keys, n)),
    decreases n,
{
    let out = written_keys(seen, keys, n);
    if n == 0 {
        assert(key_set(out) =~= key_set(keys.take(0)));
    } else {
        let m = (n - 1) as nat;
        let prev = written_keys(seen, keys, m);
        lemma_written_keys(seen, keys, m);
        lemma_key_set_step(keys, m as int);
        assert(keys.take(n as int) == keys.take(m as int).push(keys[m as int]));
        assert forall|k: Seq<char>| #[trigger] out.contains(Some(k)) implies !seen.contains(k)
            && keys.take(n as int).contains(Some(k)) by {
            lemma_seq_contains_after_push(prev, keys[m as int], Some(k));
            lemma_seq_contains_after_push(keys.take(m as int), keys[m as int], Some(k));
        }
        if is_fresh(seen, keys, m as int) {
            assert(out == prev.push(keys[m as int]));
            assert(out.take(prev.len() as int) == prev);
            lemma_key_set_step(out, prev.len() as int);
            assert(out.take(prev.len() as int + 1) == out);
            assert forall|i: int, j: int| 0 <= i < j < out.len() && out[i] is Some implies out[i]
                != out[j] by {
                if j == prev.len() {
                    assert(prev[i] == out[i]);
                    assert(prev.contains(Some(out[i]->0)));
                }
            }
            let joined = seen.union(key_set(prev));
            assert(joined == seen.union(key_set(keys.take(m as int))));
            match keys[m as int] {
                Some(k) => {
                    assert(seen.union(key_set(out)) =~= joined.insert(k));
                    assert(seen.union(key_set(keys.take(n as int))) =~= joined.insert(k));
                },
                None => {},
            }
        } else {
            let k = keys[m as int]->0;
            assert(seen.contains(k) || key_set(keys.take(m as int)).contains(k));
            assert(seen.union(key_set(prev)).contains(k));
            assert(seen.union(key_set(out)) =~= seen.union(key_set(keys.take(n as int))));
        }
    }
}

/// The key values of two logs joined are those of one and of the other.
pub proof fn lemma_key_set_concat(first: Seq<Option<Seq<char>>>, second: Seq<Option<Seq<char>>>)
    ensures
        key_set(first + second) == key_set(first).union(key_set(second)),
{
    assert forall|k: Seq<char>| (first + second).contains(Some(k)) <==> first.contains(Some(k))
        || second.contains(Some(k)) by {
        lemma_seq_concat_contains_all_elements(first, second, Some(k));
    }
    assert(key_set(first + second) =~= key_set(first).union(key_set(second)));
}

/// A batch whose records all carry keys that the log holds writes nothing.
pub proof fn lemma_nothing_fresh(seen: Set<Seq<char>>, keys: Seq<Option<Seq<char>>>, n: nat)
    requires
        n <= keys.len(),
        forall|i: int| 0 <= i < n ==> keys[i] is Some && seen.contains(keys[i]->0),
    ensures
        forall|i: int| 0 <= i < n ==> !is_fresh(seen, keys, i),
        fresh_count(seen, keys, n) == 0,
        written_keys(seen, keys, n) == Seq::<Option<Seq<char>>>::empty(),
    decreases n,
{
    if n > 0 {
        lemma_nothing_fresh(seen, keys, (n - 1) as nat);
    }
}

/// A batch whose records all carry keys that the log holds adds no bytes.
pub proof fn lemma_no_bytes_appended(
    seen: Set<Seq<char>>,
    entries: Seq<Value>,
    field: Seq<char>,
    n: nat,
)
    requires
        n <= entries.len(),
        forall|i: int|
            0 <= i < n ==> entry_keys(entries, field)[i] is Some && seen.contains(
                entry_keys(entries, field)[i]->0,
            ),
    ensures
        appended_bytes(seen, entries, field, n) == Seq::<u8>::empty(),
        all_encodable(seen, entries, field, n as int),
    decreases n,
{
    if n > 0 {
        lemma_no_bytes_appended(seen, entries, field, (n - 1) as nat);
    }
}

/// An append leaves the log's keys in place and adds those of the batch: the
/// set of key values after it is that of the log joined with that of the batch.
pub proof fn lemma_append_grows_key_set(log: Seq<Option<Seq<char>>>, batch: Seq<Option<Seq<char>>>)
    ensures
        key_set(log + written_keys(key_set(log), batch, batch.len())) == key_set(log).union(
            key_set(batch),
        ),
        key_set(log).subset_of(key_set(log + written_keys(key_set(log), batch, batch.len()))),
{
    let written = written_keys(key_set(log), batch, batch.len());
    lemma_written_keys(key_set(log), batch, batch.len());
    lemma_key_set_concat(log, written);
    assert(batch.take(batch.len() as int) == batch);
}

/// Appending a batch of keyed records a second time writes nothing: after the
/// first append every key of the batch is in the log, so the second leaves the
/// log as the first left it.
pub proof fn lemma_append_is_idempotent(log: Seq<Option<Seq<char>>>, batch: Seq<Option<Seq<char>>>)
    requires
        forall|i: int| 0 <= i < batch.len() ==> batch[i] is Some,
    ensures
        fresh_count(key_set(keys_after(log, seq![batch])), batch, batch.len()) == 0,
        keys_after(log, seq![batch, batch]) == keys_after(log, seq![batch]),
{
    let once = log + written_keys(key_set(log), batch, batch.len());
    assert(seq![batch].drop_last() == Seq::<Seq<Option<Seq<char>>>>::empty());
    assert(keys_after(log, seq![batch].drop_last()) == log);
    assert(keys_after(log, seq![batch]) == once);
    assert(seq![batch, batch].drop_last() == seq![batch]);
    lemma_append_grows_key_set(log, batch);
    assert forall|i: int| 0 <= i < batch.len() implies batch[i] is Some && key_set(once).contains(
        batch[i]->0,
    ) by {
        assert(batch.contains(Some(batch[i]->0)));
    }
    lemma_nothing_fresh(key_set(once), batch, batch.len());
    assert(once + Seq::<Option<Seq<char>>>::empty() == once);
}

/// An append to a log in which no key value occurs twice gives such a log.
pub proof fn lemma_append_keeps_keys_distinct(
    log: Seq<Option<Seq<char>>>,
    batch: Seq<Option<Seq<char>>>,
)
    requires
        distinct_keys(log),
    ensures
        distinct_keys(log + written_keys(key_set(log), batch, batch.len())),
{
    let written = written_keys(key_set(log), batch, batch.len());
    let after = log + written;
    lemma_written_keys(key_set(log), batch, batch.len());
    assert forall|i: int, j: int| 0 <= i < j < after.len() && after[i] is Some implies after[i]
        != after[j] by {
        if j < log.len() {
        } else if i < log.len() {
            if after[i] == after[j] {
                let k = after[i]->0;
                assert(log[i] == Some(k));
                assert(log.contains(Some(k)));
                assert(written[j - log.len()] == Some(k));
                assert(written.contains(Some(k)));
            }
        } else {
            assert(written[i - log.len()] == after[i]);
            assert(written[j - log.len()] == after[j]);
        }
    }
}

/// After any run of appends to a log in which no key value occurs twice, and
/// so after any run of appends to an empty log, no key value occurs twice.
pub proof fn lemma_appends_keep_keys_distinct(
    log: Seq<Option<Seq<char>>>,
    batches: Seq<Seq<Option<Seq<char>>>>,
)
    requires
        distinct_keys(log),
    ensures
        distinct_keys(keys_after(log, batches)),
    decreases batches.len(),
{
    if batches.len() > 0 {
        lemma_appends_keep_keys_distinct(log, batches.drop_last());
        lemma_append_keeps_keys_distinct(keys_after(log, batches.drop_last()), batches.last());
    }
}

/// Whether every record written among the first `n` of a batch reads back
/// with its key.
pub open spec fn all_read_back(
    seen: Set<Seq<char>>,
    entries: Seq<Value>,
    field: Seq<char>,
    n: int,
) -> bool {
    forall|i: int|
        0 <= i < n && is_fresh(seen, entry_keys(entries, field), i) ==> #[trigger] reads_back(
            entries[i],
            field,
        )
}

/// The lines written are as many as the records written, and each can stand
/// as a line.
pub proof fn lemma_written_lines(
    seen: Set<Seq<char>>,
    entries: Seq<Value>,
    field: Seq<char>,
    n: nat,
)
    requires
        n <= entries.len(),
        all_encodable(seen, entries, field, n as int),
    ensures
        written_lines(seen, entries, field, n).len() == fresh_count(
            seen,
            entry_keys(entries, field),
            n,
        ),
        forall|j: int|
            0 <= j < written_lines(seen, entries, field, n).len() ==> is_line(
                #[trigger] written_lines(seen, entries, field, n)[j],
            ),
    decreases n,
{
    if n > 0 {
        lemma_written_lines(seen, entries, field, (n - 1) as nat);
        if is_fresh(seen, entry_keys(entries, field), n - 1) {
            assert(json_bytes(entries[n - 1]) is Some);
        }
    }
}

/// Where the records written read back with their keys, the keys of the lines
/// written are the keys of the records written.
pub proof fn lemma_written_lines_keys(
    seen: Set<Seq<char>>,
    entries: Seq<Value>,
    field: Seq<char>,
    n: nat,
)
    requires
        n <= entries.len(),
        all_read_back(seen, entries, field, n as int),
    ensures
        written_lines(seen, entries, field, n).map_values(|line: Seq<u8>| line_key(line, field))
            == written_keys(seen, entry_keys(entries, field), n),
    decreases n,
{
    let keys = entry_keys(entries, field);
    let lines = written_lines(seen, entries, field, n);
    if n == 0 {
        assert(lines.map_values(|line: Seq<u8>| line_key(line, field)) =~= written_keys(
            seen,
            keys,
            n,
        ));
    } else {
        let m = (n - 1) as nat;
        lemma_written_lines_keys(seen, entries, field, m);
        if is_fresh(seen, keys, m as int) {
            assert(reads_back(entries[m as int], field));
            let earlier = written_lines(seen, entries, field, m);
            let last = json_bytes(entries[m as int])->0;
            assert(lines == earlier.push(last));
            assert(lines.map_values(|line: Seq<u8>| line_key(line, field)) =~= earlier.map_values(
                |line: Seq<u8>| line_key(line, field),
            ).push(line_key(last, field)));
        }
    }
}

/// An append to a log that can take further lines adds the lines written after
/// the lines of the log, which stay as they were.
pub proof fn lemma_append_adds_lines(log: Seq<u8>, entries: Seq<Value>, field: Seq<char>)
    requires
        ends_lines(log),
        all_encodable(key_set(log_keys(log, field)), entries, field, entries.len() as int),
    ensures
        lines_of(log + appended_bytes(key_set(log_keys(log, field)), entries, field, entries.len()))
            == lines_of(log) + written_lines(
            key_set(log_keys(log, field)),
            entries,
            field,
            entries.len(),
        ),
        ends_lines(
            log + appended_bytes(key_set(log_keys(log, field)), entries, field, entries.len()),
        ),
{
    let seen = key_set(log_keys(log, field));
    lemma_written_lines(seen, entries, field, entries.len());
    lemma_lines_of_appended(log, written_lines(seen, entries, field, entries.len()));
}

/// An append to a log that can take further lines, of records that read back
/// with their keys, adds the keys of the records written to the keys of the log.
pub proof fn lemma_append_adds_keys(log: Seq<u8>, entries: Seq<Value>, field: Seq<char>)
    requires
        ends_lines(log),
        all_encodable(key_set(log_keys(log, field)), entries, field, entries.len() as int),
        all_read_back(key_set(log_keys(log, field)), entries, field, entries.len() as int),
    ensures
        log_keys(
            log + appended_bytes(key_set(log_keys(log, field)), entries, field, entries.len()),
            field,
        ) == log_keys(log, field) + written_keys(
            key_set(log_keys(log, field)),
            entry_keys(entries, field),
            entries.len(),
        ),
{
    let seen = key_set(log_keys(log, field));
    let lines = written_lines(seen, entries, field, entries.len());
    lemma_append_adds_lines(log, entries, field);
    lemma_written_lines_keys(seen, entries, field, entries.len());
    assert((lines_of(log) + lines).map_values(|line: Seq<u8>| line_key(line, field)) =~= lines_of(
        log,
    ).map_values(|line: Seq<u8>| line_key(line, field)) + lines.map_values(
        |line: Seq<u8>| line_key(line, field),
    ));
}

/// After a batch of keyed records was appended to a log that can take further
/// lines, appending the same batch again writes no record and adds no byte,
/// provided the records written read back with their keys.
pub proof fn lemma_second_append_adds_nothing(log: Seq<u8>, entries: Seq<Value>, field: Seq<char>)
    requires
        ends_lines(log),
        all_encodable(key_set(log_keys(log, field)), entries, field, entries.len() as int),
        all_read_back(key_set(log_keys(log, field)), entries, field, entries.len() as int),
        forall|i: int| 0 <= i < entries.len() ==> entry_keys(entries, field)[i] is Some,
    ensures
        forall|i: int|
            0 <= i < entries.len() ==> !is_fresh(
                key_set(
                    log_keys(
                        log + appended_bytes(
                            key_set(log_keys(log, field)),
                            entries,
                            field,
                            entries.len(),
                        ),
                        field,
                    ),
                ),
                entry_keys(entries, field),
                i,
            ),
        appended_bytes(
            key_set(
                log_keys(
                    log + appended_bytes(
                        key_set(log_keys(log, field)),
                        entries,
                        field,
                        entries.len(),
                    ),
                    field,
                ),
            ),
            entries,
            field,
            entries.len(),
        ) == Seq::<u8>::empty(),
        fresh_count(
            key_set(
                log_keys(
                    log + appended_bytes(
                        key_set(log_keys(log, field)),
                        entries,
                        field,
                        entries.len(),
                    ),
                    field,
                ),
            ),
            entry_keys(entries, field),
            entries.len(),
        ) == 0,
{
    let keys = entry_keys(entries, field);
    let before = log_keys(log, field);
    let once = log + appended_bytes(key_set(before), entries, field, entries.len());
    let after = key_set(log_keys(once, field));
    lemma_append_adds_keys(log, entries, field);
    lemma_append_grows_key_set(before, keys);
    assert forall|i: int| 0 <= i < entries.len() implies keys[i] is Some && after.contains(
        keys[i]->0,
    ) by {
        assert(keys.contains(Some(keys[i]->0)));
    }
    lemma_nothing_fresh(after, keys, entries.len());
    lemma_no_bytes_appended(after, entries, field, entries.len());
}

/// An append to a log that can take further lines and in which no key value
/// occurs twice gives such a log, provided the records written read back with
/// their keys.
pub proof fn lemma_append_keeps_log_distinct(log: Seq<u8>, entries: Seq<Value>, field: Seq<char>)
    requires
        ends_lines(log),
        all_encodable(key_set(log_keys(log, field)), entries, field, entries.len() as int),
        all_read_back(key_set(log_keys(log, field)), entries, field, entries.len() as int),
        distinct_keys(log_keys(log, field)),
    ensures
        distinct_keys(
            log_keys(
                log + appended_bytes(key_set(log_keys(log, field)), entries, field, entries.len()),
                field,
            ),
        ),
        ends_lines(
            log + appended_bytes(key_set(log_keys(log, field)), entries, field, entries.len()),
        ),
{
    lemma_append_adds_keys(log, entries, field);
    lemma_append_adds_lines(log, entries, field);
    lemma_append_keeps_keys_distinct(log_keys(log, field), entry_keys(entries, field));
}

/// Tells whether every record that an append of `entries` to `log` writes has
/// an encoding and reads back from the log with its key. Where it does, and
/// the log can take further lines, the append adds the keys of the records
/// written to the keys of the log, and leaves no key value twice in a log
/// that held none twice.
pub fn batch_reads_back(log: &[u8], entries: &[Value], key: &str) -> (sound: bool)
    ensures
        sound == all_read_back(
            key_set(log_keys(log@, key@)),
            entries@,
            key@,
            entries@.len() as int,
        ),
        sound ==> all_encodable(
            key_set(log_keys(log@, key@)),
            entries@,
            key@,
            entries@.len() as int,
        ),
        sound && ends_lines(log@) ==> log_keys(
            log@ + appended_bytes(key_set(log_keys(log@, key@)), entries@, key@, entries@.len()),
            key@,
        ) == log_keys(log@, key@) + written_keys(
            key_set(log_keys(log@, key@)),
            entry_keys(entries@, key@),
            entries@.len(),
        ),
        sound && ends_lines(log@) && distinct_keys(log_keys(log@, key@)) ==> distinct_keys(
            log_keys(
                log@ + appended_bytes(
                    key_set(log_keys(log@, key@)),
                    entries@,
                    key@,
                    entries@.len(),
                ),
                key@,
            ),
        ),
{
    let existing = read_keys(log, key);
    let batch = batch_keys(entries, key);
    let written = select_fresh(&existing, &batch);
    let ghost seen = key_set(log_keys(log@, key@));
    let ghost keys = entry_keys(entries@, key@);
    let mut i: usize = 0;
    assert(key_views(batch@).len() == batch@.len());
    assert(keys.len() == entries@.len());
    while i < entries.len()
        invariant
            i <= entries@.len(),
            seen == key_set(log_keys(log@, key@)),
            keys == entry_keys(entries@, key@),
            keys == key_views(batch@),
            batch@.len() == entries@.len(),
            written@.len() == entries@.len(),
            forall|j: int| 0 <= j < entries@.len() ==> written@[j] == is_fresh(seen, keys, j),
            all_encodable(seen, entries@, key@, i as int),
            all_read_back(seen, entries@, key@, i as int),
        decreases entries.len() - i,
    {
        if written[i] {
            assert(keys[i as int] == text_of(batch@[i as int]));
            assert(keys[i as int] == value_key(entries@[i as int], key@));
            let same = match encode_json(&entries[i]) {
                Ok(line) => {
                    match (&batch[i], line_key_of(line.as_slice(), key)) {
                        (Some(ours), Some(theirs)) => *ours == theirs,
                        (None, None) => true,
                        _ => false,
                    }
                },
                Err(_) => false,
            };
            if !same {
                assert(!reads_back(entries@[i as int], key@));
                return false;
            }
            assert(reads_back(entries@[i as int], key@));
        }
        i = i + 1;
    }
    proof {
        if ends_lines(log@) {
            lemma_append_adds_keys(log@, entries@, key@);
            if distinct_keys(log_keys(log@, key@)) {
                lemma_append_keeps_log_distinct(log@, entries@, key@);
            }
        }
    }
    true
}

} // verus!
