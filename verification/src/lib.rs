//! Ingestion of time-stamped JSON records into an append-only log, and
//! compaction of that log into a columnar store partitioned by date.
//!
//! A log is a text of lines, each a JSON object that holds a string under a
//! key field. Two operations keep it sound, and both are stated and proved
//! here over the bytes of the log:
//!
//! * [`append::append_unique_jsonl_with_key`] adds to a log the records of a
//!   batch whose key the log does not hold yet. It only ever adds lines, and
//!   adding the same batch again adds nothing.
//! * [`convert::convert_jsonl_parquet`] cuts a log into one segment for each
//!   calendar date at the head of its keys. The keys are read from the lines
//!   of the log and the partition is planned from them; a table read from the
//!   log is cut by that plan, and refused where its keys are not those of the
//!   log. Every row goes to the segment of its own date, and to no other.
//!
//! [`validate::validate_no_duplicates_jsonl`] audits a log for key values that
//! occur twice, and [`fetch`] holds what the ingestion knows of the endpoint
//! that the records come from.
//!
//! The library does no input or output: it takes the bytes of a log and gives
//! back the bytes to write. JSON is read and written by `serde_json` and
//! tables by `polars`; [`json`] and [`frame`] hold the calls into them, with
//! the contracts that the proofs rest on.

pub mod append;
pub mod convert;
pub mod dates;
pub mod fetch;
pub mod frame;
pub mod json;
pub mod keys;
pub mod lines;
pub mod partition;
pub mod validate;
