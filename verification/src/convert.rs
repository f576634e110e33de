//! The partitioned converter: a log becomes a table, and the table one
//! columnar segment for each date that its keys hold.

use crate::dates::{date_of, has_date};
use crate::frame::{
    filter_rows, frame_rows, frame_text, is_parquet_file, parquet_row_count, read_json_lines,
    text_column, write_parquet,
};
use crate::json::{json_value, parse_json};
use crate::keys::{
    first_difference, key_views, keys_of_lines, line_key, line_keys, parts_at, INTERVAL_FIELD,
};
use crate::lines::{
    content_lines, content_of, line_views, lines_of, strip_mark, trim_line_feeds, unmarked,
};
use crate::partition::{
    all_dated, date_mask, dated, distinct_dates, fault_row, is_first_fault, is_plan_of, kept,
    key_dates, lemma_distinct_dates, lemma_kept_count, lemma_kept_rows_have_date,
    lemma_partitions_hold_every_row, plan_partitions, row_dates, total_rows, DateGroup,
    SchemaError,
};
use polars::prelude::{DataFrame, PolarsError};
use vstd::prelude::*;
use vstd::string::*;

verus! {

/// The name of the file that holds a segment, inside the segment's directory.
pub const SEGMENT_FILE: &'static str = "part.parquet";

/// What the name of a segment's directory starts with; the date follows.
pub const DIRECTORY_PREFIX: &'static str = "date=";

/// The rows of one date.
#[derive(Debug)]
pub struct Segment {
    /// The date that the keys of the rows start with.
    pub date: String,
    /// The name of the segment's directory: `date=` and the date.
    pub directory: String,
    /// The rows, as a table.
    pub rows: DataFrame,
    /// The rows, encoded as a Parquet file by `polars`.
    pub file: Vec<u8>,
}

/// A log converted: its keys, and one segment for each date among them.
#[derive(Debug)]
pub struct Conversion {
    /// The key of each row of the log, in order.
    pub keys: Vec<Option<String>>,
    /// The segments, in the order in which their dates first occur.
    pub segments: Vec<Segment>,
}

/// Why a conversion failed.
#[derive(Debug)]
pub enum ConvertError {
    /// A row of the log is not JSON.
    Malformed { row: usize },
    /// A row has no key, or a key too short to hold a date.
    Schema(SchemaError),
    /// The log could not be read as a table.
    Table(PolarsError),
    /// The table has no column of strings under the key field.
    KeyColumn(PolarsError),
    /// The table that was read does not hold the keys of the log: at this row
    /// its key is another, or one of the two has no such row.
    KeyMismatch { row: usize },
    /// The rows of a date could not be cut out of the table or encoded.
    Segment { date: String, cause: PolarsError },
}

/// The keys that a conversion reports, as values.
pub open spec fn reported_keys(conversion: Conversion) -> Seq<Option<Seq<char>>> {
    key_views(conversion.keys@)
}

/// Whether `conversion` partitions the rows with the keys `keys` by date: it
/// reports those keys, and holds one segment for each date that occurs, in the
/// order of first occurrence, named after the date, whose rows carry exactly
/// the keys of that date, in the order of the log, and whose file is framed as
/// a Parquet file and declares as many rows as carry that date.
pub open spec fn is_conversion_of(
    conversion: Conversion,
    keys: Seq<Option<Seq<char>>>,
    field: Seq<char>,
) -> bool {
    let dates = key_dates(keys);
    &&& reported_keys(conversion) == keys
    &&& conversion.segments@.len() == distinct_dates(dates, dates.len()).len()
    &&& forall|p: int|
        0 <= p < conversion.segments@.len() ==> {
            let segment = #[trigger] conversion.segments@[p];
            &&& segment.date@ == distinct_dates(dates, dates.len())[p]
            &&& segment.directory@ == DIRECTORY_PREFIX@ + segment.date@
            &&& frame_text(segment.rows, field) == Some(kept(keys, date_mask(dates, segment.date@)))
            &&& is_parquet_file(segment.file@)
            &&& parquet_row_count(segment.file@) == Some(
                kept(keys, date_mask(dates, segment.date@)).len(),
            )
        }
}

/// Whether each segment of `conversion` holds the rows of `table` that carry
/// the segment's date, in the order of the table, and so in every column of
/// strings the cells of those rows.
pub open spec fn carries_table(
    conversion: Conversion,
    table: DataFrame,
    dates: Seq<Seq<char>>,
) -> bool {
    &&& forall|p: int|
        0 <= p < conversion.segments@.len() ==> #[trigger] frame_rows(
            conversion.segments@[p].rows,
        ) == kept(frame_rows(table), date_mask(dates, conversion.segments@[p].date@))
    &&& forall|p: int, name: Seq<char>|
        0 <= p < conversion.segments@.len() && frame_text(table, name) is Some ==> #[trigger] frame_text(
            conversion.segments@[p].rows,
            name,
        ) == Some(kept(frame_text(table, name)->0, date_mask(dates, conversion.segments@[p].date@)))
}

/// Whether `conversion` was cut out of `table`: the table holds the keys
/// `keys` under `field`, one for each of its rows, and each segment holds the
/// rows of the table that carry the segment's date.
pub open spec fn is_cut_of(
    conversion: Conversion,
    table: DataFrame,
    keys: Seq<Option<Seq<char>>>,
    field: Seq<char>,
) -> bool {
    &&& frame_text(table, field) == Some(keys)
    &&& frame_rows(table).len() == keys.len()
    &&& carries_table(conversion, table, key_dates(keys))
}

/// Whether `outcome` is what partitioning `table` by its column `field` gives.
/// A table without such a column of strings fails; so does one with a row
/// that has no key or too short a key, with the first such row. On a table
/// whose rows all carry a date, success is a conversion of its keys that was
/// cut out of the table, and the only failure left is one in cutting or
/// encoding the segment of one of its dates.
pub open spec fn is_partition_of(
    outcome: Result<Conversion, ConvertError>,
    table: DataFrame,
    field: Seq<char>,
) -> bool {
    match frame_text(table, field) {
        None => outcome is Err && outcome->Err_0 is KeyColumn,
        Some(keys) => if all_dated(keys) {
            match outcome {
                Ok(conversion) => is_conversion_of(conversion, keys, field) && is_cut_of(
                    conversion,
                    table,
                    keys,
                    field,
                ),
                Err(error) => error is Segment && distinct_dates(
                    key_dates(keys),
                    keys.len(),
                ).contains(error->date@),
            }
        } else {
            match outcome {
                Ok(_) => false,
                Err(error) => error is Schema && is_first_fault(error->Schema_0, keys),
            }
        },
    }
}

/// Cuts a table into the segments of a plan made for its keys.
fn cut_segments(
    table: &DataFrame,
    keys: Vec<Option<String>>,
    groups: Vec<DateGroup>,
    field: &str,
) -> (outcome: Result<Conversion, ConvertError>)
    requires
        frame_text(*table, field@) == Some(key_views(keys@)),
        frame_rows(*table).len() == keys@.len(),
        all_dated(key_views(keys@)),
        is_plan_of(groups@, key_views(keys@)),
    ensures
        match outcome {
            Ok(conversion) => is_conversion_of(conversion, key_views(keys@), field@) && is_cut_of(
                conversion,
                *table,
                key_views(keys@),
                field@,
            ),
            Err(error) => error is Segment && distinct_dates(
                key_dates(key_views(keys@)),
                keys@.len(),
            ).contains(error->date@),
        },
{
    let ghost column = key_views(keys@);
    let ghost dates = key_dates(column);
    let mut segments: Vec<Segment> = Vec::new();
    let mut p: usize = 0;
    while p < groups.len()
        invariant
            p <= groups.len(),
            column == key_views(keys@),
            frame_text(*table, field@) == Some(column),
            column.len() == frame_rows(*table).len(),
            dates == key_dates(column),
            all_dated(column),
            is_plan_of(groups@, column),
            segments@.len() == p,
            forall|q: int|
                0 <= q < p ==> {
                    let segment = #[trigger] segments@[q];
                    &&& segment.date@ == distinct_dates(dates, dates.len())[q]
                    &&& segment.directory@ == DIRECTORY_PREFIX@ + segment.date@
                    &&& frame_text(segment.rows, field@) == Some(
                        kept(column, date_mask(dates, segment.date@)),
                    )
                    &&& is_parquet_file(segment.file@)
                    &&& parquet_row_count(segment.file@) == Some(
                        kept(column, date_mask(dates, segment.date@)).len(),
                    )
                },
            forall|q: int|
                0 <= q < p ==> #[trigger] frame_rows(segments@[q].rows) == kept(
                    frame_rows(*table),
                    date_mask(dates, segments@[q].date@),
                ),
            forall|q: int, name: Seq<char>|
                0 <= q < p && frame_text(*table, name) is Some ==> #[trigger] frame_text(
                    segments@[q].rows,
                    name,
                ) == Some(kept(frame_text(*table, name)->0, date_mask(dates, segments@[q].date@))),
        decreases groups.len() - p,
    {
        let group = &groups[p];
        let date = group.date.clone();
        assert(distinct_dates(dates, dates.len())[p as int] == date@);
        let rows = match filter_rows(table, &group.mask) {
            Ok(rows) => rows,
            Err(cause) => {
                return Err(ConvertError::Segment { date, cause });
            },
        };
        let file = match write_parquet(&rows) {
            Ok(file) => file,
            Err(cause) => {
                return Err(ConvertError::Segment { date, cause });
            },
        };
        proof {
            lemma_kept_count(frame_rows(*table), column, group.mask@, column.len());
        }
        let mut directory = String::from_str(DIRECTORY_PREFIX);
        directory.append(date.as_str());
        segments.push(Segment { date, directory, rows, file });
        p = p + 1;
    }
    Ok(Conversion { keys, segments })
}

/// Partitions a table by the date at the head of the strings in its column
/// `field`. Fails where the table has no such column of strings, and where a
/// row has no key or one shorter than a date; the first such row is reported.
/// On a table whose rows all carry a date, the only failure left is one that
/// `polars` reports while cutting or encoding a segment.
pub fn partition_table(table: &DataFrame, field: &str) -> (outcome: Result<
    Conversion,
    ConvertError,
>)
    ensures
        is_partition_of(outcome, *table, field@),
{
    let keys = match text_column(table, field) {
        Ok(keys) => keys,
        Err(cause) => {
            return Err(ConvertError::KeyColumn(cause));
        },
    };
    let groups = match plan_partitions(&keys) {
        Ok(groups) => groups,
        Err(fault) => {
            assert(!dated(key_views(keys@), fault_row(fault) as int));
            return Err(ConvertError::Schema(fault));
        },
    };
    cut_segments(table, keys, groups, field)
}

/// Whether `outcome` is what converting `table`, read from a log with the keys
/// `keys`, gives.
///
/// * A table without a column of strings under `field` fails.
/// * A table whose keys are not those of the log is refused, with the first
///   row at which the two part.
/// * A table with a row that has no key, or one too short to hold a date,
///   fails with the first such row.
/// * On any other table success is a conversion of the keys that was cut out
///   of the table, and the only failure left is one in cutting or encoding
///   the segment of one of its dates.
pub open spec fn is_conversion_of_table(
    outcome: Result<Conversion, ConvertError>,
    table: DataFrame,
    keys: Seq<Option<Seq<char>>>,
    field: Seq<char>,
) -> bool {
    match frame_text(table, field) {
        None => outcome is Err && outcome->Err_0 is KeyColumn,
        Some(column) => if column != keys {
            match outcome {
                Err(ConvertError::KeyMismatch { row }) => parts_at(keys, column, row as int),
                _ => false,
            }
        } else if !all_dated(column) {
            match outcome {
                Err(ConvertError::Schema(fault)) => is_first_fault(fault, column),
                _ => false,
            }
        } else {
            match outcome {
                Ok(conversion) => is_conversion_of(conversion, column, field) && is_cut_of(
                    conversion,
                    table,
                    column,
                    field,
                ),
                Err(error) => error is Segment && distinct_dates(
                    key_dates(column),
                    column.len(),
                ).contains(error->date@),
            }
        },
    }
}

/// Converts a table that was read from a log whose rows hold the keys `keys`:
/// checks that the table holds those keys under `key`, row by row, and cuts it
/// into one segment for each date among them.
pub fn convert_table(table: &DataFrame, keys: Vec<Option<String>>, key: &str) -> (outcome: Result<
    Conversion,
    ConvertError,
>)
    ensures
        is_conversion_of_table(outcome, *table, key_views(keys@), key@),
{
    let column = match text_column(table, key) {
        Ok(column) => column,
        Err(cause) => {
            return Err(ConvertError::KeyColumn(cause));
        },
    };
    match first_difference(&keys, &column) {
        Some(row) => {
            return Err(ConvertError::KeyMismatch { row });
        },
        None => {},
    }
    assert(keys@.len() == key_views(keys@).len());
    assert(column@.len() == key_views(column@).len());
    let groups = match plan_partitions(&keys) {
        Ok(groups) => groups,
        Err(fault) => {
            assert(!dated(key_views(keys@), fault_row(fault) as int));
            return Err(ConvertError::Schema(fault));
        },
    };
    cut_segments(table, keys, groups, key)
}

/// The rows of a log: its lines that are not blank, a byte-order mark at the
/// head of the log being no part of its first line.
pub open spec fn log_rows(input: Seq<u8>) -> Seq<Seq<u8>> {
    content_of(lines_of(unmarked(input)))
}

/// Whether `error` names the first row of a log that cannot be partitioned,
/// and says what is wrong with it: it is not JSON, or it holds no string
/// under the key field, or one too short to hold a date.
pub open spec fn is_log_fault(
    error: ConvertError,
    rows: Seq<Seq<u8>>,
    keys: Seq<Option<Seq<char>>>,
) -> bool {
    match error {
        ConvertError::Malformed { row } => {
            &&& row < keys.len()
            &&& json_value(rows[row as int]) is None
            &&& forall|i: int| 0 <= i < row ==> dated(keys, i)
        },
        ConvertError::Schema(fault) => {
            &&& is_first_fault(fault, keys)
            &&& json_value(rows[fault_row(fault) as int]) is Some
        },
        _ => false,
    }
}

/// Whether `outcome` is what converting the log `input` under the key field
/// `field` gives. The rows of the log are its lines that are not blank, and
/// the key of a row is the string that it holds under `field`.
///
/// * Where a row is not JSON, or has no key, or one too short to hold a date,
///   the conversion fails and names the first such row.
/// * A log without rows converts to no segments.
/// * Any other log is read as a table. Where that fails, the conversion fails
///   with the reader's error; where it gives a table, the outcome is what
///   [`convert_table`] gives on that table and the keys of the log.
pub open spec fn is_conversion_of_log(
    outcome: Result<Conversion, ConvertError>,
    input: Seq<u8>,
    field: Seq<char>,
) -> bool {
    let rows = log_rows(input);
    let keys = line_keys(rows, field);
    if !all_dated(keys) {
        outcome is Err && is_log_fault(outcome->Err_0, rows, keys)
    } else if rows.len() == 0 {
        outcome is Ok && outcome->Ok_0.keys@.len() == 0 && outcome->Ok_0.segments@.len() == 0
    } else {
        ||| outcome is Err && outcome->Err_0 is Table
        ||| exists|table: DataFrame| #[trigger] is_conversion_of_table(outcome, table, keys, field)
    }
}

/// Converts a log into one segment for each date at the head of the strings
/// that its rows hold under `key`. The library reads the keys of the rows
/// itself and refuses a log with a row that has no dated key; `polars` reads
/// the log as a table, which [`convert_table`] checks against those keys and
/// cuts.
pub fn convert_jsonl_parquet_with_key(input: &[u8], key: &str) -> (outcome: Result<
    Conversion,
    ConvertError,
>)
    ensures
        is_conversion_of_log(outcome, input@, key@),
{
    let text = strip_mark(input);
    let rows = content_lines(text);
    let keys = keys_of_lines(&rows, key);
    match row_dates(&keys) {
        Ok(_) => {},
        Err(fault) => {
            let row = match fault {
                SchemaError::MissingKey { row } => row,
                SchemaError::ShortKey { row } => row,
            };
            assert(row == fault_row(fault));
            assert(!dated(key_views(keys@), row as int));
            assert(line_views(rows@)[row as int] == rows@[row as int]@);
            assert(key_views(keys@)[row as int] == line_key(rows@[row as int]@, key@));
            return match parse_json(rows[row]) {
                Ok(_) => Err(ConvertError::Schema(fault)),
                Err(_) => Err(ConvertError::Malformed { row }),
            };
        },
    }
    if rows.len() == 0 {
        assert(key_views(keys@).len() == 0);
        return Ok(Conversion { keys, segments: Vec::new() });
    }
    let table = match read_json_lines(trim_line_feeds(text)) {
        Ok(table) => table,
        Err(cause) => {
            return Err(ConvertError::Table(cause));
        },
    };
    let ghost column = key_views(keys@);
    let outcome = convert_table(&table, keys, key);
    assert(is_conversion_of_table(outcome, table, column, key@));
    outcome
}

/// Converts a log into one segment for each date among its
/// `interval_end_time` values.
pub fn convert_jsonl_parquet(input: &[u8]) -> (outcome: Result<Conversion, ConvertError>)
    ensures
        is_conversion_of_log(outcome, input@, INTERVAL_FIELD@),
{
    convert_jsonl_parquet_with_key(input, INTERVAL_FIELD)
}

/// The keys of the rows of a segment.
pub open spec fn segment_keys(segment: Segment, field: Seq<char>) -> Seq<Option<Seq<char>>> {
    frame_text(segment.rows, field)->0
}

/// How many rows the segments hold together, counted by their keys.
pub open spec fn segment_rows(segments: Seq<Segment>, field: Seq<char>) -> nat
    decreases segments.len(),
{
    if segments.len() == 0 {
        0
    } else {
        segment_rows(segments.drop_last(), field) + segment_keys(segments.last(), field).len()
    }
}

/// How many rows the tables of the segments hold together.
pub open spec fn table_rows(segments: Seq<Segment>) -> nat
    decreases segments.len(),
{
    if segments.len() == 0 {
        0
    } else {
        table_rows(segments.drop_last()) + frame_rows(segments.last().rows).len()
    }
}

/// The first `count` segments hold the rows of the first `count` dates.
proof fn lemma_segment_rows(
    conversion: Conversion,
    keys: Seq<Option<Seq<char>>>,
    field: Seq<char>,
    count: nat,
)
    requires
        is_conversion_of(conversion, keys, field),
        count <= conversion.segments@.len(),
    ensures
        segment_rows(conversion.segments@.take(count as int), field) == total_rows(
            key_dates(keys),
            distinct_dates(key_dates(keys), keys.len()).take(count as int),
            keys.len(),
        ),
    decreases count,
{
    let dates = key_dates(keys);
    let firsts = distinct_dates(dates, dates.len());
    if count > 0 {
        let fewer = (count - 1) as nat;
        lemma_segment_rows(conversion, keys, field, fewer);
        let segment = conversion.segments@[fewer as int];
        assert(conversion.segments@.take(count as int).drop_last() == conversion.segments@.take(
            fewer as int,
        ));
        assert(conversion.segments@.take(count as int).last() == segment);
        assert(firsts.take(count as int).drop_last() == firsts.take(fewer as int));
        assert(firsts.take(count as int).last() == segment.date@);
        lemma_kept_count(keys, dates, date_mask(dates, segment.date@), keys.len());
    }
}

/// The tables of the first `count` segments hold the rows of the first
/// `count` dates.
proof fn lemma_table_rows(
    conversion: Conversion,
    table: DataFrame,
    keys: Seq<Option<Seq<char>>>,
    field: Seq<char>,
    count: nat,
)
    requires
        is_conversion_of(conversion, keys, field),
        is_cut_of(conversion, table, keys, field),
        count <= conversion.segments@.len(),
    ensures
        table_rows(conversion.segments@.take(count as int)) == total_rows(
            key_dates(keys),
            distinct_dates(key_dates(keys), keys.len()).take(count as int),
            keys.len(),
        ),
    decreases count,
{
    let dates = key_dates(keys);
    let firsts = distinct_dates(dates, dates.len());
    if count > 0 {
        let fewer = (count - 1) as nat;
        lemma_table_rows(conversion, table, keys, field, fewer);
        let segment = conversion.segments@[fewer as int];
        assert(conversion.segments@.take(count as int).drop_last() == conversion.segments@.take(
            fewer as int,
        ));
        assert(conversion.segments@.take(count as int).last() == segment);
        assert(firsts.take(count as int).drop_last() == firsts.take(fewer as int));
        assert(firsts.take(count as int).last() == segment.date@);
        assert(frame_rows(segment.rows) == kept(
            frame_rows(table),
            date_mask(dates, segment.date@),
        ));
        lemma_kept_count(frame_rows(table), dates, date_mask(dates, segment.date@), keys.len());
    }
}

/// The segments of a conversion carry different dates, every row of a segment
/// carries a key of the segment's date, and the segments hold together as many
/// rows as the log has.
pub proof fn lemma_conversion_is_complete(
    conversion: Conversion,
    keys: Seq<Option<Seq<char>>>,
    field: Seq<char>,
)
    requires
        all_dated(keys),
        is_conversion_of(conversion, keys, field),
    ensures
        forall|p: int, q: int|
            0 <= p < q < conversion.segments@.len() ==> conversion.segments@[p].date@
                != conversion.segments@[q].date@,
        forall|p: int, r: int|
            0 <= p < conversion.segments@.len() && 0 <= r < segment_keys(
                conversion.segments@[p],
                field,
            ).len() ==> {
                let key = #[trigger] segment_keys(conversion.segments@[p], field)[r];
                key is Some && has_date(key->0) && date_of(key->0) == conversion.segments@[p].date@
            },
        segment_rows(conversion.segments@, field) == keys.len(),
{
    let dates = key_dates(keys);
    let firsts = distinct_dates(dates, dates.len());
    lemma_distinct_dates(dates, dates.len());
    assert forall|p: int, r: int|
        0 <= p < conversion.segments@.len() && 0 <= r < segment_keys(
            conversion.segments@[p],
            field,
        ).len() implies {
        let key = #[trigger] segment_keys(conversion.segments@[p], field)[r];
        key is Some && has_date(key->0) && date_of(key->0) == conversion.segments@[p].date@
    } by {
        lemma_kept_rows_have_date(keys, conversion.segments@[p].date@, keys.len());
    }
    lemma_segment_rows(conversion, keys, field, conversion.segments@.len());
    assert(conversion.segments@.take(conversion.segments@.len() as int) == conversion.segments@);
    assert(firsts.take(firsts.len() as int) == firsts);
    lemma_partitions_hold_every_row(dates, dates.len());
}

/// The segments that were cut out of a table hold together as many rows as
/// the table: with each row in the segment of its own date, no row of the
/// table is left out and none is held twice.
pub proof fn lemma_segments_hold_the_table(
    conversion: Conversion,
    table: DataFrame,
    keys: Seq<Option<Seq<char>>>,
    field: Seq<char>,
)
    requires
        is_conversion_of(conversion, keys, field),
        is_cut_of(conversion, table, keys, field),
    ensures
        table_rows(conversion.segments@) == frame_rows(table).len(),
{
    let dates = key_dates(keys);
    let firsts = distinct_dates(dates, dates.len());
    lemma_table_rows(conversion, table, keys, field, conversion.segments@.len());
    assert(conversion.segments@.take(conversion.segments@.len() as int) == conversion.segments@);
    assert(firsts.take(firsts.len() as int) == firsts);
    lemma_partitions_hold_every_row(dates, dates.len());
}

/// Two conversions of rows with the same keys hold the same dates in the same
/// order, and under each date rows with the same keys.
pub proof fn lemma_conversion_is_determined(
    first: Conversion,
    second: Conversion,
    keys: Seq<Option<Seq<char>>>,
    field: Seq<char>,
)
    requires
        is_conversion_of(first, keys, field),
        is_conversion_of(second, keys, field),
    ensures
        reported_keys(first) == reported_keys(second),
        first.segments@.len() == second.segments@.len(),
        forall|p: int|
            0 <= p < first.segments@.len() ==> {
                &&& (#[trigger] first.segments@[p]).date@ == second.segments@[p].date@
                &&& first.segments@[p].directory@ == second.segments@[p].directory@
                &&& segment_keys(first.segments@[p], field) == segment_keys(
                    second.segments@[p],
                    field,
                )
            },
{
}

/// How many rows the files of the segments declare together.
pub open spec fn file_rows(segments: Seq<Segment>) -> nat
    decreases segments.len(),
{
    if segments.len() == 0 {
        0
    } else {
        file_rows(segments.drop_last()) + parquet_row_count(segments.last().file@)->0
    }
}

/// The files of the first `count` segments declare the rows of the first
/// `count` dates.
proof fn lemma_file_rows(
    conversion: Conversion,
    keys: Seq<Option<Seq<char>>>,
    field: Seq<char>,
    count: nat,
)
    requires
        is_conversion_of(conversion, keys, field),
        count <= conversion.segments@.len(),
    ensures
        file_rows(conversion.segments@.take(count as int)) == segment_rows(
            conversion.segments@.take(count as int),
            field,
        ),
    decreases count,
{
    if count > 0 {
        let fewer = (count - 1) as nat;
        lemma_file_rows(conversion, keys, field, fewer);
        let segment = conversion.segments@[fewer as int];
        assert(conversion.segments@.take(count as int).drop_last() == conversion.segments@.take(
            fewer as int,
        ));
        assert(conversion.segments@.take(count as int).last() == segment);
    }
}

/// The files of a conversion declare together as many rows as the log has,
/// and the file of each segment as many as carry the segment's date.
pub proof fn lemma_files_hold_every_row(
    conversion: Conversion,
    keys: Seq<Option<Seq<char>>>,
    field: Seq<char>,
)
    requires
        all_dated(keys),
        is_conversion_of(conversion, keys, field),
    ensures
        file_rows(conversion.segments@) == keys.len(),
        forall|p: int|
            0 <= p < conversion.segments@.len() ==> parquet_row_count(
                (#[trigger] conversion.segments@[p]).file@,
            ) == Some(segment_keys(conversion.segments@[p], field).len()),
{
    lemma_file_rows(conversion, keys, field, conversion.segments@.len());
    assert(conversion.segments@.take(conversion.segments@.len() as int) == conversion.segments@);
    lemma_conversion_is_complete(conversion, keys, field);
}

/// A conversion of a log, where it succeeds, partitions the keys of the log.
pub proof fn lemma_log_conversion_partitions(
    input: Seq<u8>,
    field: Seq<char>,
    conversion: Conversion,
)
    requires
        is_conversion_of_log(Ok(conversion), input, field),
    ensures
        all_dated(line_keys(log_rows(input), field)),
        is_conversion_of(conversion, line_keys(log_rows(input), field), field),
{
    let keys = line_keys(log_rows(input), field);
    let outcome: Result<Conversion, ConvertError> = Ok(conversion);
    if log_rows(input).len() == 0 {
        assert(reported_keys(conversion) =~= keys);
        assert(key_dates(keys) =~= Seq::<Seq<char>>::empty());
    } else {
        let table = choose|table: DataFrame| #[trigger]
            is_conversion_of_table(outcome, table, keys, field);
        assert(is_conversion_of_table(outcome, table, keys, field));
    }
}

/// Two conversions of the same log hold the same keys, the same dates in the
/// same order, under each date rows with the same keys, and files that
/// declare the same number of rows.
pub proof fn lemma_log_conversion_is_determined(
    input: Seq<u8>,
    field: Seq<char>,
    first: Conversion,
    second: Conversion,
)
    requires
        is_conversion_of_log(Ok(first), input, field),
        is_conversion_of_log(Ok(second), input, field),
    ensures
        reported_keys(first) == reported_keys(second),
        first.segments@.len() == second.segments@.len(),
        forall|p: int|
            0 <= p < first.segments@.len() ==> {
                &&& (#[trigger] first.segments@[p]).date@ == second.segments@[p].date@
                &&& first.segments@[p].directory@ == second.segments@[p].directory@
                &&& segment_keys(first.segments@[p], field) == segment_keys(
                    second.segments@[p],
                    field,
                )
                &&& parquet_row_count(first.segments@[p].file@) == parquet_row_count(
                    second.segments@[p].file@,
                )
            },
{
    let keys = line_keys(log_rows(input), field);
    lemma_log_conversion_partitions(input, field, first);
    lemma_log_conversion_partitions(input, field, second);
    lemma_conversion_is_determined(first, second, keys, field);
}

} // verus!
