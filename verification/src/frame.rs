//! The boundary to `polars`: tables are carried as `polars` data frames, and
//! everything this library knows of one comes from the few calls below. Their
//! contracts are taken on trust from `polars`; nothing here is proved.

use crate::keys::text_of;
use crate::lines::LINE_FEED;
use crate::partition::kept;
use polars::prelude::{
    BooleanChunked, DataFrame, JsonFormat, JsonReader, ParquetWriter, PolarsError, SerReader,
};
use std::io::Cursor;
use vstd::prelude::*;

verus! {

/// `polars::prelude::DataFrame`, opaque to the verifier.
#[verifier::external_type_specification]
#[verifier::external_body]
pub struct ExDataFrame(DataFrame);

/// `polars::prelude::Column`, opaque to the verifier. No function here takes or
/// gives one: the verifier asks for it because a data frame can be indexed
/// into its columns.
#[verifier::external_type_specification]
#[verifier::external_body]
pub struct ExColumn(polars::prelude::Column);

/// `polars::prelude::PolarsError`, opaque to the verifier.
#[verifier::external_type_specification]
#[verifier::external_body]
pub struct ExPolarsError(PolarsError);

/// The cells of the string column `name` of a table, row by row, a null cell
/// being `None`. A table without a column of that name, or whose column of that
/// name does not hold strings, has `None`.
pub uninterp spec fn frame_text(table: DataFrame, name: Seq<char>) -> Option<
    Seq<Option<Seq<char>>>,
>;

/// The rows of a table, in order. A row is what its cells hold: under the name
/// of each column, the type and the value of its cell, written out in bytes.
/// Nothing here reads a row; the name serves to say which rows a table holds.
/// Every column of a table holds one cell for each row.
pub uninterp spec fn frame_rows(table: DataFrame) -> Seq<Map<Seq<char>, Seq<u8>>>;

/// The four bytes that a Parquet file begins and ends with: `PAR1`.
pub open spec fn parquet_magic() -> Seq<u8> {
    seq![80u8, 65u8, 82u8, 49u8]
}

/// Whether bytes are framed as a Parquet file: they begin and end with the
/// format's four magic bytes.
pub open spec fn is_parquet_file(bytes: Seq<u8>) -> bool {
    &&& bytes.len() >= 8
    &&& bytes.subrange(0, 4) == parquet_magic()
    &&& bytes.subrange(bytes.len() - 4, bytes.len() as int) == parquet_magic()
}

/// The number of rows that the footer of a Parquet file declares, as
/// `ParquetReader::num_rows` reads it, or `None` where the bytes have no
/// footer that it can read. The footer is found from the end of the bytes and
/// decoded from them alone.
pub uninterp spec fn parquet_row_count(file: Seq<u8>) -> Option<nat>;

/// Calls `JsonReader::finish` in the JSON-lines format on a text held in
/// memory. Trusted, and nothing is claimed of the table that comes back. It
/// is given no name, because it is no function of the text: under a column of
/// strings the reader writes out a value that is no string, and for an object
/// it walks the members in the order of a hash map that each process seeds
/// anew. The reader samples line lengths from the text and skips one byte past
/// a line feed that it found; where the line feed is the last byte of the text
/// that slice can start outside the text, so such a text is not handed over.
#[verifier::external_body]
pub(crate) fn read_json_lines(text: &[u8]) -> (table: Result<DataFrame, PolarsError>)
    requires
        text@.len() == 0 || text@.last() != LINE_FEED,
{
    JsonReader::new(Cursor::new(text)).with_json_format(JsonFormat::JsonLines).finish()
}

/// Calls `DataFrame::column` and `Column::str`, and copies the cells out.
/// Trusted: it fails exactly where the table has no string column of that
/// name, and otherwise hands out the cells that [`frame_text`] names, one for
/// each row of the table.
#[verifier::external_body]
pub(crate) fn text_column(table: &DataFrame, name: &str) -> (column: Result<
    Vec<Option<String>>,
    PolarsError,
>)
    ensures
        match column {
            Ok(cells) => frame_text(*table, name@) == Some(
                cells@.map_values(|cell: Option<String>| text_of(cell)),
            ) && cells@.len() == frame_rows(*table).len(),
            Err(_) => frame_text(*table, name@) is None,
        },
{
    let cells = table.column(name)?.str()?;
    Ok(cells.iter().map(|cell| cell.map(|text| text.to_string())).collect())
}

/// Calls `DataFrame::filter` with a mask that has no nulls. Trusted: where it
/// succeeds on a mask with one entry for each row, the table that comes back
/// holds the rows whose mask is set, in their order, and so every string
/// column holds the cells of those rows.
#[verifier::external_body]
pub(crate) fn filter_rows(table: &DataFrame, mask: &Vec<bool>) -> (rows: Result<
    DataFrame,
    PolarsError,
>)
    ensures
        rows is Ok && mask@.len() == frame_rows(*table).len() ==> frame_rows(rows->Ok_0) == kept(
            frame_rows(*table),
            mask@,
        ),
        rows is Ok && mask@.len() == frame_rows(*table).len() ==> forall|name: Seq<char>|
            frame_text(*table, name) is Some ==> #[trigger] frame_text(rows->Ok_0, name) == Some(
                kept(frame_text(*table, name)->0, mask@),
            ),
{
    table.filter(&mask.iter().copied().collect::<BooleanChunked>())
}

/// Calls `ParquetWriter::finish` on a copy of the table, writing into memory.
/// Trusted: what it writes on success begins with the format's magic bytes
/// and ends with them, after the footer, and the footer declares as many rows
/// as the table has: the writer adds up the rows of the batches that it
/// wrote, which are those of the table. No more is claimed of the bytes: what
/// the writer accepts depends on the environment of the process as well as on
/// the table, so its outcome is given no name.
#[verifier::external_body]
pub(crate) fn write_parquet(table: &DataFrame) -> (file: Result<Vec<u8>, PolarsError>)
    ensures
        file is Ok ==> is_parquet_file(file->Ok_0@),
        file is Ok ==> parquet_row_count(file->Ok_0@) == Some(frame_rows(*table).len()),
{
    let mut bytes = Vec::new();
    let mut rows = table.clone();
    ParquetWriter::new(&mut bytes).finish(&mut rows)?;
    Ok(bytes)
}

} // verus!
