use gha_ml_pipeline::convert::{
    convert_jsonl_parquet, convert_jsonl_parquet_with_key, convert_table, partition_table,
    ConvertError, DIRECTORY_PREFIX, SEGMENT_FILE,
};
use gha_ml_pipeline::partition::{first_dates, plan_partitions, row_dates, rows_of_date, SchemaError};
use polars::prelude::{DataFrame, ParquetReader, SerReader};
use std::io::Cursor;

fn read_back(file: &[u8]) -> DataFrame {
    ParquetReader::new(Cursor::new(file.to_vec())).finish().unwrap()
}

fn keys_of(table: &DataFrame, name: &str) -> Vec<Option<String>> {
    table
        .column(name)
        .unwrap()
        .str()
        .unwrap()
        .iter()
        .map(|cell| cell.map(|text| text.to_string()))
        .collect()
}

fn some(texts: &[&str]) -> Vec<Option<String>> {
    texts.iter().map(|t| Some(t.to_string())).collect()
}

#[test]
fn convert_jsonl_parquet_test_convert_jsonl_parquet() {
    let input = "{\"interval_end_time\":\"2025-01-01T00:00:00Z\",\"foo\":42}\n";
    let converted = convert_jsonl_parquet(input.as_bytes()).unwrap();

    assert_eq!(converted.segments.len(), 1);
    let part = &converted.segments[0];
    assert_eq!(part.directory, "date=2025-01-01");
    assert_eq!(SEGMENT_FILE, "part.parquet");

    let df = read_back(&part.file);
    assert_eq!(df.height(), 1);
    assert_eq!(df.column("foo").unwrap().i64().unwrap().get(0), Some(42));
}

#[test]
fn lib_test_convert_jsonl_parquet() {
    let input = format!(
        "{}\n",
        "{\"interval_end_time\":\"2025-01-01T00:00:00Z\",\"foo\":42}"
    );
    let converted = convert_jsonl_parquet(input.as_bytes()).unwrap();

    assert_eq!(converted.segments.len(), 1);
    let part = &converted.segments[0];
    assert_eq!(format!("{}{}", DIRECTORY_PREFIX, part.date), "date=2025-01-01");
    assert_eq!(part.directory, "date=2025-01-01");

    let df = read_back(&part.file);
    assert_eq!(df.height(), 1);
    let foo_col = df.column("foo").unwrap().i64().unwrap();
    assert_eq!(foo_col.get(0), Some(42));
    assert_eq!(part.rows.height(), 1);
    assert_eq!(part.rows.column("foo").unwrap().i64().unwrap().get(0), Some(42));
}

#[test]
fn rows_go_to_the_partition_of_their_date() {
    let input = b"{\"interval_end_time\":\"2025-01-02T00:00:00Z\",\"n\":1}\n\
{\"interval_end_time\":\"2025-01-01T00:05:00Z\",\"n\":2}\n\
{\"interval_end_time\":\"2025-01-02T23:55:00Z\",\"n\":3}\n\
{\"interval_end_time\":\"2025-01-03T00:00:00Z\",\"n\":4}\n\
{\"interval_end_time\":\"2025-01-01T12:00:00Z\",\"n\":5}\n";
    let converted = convert_jsonl_parquet(input).unwrap();
    assert_eq!(converted.keys.len(), 5);
    let dates: Vec<&str> = converted.segments.iter().map(|s| s.date.as_str()).collect();
    assert_eq!(dates, vec!["2025-01-02", "2025-01-01", "2025-01-03"]);
    let directories: Vec<&str> = converted.segments.iter().map(|s| s.directory.as_str()).collect();
    assert_eq!(directories, vec!["date=2025-01-02", "date=2025-01-01", "date=2025-01-03"]);

    let expected = vec![vec![1i64, 3], vec![2, 5], vec![4]];
    let mut total = 0;
    for (segment, numbers) in converted.segments.iter().zip(expected.iter()) {
        for table in [segment.rows.clone(), read_back(&segment.file)] {
            assert_eq!(table.height(), numbers.len());
            let found: Vec<Option<i64>> = table.column("n").unwrap().i64().unwrap().iter().collect();
            let wanted: Vec<Option<i64>> = numbers.iter().map(|n| Some(*n)).collect();
            assert_eq!(found, wanted);
            for key in keys_of(&table, "interval_end_time") {
                assert!(key.unwrap().starts_with(segment.date.as_str()));
            }
        }
        total += segment.rows.height();
    }
    assert_eq!(total, 5);
}

#[test]
fn converting_twice_gives_the_same_partitions() {
    let input = b"{\"interval_end_time\":\"2025-03-01T00:00:00Z\",\"n\":1}\n\
{\"interval_end_time\":\"2025-03-02T00:00:00Z\",\"n\":2}\n\
{\"interval_end_time\":\"2025-03-01T00:05:00Z\",\"n\":3}\n";
    let first = convert_jsonl_parquet(input).unwrap();
    let second = convert_jsonl_parquet(input).unwrap();
    assert_eq!(first.keys, second.keys);
    assert_eq!(first.segments.len(), second.segments.len());
    for (a, b) in first.segments.iter().zip(second.segments.iter()) {
        assert_eq!(a.date, b.date);
        assert_eq!(a.directory, b.directory);
        assert!(a.rows.equals_missing(&b.rows));
        assert!(read_back(&a.file).equals_missing(&read_back(&b.file)));
    }
}

#[test]
fn a_log_without_lines_has_no_partitions() {
    for input in [&b""[..], &b"\n"[..], &b"\n\n\n"[..], &b"  "[..], &b" \t\r\n\r\n"[..], &b"\r"[..]] {
        let converted = convert_jsonl_parquet(input).unwrap();
        assert!(converted.keys.is_empty());
        assert!(converted.segments.is_empty());
    }
}

#[test]
fn the_last_line_needs_no_line_feed() {
    let with = convert_jsonl_parquet(b"{\"interval_end_time\":\"2025-01-01T00:00:00Z\"}\n{\"interval_end_time\":\"2025-01-02T00:00:00Z\"}\n\n").unwrap();
    let without = convert_jsonl_parquet(b"{\"interval_end_time\":\"2025-01-01T00:00:00Z\"}\n{\"interval_end_time\":\"2025-01-02T00:00:00Z\"}").unwrap();
    assert_eq!(with.keys, without.keys);
    assert_eq!(with.keys, some(&["2025-01-01T00:00:00Z", "2025-01-02T00:00:00Z"]));
    assert_eq!(with.segments.len(), 2);
    assert_eq!(without.segments.len(), 2);
}

#[test]
fn a_short_key_fails_the_conversion() {
    let input = b"{\"interval_end_time\":\"2025-01-01T00:00:00Z\"}\n{\"interval_end_time\":\"t1\"}\n";
    match convert_jsonl_parquet(input) {
        Err(ConvertError::Schema(SchemaError::ShortKey { row })) => assert_eq!(row, 1),
        other => panic!("{:?}", other.map(|c| c.keys)),
    }
}

#[test]
fn a_row_without_key_fails_the_conversion() {
    let input = b"{\"interval_end_time\":\"2025-01-01T00:00:00Z\",\"v\":1}\n{\"v\":2}\n";
    match convert_jsonl_parquet(input) {
        Err(ConvertError::Schema(SchemaError::MissingKey { row })) => assert_eq!(row, 1),
        other => panic!("{:?}", other.map(|c| c.keys)),
    }
}

#[test]
fn a_log_without_string_keys_fails_the_conversion() {
    match convert_jsonl_parquet(b"{\"timestamp\":\"2025-01-01T00:00:00Z\"}\n") {
        Err(ConvertError::Schema(SchemaError::MissingKey { row })) => assert_eq!(row, 0),
        other => panic!("{:?}", other.map(|c| c.keys)),
    }
    let numbers = b"{\"interval_end_time\":\"2025-01-01T00:00:00Z\"}\n{\"interval_end_time\":20250101000000}\n";
    match convert_jsonl_parquet(numbers) {
        Err(ConvertError::Schema(SchemaError::MissingKey { row })) => assert_eq!(row, 1),
        other => panic!("{:?}", other.map(|c| c.keys)),
    }
    match convert_jsonl_parquet(b"[\"2025-01-01T00:00:00Z\"]\n") {
        Err(ConvertError::Schema(SchemaError::MissingKey { row })) => assert_eq!(row, 0),
        other => panic!("{:?}", other.map(|c| c.keys)),
    }
}

#[test]
fn a_malformed_line_fails_the_conversion() {
    match convert_jsonl_parquet(b"{\"interval_end_time\":\"2025-01-01T00:00:00Z\"}\n\nnot json\n") {
        Err(ConvertError::Malformed { row }) => assert_eq!(row, 1),
        other => panic!("{:?}", other.map(|c| c.keys)),
    }
    match convert_jsonl_parquet(b"{\"interval_end_time\":\"2025-01-01T00:00:00Z\"\n") {
        Err(ConvertError::Malformed { row }) => assert_eq!(row, 0),
        other => panic!("{:?}", other.map(|c| c.keys)),
    }
    match convert_jsonl_parquet(b"{\"v\":1}\nnot json\n") {
        Err(ConvertError::Schema(SchemaError::MissingKey { row })) => assert_eq!(row, 0),
        other => panic!("{:?}", other.map(|c| c.keys)),
    }
}

#[test]
fn a_log_that_is_no_table_fails_the_conversion() {
    let input = b"{\"interval_end_time\":\"2025-01-01T00:00:00Z\",\"x\":1}\n{\"interval_end_time\":\"2025-01-01T00:05:00Z\",\"x\":true}\n";
    assert!(matches!(convert_jsonl_parquet(input), Err(ConvertError::Table(_))));
}

#[test]
fn a_table_with_other_keys_than_the_log_is_refused() {
    let input = b"{\"interval_end_time\":\"2025-01-01T00:00:00Z\",\"interval_end_time\":\"2025-01-02T00:00:00Z\"}\n";
    match convert_jsonl_parquet(input) {
        Err(ConvertError::KeyMismatch { row }) => assert_eq!(row, 0),
        other => panic!("{:?}", other.map(|c| c.keys)),
    }
}

#[test]
fn numbers_beyond_64_bits_are_taken() {
    let input = b"{\"interval_end_time\":\"2025-01-01T00:00:00Z\",\"x\":9223372036854775808}\n";
    let converted = convert_jsonl_parquet(input).unwrap();
    assert_eq!(converted.segments.len(), 1);
    assert_eq!(converted.segments[0].rows.height(), 1);
}

#[test]
fn segment_files_are_framed_as_parquet() {
    let input = b"{\"interval_end_time\":\"2025-01-01T00:00:00Z\",\"n\":1}\n{\"interval_end_time\":\"2025-01-02T00:00:00Z\",\"n\":2}\n";
    let converted = convert_jsonl_parquet(input).unwrap();
    assert_eq!(converted.segments.len(), 2);
    for segment in &converted.segments {
        assert!(segment.file.len() >= 8);
        assert_eq!(&segment.file[..4], b"PAR1");
        assert_eq!(&segment.file[segment.file.len() - 4..], b"PAR1");
    }
}

#[test]
fn blank_lines_are_no_rows() {
    let k1 = "{\"interval_end_time\":\"2025-01-01T00:00:00Z\"}";
    let k2 = "{\"interval_end_time\":\"2025-01-02T00:00:00Z\"}";
    let input = format!("\n{}\n\t \r\n{}\r\n  \n\n", k1, k2);
    let converted = convert_jsonl_parquet(input.as_bytes()).unwrap();
    assert_eq!(converted.keys, some(&["2025-01-01T00:00:00Z", "2025-01-02T00:00:00Z"]));
    assert_eq!(converted.segments.len(), 2);
    assert_eq!(converted.segments[0].rows.height(), 1);
    assert_eq!(converted.segments[1].rows.height(), 1);
}

#[test]
fn a_segment_that_cannot_be_encoded_fails_the_conversion() {
    let input = b"{\"interval_end_time\":\"2025-01-01T00:00:00Z\",\"x\":{}}\n";
    match convert_jsonl_parquet(input) {
        Err(ConvertError::Segment { date, .. }) => assert_eq!(date, "2025-01-01"),
        other => panic!("{:?}", other.map(|c| c.keys)),
    }
}

#[test]
fn partition_table_goes_by_the_named_column() {
    let converted = convert_jsonl_parquet(
        b"{\"interval_end_time\":\"2025-01-01T00:00:00Z\",\"timestamp\":\"2024-12-31T23:00:00Z\"}\n\
{\"interval_end_time\":\"2025-01-01T00:05:00Z\",\"timestamp\":\"2025-01-01T00:00:00Z\"}\n",
    )
    .unwrap();
    assert_eq!(converted.segments.len(), 1);
    let table = converted.segments[0].rows.clone();
    let again = partition_table(&table, "timestamp").unwrap();
    assert_eq!(again.keys, some(&["2024-12-31T23:00:00Z", "2025-01-01T00:00:00Z"]));
    assert_eq!(again.segments.len(), 2);
    assert_eq!(again.segments[0].date, "2024-12-31");
    assert_eq!(again.segments[1].date, "2025-01-01");
    assert_eq!(
        keys_of(&again.segments[0].rows, "interval_end_time"),
        some(&["2025-01-01T00:00:00Z"])
    );
    assert_eq!(
        keys_of(&again.segments[1].rows, "interval_end_time"),
        some(&["2025-01-01T00:05:00Z"])
    );
    assert!(matches!(partition_table(&table, "absent"), Err(ConvertError::KeyColumn(_))));
}

#[test]
fn plan_partitions_marks_the_rows_of_each_date() {
    let keys = some(&[
        "2025-01-02T00:00:00Z",
        "2025-01-01T00:00:00Z",
        "2025-01-02T00:05:00Z",
        "2025-01-02",
    ]);
    let groups = plan_partitions(&keys).unwrap();
    assert_eq!(groups.len(), 2);
    assert_eq!(groups[0].date, "2025-01-02");
    assert_eq!(groups[0].mask, vec![true, false, true, true]);
    assert_eq!(groups[1].date, "2025-01-01");
    assert_eq!(groups[1].mask, vec![false, true, false, false]);
    let rows: usize = groups.iter().map(|g| g.mask.iter().filter(|m| **m).count()).sum();
    assert_eq!(rows, keys.len());
    assert!(plan_partitions(&Vec::new()).unwrap().is_empty());
}

#[test]
fn plan_partitions_reports_the_first_faulty_row() {
    let mut keys = some(&["2025-01-02T00:00:00Z", "2025-01-0", "x"]);
    keys.push(None);
    assert_eq!(plan_partitions(&keys).unwrap_err(), SchemaError::ShortKey { row: 1 });
    keys[1] = None;
    assert_eq!(plan_partitions(&keys).unwrap_err(), SchemaError::MissingKey { row: 1 });
    assert_eq!(row_dates(&keys).unwrap_err(), SchemaError::MissingKey { row: 1 });
}

#[test]
fn dates_are_listed_in_the_order_of_first_occurrence() {
    let keys = some(&["2025-01-02T1", "2025-01-01T2", "2025-01-02T3", "2025-01-03T4", "2025-01-01T5"]);
    let dates = row_dates(&keys).unwrap();
    assert_eq!(
        dates,
        vec!["2025-01-02", "2025-01-01", "2025-01-02", "2025-01-03", "2025-01-01"]
    );
    assert_eq!(first_dates(&dates), vec!["2025-01-02", "2025-01-01", "2025-01-03"]);
    assert_eq!(
        rows_of_date(&dates, &"2025-01-01".to_string()),
        vec![false, true, false, false, true]
    );
    assert_eq!(rows_of_date(&dates, &"2025-02-01".to_string()), vec![false; 5]);
}

#[test]
fn the_key_field_decides_the_partitions() {
    let input = b"{\"interval_end_time\":\"2025-01-01T00:00:00Z\",\"timestamp\":\"2024-12-31T23:55:00Z\"}\n\
{\"interval_end_time\":\"2025-01-01T00:05:00Z\",\"timestamp\":\"2025-01-01T00:00:00Z\"}\n";
    let by_interval = convert_jsonl_parquet(input).unwrap();
    assert_eq!(by_interval.segments.len(), 1);
    assert_eq!(by_interval.segments[0].directory, "date=2025-01-01");
    let by_timestamp = convert_jsonl_parquet_with_key(input, "timestamp").unwrap();
    let directories: Vec<&str> =
        by_timestamp.segments.iter().map(|s| s.directory.as_str()).collect();
    assert_eq!(directories, vec!["date=2024-12-31", "date=2025-01-01"]);
    assert!(matches!(
        convert_jsonl_parquet_with_key(input, "absent"),
        Err(ConvertError::Schema(SchemaError::MissingKey { row: 0 }))
    ));
}

#[test]
fn a_byte_order_mark_is_no_part_of_the_log() {
    let input = b"\xEF\xBB\xBF{\"interval_end_time\":\"2025-01-01T00:00:00Z\",\"foo\":42}\n{\"interval_end_time\":\"2025-01-02T00:00:00Z\",\"foo\":43}\n";
    let converted = convert_jsonl_parquet(input).unwrap();
    assert_eq!(converted.keys, some(&["2025-01-01T00:00:00Z", "2025-01-02T00:00:00Z"]));
    assert_eq!(converted.segments.len(), 2);
    assert_eq!(converted.segments[0].directory, "date=2025-01-01");
    let df = read_back(&converted.segments[0].file);
    assert_eq!(df.column("foo").unwrap().i64().unwrap().get(0), Some(42));
    let only_mark = convert_jsonl_parquet(b"\xEF\xBB\xBF\n").unwrap();
    assert!(only_mark.segments.is_empty());
    // a mark inside the log is part of its line
    match convert_jsonl_parquet(b"{\"interval_end_time\":\"2025-01-01T00:00:00Z\"}\n\xEF\xBB\xBF{\"interval_end_time\":\"2025-01-02T00:00:00Z\"}\n") {
        Err(ConvertError::Malformed { row }) => assert_eq!(row, 1),
        other => panic!("{:?}", other.map(|c| c.keys)),
    }
}

#[test]
fn segment_files_declare_the_rows_of_their_date() {
    let input = b"{\"interval_end_time\":\"2025-01-02T00:00:00Z\",\"n\":1}\n\
{\"interval_end_time\":\"2025-01-01T00:05:00Z\",\"n\":2}\n\
{\"interval_end_time\":\"2025-01-02T23:55:00Z\",\"n\":3}\n\
{\"interval_end_time\":\"2025-01-02T23:56:00Z\",\"n\":4}\n";
    let converted = convert_jsonl_parquet(input).unwrap();
    let declared: Vec<usize> = converted
        .segments
        .iter()
        .map(|s| ParquetReader::new(Cursor::new(s.file.clone())).num_rows().unwrap())
        .collect();
    assert_eq!(declared, vec![3, 1]);
    let held: Vec<usize> = converted.segments.iter().map(|s| s.rows.height()).collect();
    assert_eq!(held, declared);
    assert_eq!(declared.iter().sum::<usize>(), converted.keys.len());
}

#[test]
fn convert_table_checks_the_table_against_the_keys() {
    let input = b"{\"interval_end_time\":\"2025-01-01T00:00:00Z\",\"n\":1}\n\
{\"interval_end_time\":\"2025-01-02T00:00:00Z\",\"n\":2}\n\
{\"interval_end_time\":\"2025-01-01T00:05:00Z\",\"n\":3}\n";
    let whole = partition_table(
        &convert_jsonl_parquet(input).unwrap().segments[0].rows,
        "n",
    );
    assert!(matches!(whole, Err(ConvertError::KeyColumn(_))));
    let first = convert_jsonl_parquet(input).unwrap();
    let table = first.segments[0].rows.clone();
    let keys = some(&["2025-01-01T00:00:00Z", "2025-01-01T00:05:00Z"]);

    let same = convert_table(&table, keys.clone(), "interval_end_time").unwrap();
    assert_eq!(same.keys, keys);
    assert_eq!(same.segments.len(), 1);
    assert_eq!(same.segments[0].date, "2025-01-01");
    assert_eq!(same.segments[0].rows.height(), 2);

    let other = some(&["2025-01-01T00:00:00Z", "2025-01-03T00:05:00Z"]);
    assert!(matches!(
        convert_table(&table, other, "interval_end_time"),
        Err(ConvertError::KeyMismatch { row: 1 })
    ));
    let longer = some(&["2025-01-01T00:00:00Z", "2025-01-01T00:05:00Z", "2025-01-01T00:10:00Z"]);
    assert!(matches!(
        convert_table(&table, longer, "interval_end_time"),
        Err(ConvertError::KeyMismatch { row: 2 })
    ));
    assert!(matches!(
        convert_table(&table, Vec::new(), "interval_end_time"),
        Err(ConvertError::KeyMismatch { row: 0 })
    ));
    let mut missing = keys.clone();
    missing[0] = None;
    assert!(matches!(
        convert_table(&table, missing, "interval_end_time"),
        Err(ConvertError::KeyMismatch { row: 0 })
    ));
    assert!(matches!(
        convert_table(&table, keys, "absent"),
        Err(ConvertError::KeyColumn(_))
    ));
}

#[test]
fn convert_table_refuses_keys_without_date() {
    let first = convert_jsonl_parquet(
        b"{\"interval_end_time\":\"2025-01-01T00:00:00Z\",\"tag\":\"a\"}\n{\"interval_end_time\":\"2025-01-01T00:05:00Z\",\"tag\":\"b\"}\n",
    )
    .unwrap();
    let table = first.segments[0].rows.clone();
    assert!(matches!(
        convert_table(&table, some(&["a", "b"]), "tag"),
        Err(ConvertError::Schema(SchemaError::ShortKey { row: 0 }))
    ));
}
