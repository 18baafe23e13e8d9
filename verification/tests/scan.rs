use ndjson_scan::ScanError;
use ndjson_scan::batch::Batch;
use ndjson_scan::plan::ColumnStatistics;
use ndjson_scan::plan::FileDesc;
use ndjson_scan::plan::FileScanConfig;
use ndjson_scan::plan::NdJsonExec;
use ndjson_scan::plan::Partitioning;
use ndjson_scan::plan::Statistics;
use ndjson_scan::schema::Field;
use ndjson_scan::schema::FieldType;
use ndjson_scan::schema::JsonValue;
use ndjson_scan::schema::Schema;

fn test_data() -> Vec<u8> {
    let mut d = Vec::new();
    d.extend_from_slice(b"{\"a\":1, \"b\":2, \"c\":false, \"d\":\"4\"}\n");
    d.extend_from_slice(b"{\"a\":-10, \"b\":1, \"c\":true, \"d\":\"4\"}\n");
    d.extend_from_slice(b"{\"a\":2, \"b\":5, \"c\":false, \"d\":\"text\"}\n");
    d.extend_from_slice(b"{\"a\":1, \"b\":2, \"c\":false, \"d\":\"4\"}\n");
    d
}

fn abcd_fields() -> Vec<Field> {
    vec![
        Field::new(b"a".to_vec(), FieldType::Int64),
        Field::new(b"b".to_vec(), FieldType::Int64),
        Field::new(b"c".to_vec(), FieldType::Boolean),
        Field::new(b"d".to_vec(), FieldType::Utf8),
    ]
}

fn file(path: &[u8]) -> FileDesc {
    FileDesc { path: path.to_vec(), partition_values: Vec::new() }
}

fn config(
    fields: Vec<Field>,
    projection: Option<Vec<usize>>,
    limit: Option<usize>,
) -> FileScanConfig {
    FileScanConfig {
        file_groups: vec![vec![file(b"tests/rows/1.txt")]],
        file_schema: Schema::new(fields),
        projection,
        statistics: Statistics::unknown(),
        limit,
        table_partition_cols: Vec::new(),
    }
}

fn int_values(batch: &Batch, col: usize) -> Vec<i64> {
    batch
        .column(col)
        .iter()
        .map(|v| match v {
            JsonValue::Int(n) => *n,
            other => panic!("expected an integer cell, got {:?}", other),
        })
        .collect()
}

#[test]
fn nd_json_exec_file_without_projection() {
    let exec = NdJsonExec::new(config(abcd_fields(), None, Some(3)));
    let mut stream = exec.execute(0, 1024, vec![test_data()]).unwrap();
    let batch = stream.next().unwrap().unwrap();

    assert_eq!(batch.num_rows(), 3);
    let values = int_values(&batch, 0);
    assert_eq!(values[0], 1);
    assert_eq!(values[1], -10);
    assert_eq!(values[2], 2);
}

#[test]
fn nd_json_exec_file_with_missing_column() {
    let mut fields = abcd_fields();
    fields.push(Field::new(b"missing_col".to_vec(), FieldType::Int32));
    let missing_field_idx = fields.len() - 1;

    let exec = NdJsonExec::new(config(fields, None, Some(3)));
    let mut stream = exec.execute(0, 1024, vec![test_data()]).unwrap();
    let batch = stream.next().unwrap().unwrap();

    assert_eq!(batch.num_rows(), 3);
    let values = batch.column(missing_field_idx);
    assert_eq!(values.len(), 3);
    assert_eq!(values[0], JsonValue::Null);
    assert_eq!(values[1], JsonValue::Null);
    assert_eq!(values[2], JsonValue::Null);
}

#[test]
fn nd_json_exec_file_projection() {
    let exec = NdJsonExec::new(config(abcd_fields(), Some(vec![0, 2]), None));
    let inferred_schema = exec.schema();
    assert_eq!(inferred_schema.len(), 2);

    inferred_schema.field_with_name(&b"a".to_vec()).unwrap();
    inferred_schema.field_with_name(&b"b".to_vec()).unwrap_err();
    inferred_schema.field_with_name(&b"c".to_vec()).unwrap();
    inferred_schema.field_with_name(&b"d".to_vec()).unwrap_err();

    let mut stream = exec.execute(0, 1024, vec![test_data()]).unwrap();
    let batch = stream.next().unwrap().unwrap();

    assert_eq!(batch.num_rows(), 4);
    let values = int_values(&batch, 0);
    assert_eq!(values[0], 1);
    assert_eq!(values[1], -10);
    assert_eq!(values[2], 2);
}

#[test]
fn schema_conformance_regardless_of_input() {
    // The input holds fields the target schema does not, and misses one the
    // target has: the emitted batch still matches the target exactly.
    let data = b"{\"x\":5, \"a\":7}\n{\"a\":8, \"y\":\"junk\"}\n".to_vec();
    let fields = vec![
        Field::new(b"a".to_vec(), FieldType::Int64),
        Field::new(b"z".to_vec(), FieldType::Utf8),
    ];
    let exec = NdJsonExec::new(config(fields, None, None));
    let mut stream = exec.execute(0, 1024, vec![data]).unwrap();
    let batch = stream.next().unwrap().unwrap();
    assert_eq!(batch.num_columns(), 2);
    assert_eq!(batch.schema().len(), 2);
    assert_eq!(batch.num_rows(), 2);
    assert_eq!(int_values(&batch, 0), vec![7, 8]);
    assert_eq!(batch.column(1)[0], JsonValue::Null);
    assert_eq!(batch.column(1)[1], JsonValue::Null);
    assert!(stream.next().is_none());
}

#[test]
fn row_limit_across_files_and_batches() {
    // Two files of 3 and 4 rows, batch size 2, limit 5: exactly 5 rows come
    // out, and nothing after the limit is reached.
    let f1 = b"{\"a\":1}\n{\"a\":2}\n{\"a\":3}\n".to_vec();
    let f2 = b"{\"a\":4}\n{\"a\":5}\n{\"a\":6}\n{\"a\":7}\n".to_vec();
    let fields = vec![Field::new(b"a".to_vec(), FieldType::Int64)];
    let cfg = FileScanConfig {
        file_groups: vec![vec![file(b"f1"), file(b"f2")]],
        file_schema: Schema::new(fields),
        projection: None,
        statistics: Statistics::unknown(),
        limit: Some(5),
        table_partition_cols: Vec::new(),
    };
    let exec = NdJsonExec::new(cfg);
    let mut stream = exec.execute(0, 2, vec![f1, f2]).unwrap();
    let (batches, err) = stream.run();
    assert!(err.is_none());
    let total: usize = batches.iter().map(|b| b.num_rows()).sum();
    assert_eq!(total, 5);
    let mut all = Vec::new();
    for b in &batches {
        all.extend(int_values(b, 0));
    }
    assert_eq!(all, vec![1, 2, 3, 4, 5]);
    assert!(stream.next().is_none());
}

#[test]
fn limit_larger_than_available() {
    let f1 = b"{\"a\":1}\n{\"a\":2}\n".to_vec();
    let fields = vec![Field::new(b"a".to_vec(), FieldType::Int64)];
    let exec = NdJsonExec::new(config(fields, None, Some(100)));
    let mut stream = exec.execute(0, 10, vec![f1]).unwrap();
    let (batches, err) = stream.run();
    assert!(err.is_none());
    let total: usize = batches.iter().map(|b| b.num_rows()).sum();
    assert_eq!(total, 2);
}

#[test]
fn fail_fast_on_malformed_record() {
    // The malformed third line ends the partition: the first batch (of two
    // rows, batch size 2) is emitted, then the error, and the second file
    // contributes nothing.
    let f1 = b"{\"a\":1}\n{\"a\":2}\n{broken\n{\"a\":3}\n".to_vec();
    let f2 = b"{\"a\":9}\n".to_vec();
    let fields = vec![Field::new(b"a".to_vec(), FieldType::Int64)];
    let cfg = FileScanConfig {
        file_groups: vec![vec![file(b"f1"), file(b"f2")]],
        file_schema: Schema::new(fields),
        projection: None,
        statistics: Statistics::unknown(),
        limit: None,
        table_partition_cols: Vec::new(),
    };
    let exec = NdJsonExec::new(cfg);
    let mut stream = exec.execute(0, 2, vec![f1, f2]).unwrap();
    let (batches, err) = stream.run();
    assert_eq!(err, Some(ScanError::MalformedRecord));
    assert_eq!(batches.len(), 1);
    assert_eq!(int_values(&batches[0], 0), vec![1, 2]);
    assert!(stream.next().is_none());
}

#[test]
fn type_mismatch_is_fatal() {
    let data = b"{\"a\":\"not a number\"}\n".to_vec();
    let fields = vec![Field::new(b"a".to_vec(), FieldType::Int64)];
    let exec = NdJsonExec::new(config(fields, None, None));
    let mut stream = exec.execute(0, 10, vec![data]).unwrap();
    let (batches, err) = stream.run();
    assert_eq!(batches.len(), 0);
    assert_eq!(err, Some(ScanError::TypeMismatch));
}

#[test]
fn int32_overflow_is_type_mismatch() {
    let data = b"{\"a\":3000000000}\n".to_vec();
    let fields = vec![Field::new(b"a".to_vec(), FieldType::Int32)];
    let exec = NdJsonExec::new(config(fields, None, None));
    let mut stream = exec.execute(0, 10, vec![data]).unwrap();
    let (_, err) = stream.run();
    assert_eq!(err, Some(ScanError::TypeMismatch));
}

#[test]
fn int64_bounds_parse_exactly() {
    let data =
        b"{\"a\":9223372036854775807}\n{\"a\":-9223372036854775808}\n{\"a\":0}\n".to_vec();
    let fields = vec![Field::new(b"a".to_vec(), FieldType::Int64)];
    let exec = NdJsonExec::new(config(fields, None, None));
    let mut stream = exec.execute(0, 10, vec![data]).unwrap();
    let batch = stream.next().unwrap().unwrap();
    assert_eq!(int_values(&batch, 0), vec![i64::MAX, i64::MIN, 0]);
}

#[test]
fn int64_overflow_is_malformed() {
    let data = b"{\"a\":9223372036854775808}\n".to_vec();
    let fields = vec![Field::new(b"a".to_vec(), FieldType::Int64)];
    let exec = NdJsonExec::new(config(fields, None, None));
    let mut stream = exec.execute(0, 10, vec![data]).unwrap();
    let (_, err) = stream.run();
    assert_eq!(err, Some(ScanError::MalformedRecord));
}

#[test]
fn leading_zero_is_malformed() {
    let data = b"{\"a\":01}\n".to_vec();
    let fields = vec![Field::new(b"a".to_vec(), FieldType::Int64)];
    let exec = NdJsonExec::new(config(fields, None, None));
    let mut stream = exec.execute(0, 10, vec![data]).unwrap();
    let (_, err) = stream.run();
    assert_eq!(err, Some(ScanError::MalformedRecord));
}

#[test]
fn empty_and_blank_files_yield_nothing() {
    let fields = vec![Field::new(b"a".to_vec(), FieldType::Int64)];
    let cfg = FileScanConfig {
        file_groups: vec![vec![file(b"empty"), file(b"blank")]],
        file_schema: Schema::new(fields),
        projection: None,
        statistics: Statistics::unknown(),
        limit: None,
        table_partition_cols: Vec::new(),
    };
    let exec = NdJsonExec::new(cfg);
    let mut stream = exec.execute(0, 10, vec![Vec::new(), b"  \n\n \t\n".to_vec()]).unwrap();
    let (batches, err) = stream.run();
    assert!(batches.is_empty());
    assert!(err.is_none());
}

#[test]
fn blank_lines_between_records_are_skipped() {
    let data = b"\n{\"a\":1}\n\n  \n{\"a\":2}\n\n".to_vec();
    let fields = vec![Field::new(b"a".to_vec(), FieldType::Int64)];
    let exec = NdJsonExec::new(config(fields, None, None));
    let mut stream = exec.execute(0, 10, vec![data]).unwrap();
    let batch = stream.next().unwrap().unwrap();
    assert_eq!(int_values(&batch, 0), vec![1, 2]);
}

#[test]
fn partition_columns_are_appended_constant() {
    let f1 = b"{\"a\":1}\n{\"a\":2}\n".to_vec();
    let fields = vec![Field::new(b"a".to_vec(), FieldType::Int64)];
    let cfg = FileScanConfig {
        file_groups: vec![vec![FileDesc {
            path: b"part".to_vec(),
            partition_values: vec![JsonValue::Str(b"2021".to_vec())],
        }]],
        file_schema: Schema::new(fields),
        projection: None,
        statistics: Statistics::unknown(),
        limit: None,
        table_partition_cols: vec![Field::new(b"year".to_vec(), FieldType::Utf8)],
    };
    let exec = NdJsonExec::new(cfg);
    let schema = exec.schema();
    assert_eq!(schema.len(), 2);
    schema.field_with_name(&b"year".to_vec()).unwrap();
    let mut stream = exec.execute(0, 10, vec![f1]).unwrap();
    let batch = stream.next().unwrap().unwrap();
    assert_eq!(batch.num_columns(), 2);
    assert_eq!(batch.column(1)[0], JsonValue::Str(b"2021".to_vec()));
    assert_eq!(batch.column(1)[1], JsonValue::Str(b"2021".to_vec()));
}

#[test]
fn partition_independence() {
    // Partition 0 yields the same batches whether or not its sibling is
    // also drained.
    let f1 = b"{\"a\":1}\n{\"a\":2}\n".to_vec();
    let f2 = b"{\"a\":3}\n".to_vec();
    let fields = vec![Field::new(b"a".to_vec(), FieldType::Int64)];
    let cfg = FileScanConfig {
        file_groups: vec![vec![file(b"g0")], vec![file(b"g1")]],
        file_schema: Schema::new(fields),
        projection: None,
        statistics: Statistics::unknown(),
        limit: None,
        table_partition_cols: Vec::new(),
    };
    let exec = NdJsonExec::new(cfg);
    assert_eq!(exec.output_partitioning(), Partitioning::UnknownPartitioning(2));

    let (alone, e1) = exec.execute(0, 10, vec![f1.clone()]).unwrap().run();
    let (with_sibling, e2) = exec.execute(0, 10, vec![f1.clone()]).unwrap().run();
    let (sibling, e3) = exec.execute(1, 10, vec![f2]).unwrap().run();
    assert!(e1.is_none() && e2.is_none() && e3.is_none());
    assert_eq!(alone, with_sibling);
    assert_eq!(int_values(&sibling[0], 0), vec![3]);
}

#[test]
fn invalid_partition_index_is_rejected() {
    let fields = vec![Field::new(b"a".to_vec(), FieldType::Int64)];
    let exec = NdJsonExec::new(config(fields, None, None));
    let err = exec.execute(1, 10, Vec::new()).unwrap_err();
    assert_eq!(err, ScanError::InvalidPartition);
}

#[test]
fn leaf_node_rejects_children() {
    let fields = vec![Field::new(b"a".to_vec(), FieldType::Int64)];
    let exec = NdJsonExec::new(config(fields, None, None));
    assert!(exec.children().is_empty());
    assert!(!exec.relies_on_input_order());
    assert!(exec.output_ordering().is_none());
    let exec = exec.with_new_children(Vec::new()).unwrap();
    let other = NdJsonExec::new(config(abcd_fields(), None, None));
    let err = exec.with_new_children(vec![other]).unwrap_err();
    assert_eq!(err, ScanError::LeafNode);
}

#[test]
fn statistics_are_projected() {
    let fields = abcd_fields();
    let cs = |n: usize| ColumnStatistics { null_count: Some(n), distinct_count: None };
    let cfg = FileScanConfig {
        file_groups: vec![vec![file(b"f")]],
        file_schema: Schema::new(fields),
        projection: Some(vec![0, 2]),
        statistics: Statistics {
            num_rows: Some(42),
            total_byte_size: Some(1000),
            column_statistics: Some(vec![cs(0), cs(1), cs(2), cs(3)]),
            is_exact: true,
        },
        limit: None,
        table_partition_cols: Vec::new(),
    };
    let exec = NdJsonExec::new(cfg);
    let stats = exec.statistics();
    assert_eq!(stats.num_rows, Some(42));
    assert_eq!(stats.total_byte_size, None);
    let cols = stats.column_statistics.as_ref().unwrap();
    assert_eq!(cols.len(), 2);
    assert_eq!(cols[0].null_count, Some(0));
    assert_eq!(cols[1].null_count, Some(2));
}

#[test]
fn strings_with_escapes_or_bad_syntax_are_malformed() {
    let fields = vec![Field::new(b"a".to_vec(), FieldType::Utf8)];
    for bad in [
        b"{\"a\":\"x\\\"y\"}\n".to_vec(),
        b"{\"a\" \"b\"}\n".to_vec(),
        b"{\"a\":}\n".to_vec(),
        b"{\"a\":tru}\n".to_vec(),
        b"junk\n".to_vec(),
    ] {
        let exec = NdJsonExec::new(config(fields.clone(), None, None));
        let mut stream = exec.execute(0, 10, vec![bad]).unwrap();
        let (_, err) = stream.run();
        assert_eq!(err, Some(ScanError::MalformedRecord));
    }
}

#[test]
fn duplicate_keys_take_first_observation() {
    let data = b"{\"a\":1, \"a\":2}\n".to_vec();
    let fields = vec![Field::new(b"a".to_vec(), FieldType::Int64)];
    let exec = NdJsonExec::new(config(fields, None, None));
    let mut stream = exec.execute(0, 10, vec![data]).unwrap();
    let batch = stream.next().unwrap().unwrap();
    assert_eq!(int_values(&batch, 0), vec![1]);
}

#[test]
fn exhausted_stream_stays_exhausted() {
    let data = b"{\"a\":1}\n".to_vec();
    let fields = vec![Field::new(b"a".to_vec(), FieldType::Int64)];
    let exec = NdJsonExec::new(config(fields, None, None));
    let mut stream = exec.execute(0, 10, vec![data]).unwrap();
    assert!(stream.next().is_some());
    assert!(stream.next().is_none());
    assert!(stream.next().is_none());
}

#[test]
fn values_parse_to_expected_cells() {
    let data = b"{\"s\":\"hi\", \"t\":true, \"f\":false, \"n\":null}\n".to_vec();
    let fields = vec![
        Field::new(b"s".to_vec(), FieldType::Utf8),
        Field::new(b"t".to_vec(), FieldType::Boolean),
        Field::new(b"f".to_vec(), FieldType::Boolean),
        Field::new(b"n".to_vec(), FieldType::Int64),
    ];
    let exec = NdJsonExec::new(config(fields, None, None));
    let mut stream = exec.execute(0, 10, vec![data]).unwrap();
    let batch = stream.next().unwrap().unwrap();
    assert_eq!(batch.column(0)[0], JsonValue::Str(b"hi".to_vec()));
    assert_eq!(batch.column(1)[0], JsonValue::Bool(true));
    assert_eq!(batch.column(2)[0], JsonValue::Bool(false));
    assert_eq!(batch.column(3)[0], JsonValue::Null);
}
