use tsv_aggregate::operations::{float_compute, Fraction, Operation, OperationResult};
use tsv_aggregate::tsv::{
    deserialize_option_generic, detect_compression, Compression, DecodeError, RecordError,
    TooShort, TsvRecordIterator,
};

#[test]
fn missing_token_is_absent() {
    let missing = [".", "NA", "5"];
    assert_eq!(deserialize_option_generic(".", &missing), Ok(None));
    assert_eq!(deserialize_option_generic("NA", &missing), Ok(None));
    assert_eq!(deserialize_option_generic("5", &missing), Ok(None));
    assert_eq!(deserialize_option_generic("5.0", &missing), Ok(Some(5_000_000)));
    assert_eq!(deserialize_option_generic(".", &[]), Err(DecodeError { text: ".".to_string() }));
}

#[test]
fn malformed_field_is_an_error() {
    let missing = ["."];
    assert_eq!(
        deserialize_option_generic("abc", &missing),
        Err(DecodeError { text: "abc".to_string() })
    );
    let mut rows = TsvRecordIterator::new(&missing, 4, 3);
    assert_eq!(
        rows.next_record(&["chr1", "0", "5", "abc"]),
        Err(RecordError::Decode { row: 0, column: 3, text: "abc".to_string() })
    );
    assert_eq!(rows.next_record(&["chr1", "5", "9", "2"]), Ok(Some(2_000_000)));
    assert_eq!(rows.row, 2);
}

#[test]
fn wrong_column_count() {
    let missing = ["."];
    let mut rows = TsvRecordIterator::new(&missing, 4, 3);
    assert_eq!(
        rows.next_record(&["chr1", "0", "5"]),
        Err(RecordError::ColumnCount { row: 0, expected: 4, found: 3 })
    );
    let mut beyond = TsvRecordIterator::new(&missing, 2, 5);
    assert_eq!(
        beyond.next_record(&["a", "1"]),
        Err(RecordError::ColumnCount { row: 0, expected: 2, found: 2 })
    );
}

#[test]
fn gzip_routing() {
    assert_eq!(detect_compression(&[0x1f, 0x8b]), Ok(Compression::Gzip));
    assert_eq!(detect_compression(&[0x1f, 0x8b, 0x08, 0x00]), Ok(Compression::Gzip));
    assert_eq!(detect_compression(&[0x1f, 0x8c]), Ok(Compression::Plain));
    assert_eq!(detect_compression(b"chr1\t1"), Ok(Compression::Plain));
    assert_eq!(detect_compression(&[]), Err(TooShort { len: 0 }));
    assert_eq!(detect_compression(&[0x1f]), Err(TooShort { len: 1 }));
}

#[test]
fn rows_to_aggregates() {
    let lines = ["chr1\t10\t20\t5.0", "chr1\t20\t30\t.", "chr1\t30\t40\t7.0"];
    let missing = ["."];
    let mut rows = TsvRecordIterator::new(&missing, 4, 3);
    let mut present = Vec::new();
    for line in lines {
        let fields: Vec<&str> = line.split('\t').collect();
        if let Some(v) = rows.next_record(&fields).unwrap() {
            present.push(v);
        }
    }
    assert_eq!(present, vec![5_000_000, 7_000_000]);
    let num = |op| match float_compute(op, &present) {
        Some(OperationResult::Number(f)) => f,
        other => panic!("{:?}", other),
    };
    assert_eq!(num(Operation::Sum), Fraction { num: 12_000_000, den: 1 });
    assert_eq!(num(Operation::Mean), Fraction { num: 12_000_000, den: 2 });
    assert_eq!(num(Operation::Median), Fraction { num: 12_000_000, den: 2 });
    assert_eq!(num(Operation::Min), Fraction { num: 5_000_000, den: 1 });
    assert_eq!(num(Operation::Max), Fraction { num: 7_000_000, den: 1 });
    assert_eq!(
        float_compute(Operation::Collapse, &present),
        Some(OperationResult::String("5, 7".to_string()))
    );
}
