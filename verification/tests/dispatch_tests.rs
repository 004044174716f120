use fin_parser::compare::compare;
use fin_parser::compare::CompareOutcome;
use fin_parser::converter::convert;
use fin_parser::error::FormatReason;
use fin_parser::error::ParsError;
use fin_parser::transaction::Timestamp;
use fin_parser::transaction::Transaction;
use fin_parser::transaction::TxStatus;
use fin_parser::transaction::TxType;
use fin_parser::tx_format::TxReader;
use fin_parser::tx_format::TxWriter;
use fin_parser::utils::read_byte;
use fin_parser::utils::remove_quotes;

fn tx1_for_test() -> Transaction {
    Transaction {
        tx_id: 1000000000000000,
        tx_type: TxType::Deposit,
        from_user_id: 0,
        to_user_id: 9223372036854775807,
        amount: 100,
        timestamp: Timestamp::from_millis(1633036860000).unwrap(),
        status: TxStatus::Failure,
        description: b"Record number 1".to_vec(),
    }
}

fn tx2_for_test() -> Transaction {
    Transaction {
        tx_id: 1000000000000001,
        tx_type: TxType::Transfer,
        from_user_id: 9223372036854775807,
        to_user_id: 9223372036854775807,
        amount: 200,
        timestamp: Timestamp::from_millis(1633036920000).unwrap(),
        status: TxStatus::Pending,
        description: b"Record number 2".to_vec(),
    }
}

fn bin_stream_of(txs: &[Transaction]) -> Vec<u8> {
    let mut w = TxWriter::new(Vec::new(), "bin").unwrap();
    for tx in txs {
        w.write_transaction(tx).unwrap();
    }
    w.into_stream()
}

#[test]
fn test_dispatcher_selects_codecs() {
    let stream = bin_stream_of(&[tx1_for_test()]);
    let mut reader = TxReader::new(stream, "bin").unwrap();
    assert_eq!(reader.read_transaction().unwrap().unwrap(), tx1_for_test());
    assert!(reader.read_transaction().unwrap().is_none());
}

#[test]
fn test_dispatcher_unrecognized_format() {
    let mut reader = TxReader::new(Vec::new(), "xml").unwrap();
    match reader.read_transaction().unwrap_err() {
        ParsError::WrongFormat(FormatReason::UnsupportedFormat(name)) => {
            assert_eq!(name, b"xml".to_vec());
        }
        other => panic!("unexpected error {:?}", other),
    }
    let mut writer = TxWriter::new(Vec::new(), "Bin").unwrap();
    assert!(matches!(
        writer.write_transaction(&tx1_for_test()).unwrap_err(),
        ParsError::WrongFormat(FormatReason::UnsupportedFormat(_))
    ));
}

#[test]
fn test_serialize_starts_with_magic_and_size() {
    // the binary image of the first reference record begins with the magic
    // sentinel and the body length
    let stream = bin_stream_of(&[tx1_for_test()]);
    assert_eq!(&stream[..8], &[0x59, 0x50, 0x42, 0x4e, 0x00, 0x00, 0x00, 0x3f]);
    let mut reader = TxReader::new(stream, "bin").unwrap();
    assert_eq!(reader.read_transaction().unwrap().unwrap(), tx1_for_test());
}

#[test]
fn test_convert_chain_preserves_records() {
    // bin -> csv -> text -> bin keeps the records, their order and their
    // field values
    let original = bin_stream_of(&[tx1_for_test(), tx2_for_test()]);
    let csv = convert(original.clone(), "bin", "csv").unwrap();
    let text = convert(csv, "csv", "text").unwrap();
    let back = convert(text, "text", "bin").unwrap();
    assert_eq!(back, original);
}

#[test]
fn test_convert_bad_format_name_fails() {
    let original = bin_stream_of(&[tx1_for_test()]);
    assert!(matches!(
        convert(original.clone(), "bin", "yaml").unwrap_err(),
        ParsError::WrongFormat(FormatReason::UnsupportedFormat(_))
    ));
    assert!(matches!(
        convert(original, "yaml", "bin").unwrap_err(),
        ParsError::WrongFormat(FormatReason::UnsupportedFormat(_))
    ));
}

#[test]
fn test_convert_propagates_stream_errors() {
    let mut broken = bin_stream_of(&[tx1_for_test()]);
    broken.truncate(30);
    assert!(matches!(
        convert(broken, "bin", "csv").unwrap_err(),
        ParsError::IoError(_)
    ));
}

#[test]
fn test_comparer_reports_record_mismatch() {
    // two streams of equal length, differing in one record
    let lhs = bin_stream_of(&[tx1_for_test(), tx2_for_test()]);
    let mut other = tx2_for_test();
    other.amount = 999;
    let rhs = bin_stream_of(&[tx1_for_test(), other]);
    match compare(lhs, "bin", rhs, "bin").unwrap() {
        CompareOutcome::RecordsDiffer(idxs) => assert_eq!(idxs, vec![1]),
        outcome => panic!("unexpected outcome {:?}", outcome_name(&outcome)),
    }
}

#[test]
fn test_comparer_reports_length_mismatch() {
    // unequal record counts win over any per-record comparison
    let lhs = bin_stream_of(&[tx1_for_test(), tx2_for_test()]);
    let rhs = bin_stream_of(&[tx1_for_test()]);
    assert!(matches!(
        compare(lhs, "bin", rhs, "bin").unwrap(),
        CompareOutcome::LengthMismatch
    ));
}

#[test]
fn test_comparer_identical_across_formats() {
    let lhs = bin_stream_of(&[tx1_for_test(), tx2_for_test()]);
    let rhs = convert(lhs.clone(), "bin", "text").unwrap();
    assert!(matches!(
        compare(lhs, "bin", rhs, "text").unwrap(),
        CompareOutcome::Identical
    ));
}

fn outcome_name(o: &CompareOutcome) -> &'static str {
    match o {
        CompareOutcome::Identical => "identical",
        CompareOutcome::RecordsDiffer(_) => "records differ",
        CompareOutcome::LengthMismatch => "length mismatch",
    }
}

#[test]
fn test_remove_quotes_strips_one_pair() {
    assert_eq!(remove_quotes(&b"\"abc\"".to_vec()), b"abc".to_vec());
    assert_eq!(remove_quotes(&b"abc".to_vec()), b"abc".to_vec());
    assert_eq!(remove_quotes(&b"\"abc".to_vec()), b"\"abc".to_vec());
    assert_eq!(remove_quotes(&b"\"\"".to_vec()), b"".to_vec());
    // a single quote character has no pair to strip
    assert_eq!(remove_quotes(&b"\"".to_vec()), b"\"".to_vec());
}

#[test]
fn test_read_byte_advances_and_ends() {
    let data = vec![10u8, 20u8];
    let mut pos: usize = 0;
    assert_eq!(read_byte(&data, &mut pos).unwrap(), 10);
    assert_eq!(read_byte(&data, &mut pos).unwrap(), 20);
    assert_eq!(read_byte(&data, &mut pos).unwrap_err(), ParsError::EndOfStream);
    assert_eq!(pos, 2);
}

#[test]
fn test_round_trip_same_codec_all_formats() {
    let txs = [tx1_for_test(), tx2_for_test()];
    for fmt in ["bin", "csv", "text"] {
        let mut w = TxWriter::new(Vec::new(), fmt).unwrap();
        for tx in &txs {
            w.write_transaction(tx).unwrap();
        }
        let mut r = TxReader::new(w.into_stream(), fmt).unwrap();
        let mut got = Vec::new();
        while let Some(tx) = r.read_transaction().unwrap() {
            got.push(tx);
        }
        assert_eq!(got.as_slice(), &txs);
    }
}
