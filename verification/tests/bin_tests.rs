use fin_parser::bin_format::BinTxReader;
use fin_parser::bin_format::BinTxRecord;
use fin_parser::bin_format::BinTxWriter;
use fin_parser::bin_format::MAGIC;
use fin_parser::error::FormatReason;
use fin_parser::error::IoReason;
use fin_parser::error::ParsError;
use fin_parser::transaction::Timestamp;
use fin_parser::transaction::MAX_TIMESTAMP_MILLIS;
use fin_parser::transaction::MIN_TIMESTAMP_MILLIS;
use fin_parser::transaction::Transaction;
use fin_parser::transaction::TxStatus;
use fin_parser::transaction::TxType;

const EXPECTED_BIN: &[u8] = &[
    0x59, 0x50, 0x42, 0x4e, 0x00, 0x00, 0x00, 0x3f, 0x00, 0x03, 0x8d, 0x7e,
    0xa4, 0xc6, 0x80, 0x00, 0x00, 0x00, 0x00, 0x00, 0x00, 0x00, 0x00, 0x00,
    0x00, 0x7f, 0xff, 0xff, 0xff, 0xff, 0xff, 0xff, 0xff, 0x00, 0x00, 0x00,
    0x00, 0x00, 0x00, 0x00, 0x64, 0x00, 0x00, 0x01, 0x7c, 0x38, 0x94, 0xfa,
    0x60, 0x01, 0x00, 0x00, 0x00, 0x11, 0x22, 0x52, 0x65, 0x63, 0x6f, 0x72,
    0x64, 0x20, 0x6e, 0x75, 0x6d, 0x62, 0x65, 0x72, 0x20, 0x31, 0x22,
];

const EXPECTED_BIN_MULT: &[u8] = &[
    0x59, 0x50, 0x42, 0x4e, 0x00, 0x00, 0x00, 0x3f, 0x00, 0x03, 0x8d, 0x7e,
    0xa4, 0xc6, 0x80, 0x00, 0x00, 0x00, 0x00, 0x00, 0x00, 0x00, 0x00, 0x00,
    0x00, 0x7f, 0xff, 0xff, 0xff, 0xff, 0xff, 0xff, 0xff, 0x00, 0x00, 0x00,
    0x00, 0x00, 0x00, 0x00, 0x64, 0x00, 0x00, 0x01, 0x7c, 0x38, 0x94, 0xfa,
    0x60, 0x01, 0x00, 0x00, 0x00, 0x11, 0x22, 0x52, 0x65, 0x63, 0x6f, 0x72,
    0x64, 0x20, 0x6e, 0x75, 0x6d, 0x62, 0x65, 0x72, 0x20, 0x31, 0x22, 0x59,
    0x50, 0x42, 0x4e, 0x00, 0x00, 0x00, 0x3f, 0x00, 0x03, 0x8d, 0x7e, 0xa4,
    0xc6, 0x80, 0x01, 0x01, 0x7f, 0xff, 0xff, 0xff, 0xff, 0xff, 0xff, 0xff,
    0x7f, 0xff, 0xff, 0xff, 0xff, 0xff, 0xff, 0xff, 0x00, 0x00, 0x00, 0x00,
    0x00, 0x00, 0x00, 0xc8, 0x00, 0x00, 0x01, 0x7c, 0x38, 0x95, 0xe4, 0xc0,
    0x02, 0x00, 0x00, 0x00, 0x11, 0x22, 0x52, 0x65, 0x63, 0x6f, 0x72, 0x64,
    0x20, 0x6e, 0x75, 0x6d, 0x62, 0x65, 0x72, 0x20, 0x32, 0x22,
];

fn tx1_for_test() -> Transaction {
    Transaction {
        tx_id: 1000000000000000,
        tx_type: TxType::Deposit,
        from_user_id: 0,
        to_user_id: 9223372036854775807,
        amount: 100,
        timestamp: Timestamp::from_millis(1633036860000).unwrap(),
        status: TxStatus::Failure,
        description: b"Record number 1".to_vec(),
    }
}

fn tx2_for_test() -> Transaction {
    Transaction {
        tx_id: 1000000000000001,
        tx_type: TxType::Transfer,
        from_user_id: 9223372036854775807,
        to_user_id: 9223372036854775807,
        amount: 200,
        timestamp: Timestamp::from_millis(1633036920000).unwrap(),
        status: TxStatus::Pending,
        description: b"Record number 2".to_vec(),
    }
}

fn bin_record_for_test() -> BinTxRecord {
    BinTxRecord {
        magic: MAGIC,
        record_size: (EXPECTED_BIN.len() - 8) as u32,
        tx_id: 1000000000000000,
        tx_type: 0,
        from_user_id: 0,
        to_user_id: 9223372036854775807,
        amount: 100,
        timestamp: 1633036860000,
        status: 1,
        desc_len: 17,
        description: b"\"Record number 1\"".to_vec(),
    }
}

#[test]
fn test_bin_from_transaction() {
    let tx = tx1_for_test();
    let expected = bin_record_for_test();
    let record = BinTxRecord::from_transaction(&tx);

    assert_eq!(record, expected);
}

#[test]
fn test_bin_to_transaction() {
    let bin_record = bin_record_for_test();
    let expected = tx1_for_test();
    let tx = bin_record.to_transaction().unwrap();

    assert_eq!(tx, expected);
}

#[test]
fn test_serialize_bin_record() {
    let record = bin_record_for_test();
    let mut buf: Vec<u8> = Vec::new();
    record.serialize(&mut buf);

    assert_eq!(buf.as_slice(), EXPECTED_BIN);
}

#[test]
fn test_deserialize_bin_record() {
    let expected = bin_record_for_test();
    let data: Vec<u8> = EXPECTED_BIN.to_vec();
    let mut pos: usize = 0;
    let record = BinTxRecord::deserialize(&data, &mut pos).unwrap();

    assert_eq!(record, expected);
    assert_eq!(pos, data.len());
}

#[test]
fn test_bin_reader() {
    let stream = EXPECTED_BIN_MULT.to_vec();
    let mut bin_reader = BinTxReader::new(stream).unwrap();

    let mut fin_info = Vec::new();
    while let Some(tx) = bin_reader.read_transaction().unwrap() {
        fin_info.push(tx);
    }

    assert_eq!(fin_info.len(), 2);
    assert_eq!(fin_info[0], tx1_for_test());
    assert_eq!(fin_info[1], tx2_for_test());
}

#[test]
fn test_bin_writer() {
    let mut bin_writer = BinTxWriter::new(Vec::new()).unwrap();

    bin_writer.write_transaction(&tx1_for_test()).unwrap();
    bin_writer.write_transaction(&tx2_for_test()).unwrap();
    assert_eq!(bin_writer.stream.as_slice(), EXPECTED_BIN_MULT);
}

#[test]
fn test_bin_truncated_record_is_io_error() {
    // cut inside the record body: after the magic but before the fixed
    // fields end
    let data: Vec<u8> = EXPECTED_BIN[..20].to_vec();
    let mut reader = BinTxReader::new(data).unwrap();
    let err = reader.read_transaction().unwrap_err();
    assert_eq!(err, ParsError::IoError(IoReason::TruncatedRecord));
}

#[test]
fn test_bin_clean_end_between_records() {
    // the stream ends exactly at a record boundary: clean end of data
    let data: Vec<u8> = EXPECTED_BIN.to_vec();
    let mut reader = BinTxReader::new(data).unwrap();
    assert!(reader.read_transaction().unwrap().is_some());
    assert!(reader.read_transaction().unwrap().is_none());
}

#[test]
fn test_bin_bad_magic() {
    let mut data: Vec<u8> = EXPECTED_BIN.to_vec();
    data[0] = 0x00;
    let mut reader = BinTxReader::new(data).unwrap();
    let err = reader.read_transaction().unwrap_err();
    assert!(matches!(err, ParsError::WrongFormat(FormatReason::BadMagic(_))));
}

#[test]
fn test_bin_bad_discriminants() {
    let mut rec = bin_record_for_test();
    rec.tx_type = 5;
    assert_eq!(
        rec.to_transaction().unwrap_err(),
        ParsError::WrongFormat(FormatReason::BadTxType(5))
    );
    let mut rec = bin_record_for_test();
    rec.status = 9;
    assert_eq!(
        rec.to_transaction().unwrap_err(),
        ParsError::WrongFormat(FormatReason::BadStatus(9))
    );
}

#[test]
fn test_bin_bad_timestamp_and_description() {
    let mut rec = bin_record_for_test();
    rec.timestamp = i64::MAX as u64;
    assert_eq!(
        rec.to_transaction().unwrap_err(),
        ParsError::WrongFormat(FormatReason::BadTimestamp(i64::MAX as u64))
    );
    let mut rec = bin_record_for_test();
    rec.description = b"no quotes".to_vec();
    assert_eq!(
        rec.to_transaction().unwrap_err(),
        ParsError::WrongFormat(FormatReason::BadDescription)
    );
    let mut rec = bin_record_for_test();
    rec.description = vec![0x22, 0xff, 0xfe, 0x22];
    assert_eq!(
        rec.to_transaction().unwrap_err(),
        ParsError::WrongFormat(FormatReason::NotUtf8)
    );
}

#[test]
fn test_timestamp_valid_range_bounds() {
    assert!(Timestamp::from_millis(MAX_TIMESTAMP_MILLIS).is_some());
    assert!(Timestamp::from_millis(MAX_TIMESTAMP_MILLIS + 1).is_none());
    assert!(Timestamp::from_millis(MIN_TIMESTAMP_MILLIS).is_some());
    assert!(Timestamp::from_millis(MIN_TIMESTAMP_MILLIS - 1).is_none());
    assert!(Timestamp::from_millis(0).is_some());
    assert_eq!(Timestamp::from_millis(1633036860000).unwrap().millis, 1633036860000);
}
