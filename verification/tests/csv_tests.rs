use fin_parser::csv_format::CsvTxReader;
use fin_parser::csv_format::CsvTxRecord;
use fin_parser::csv_format::CsvTxWriter;
use fin_parser::error::FieldKey;
use fin_parser::error::FormatReason;
use fin_parser::error::ParsError;
use fin_parser::transaction::Timestamp;
use fin_parser::transaction::Transaction;
use fin_parser::transaction::TxStatus;
use fin_parser::transaction::TxType;

const EXPECTED_CSV: &str =
    "1000000000000000,DEPOSIT,0,9223372036854775807,100,1633036860000,FAILURE,\"Record number 1\"\n";
const EXPECTED_CSV_MULT: &str = r#"
        TX_ID,TX_TYPE,FROM_USER_ID,TO_USER_ID,AMOUNT,TIMESTAMP,STATUS,DESCRIPTION
        1000000000000000,DEPOSIT,0,9223372036854775807,100,1633036860000,FAILURE,"Record number 1"

        1000000000000001,TRANSFER,9223372036854775807,9223372036854775807,200,1633036920000,PENDING,"Record number 2"
    "#;

fn tx1_for_test() -> Transaction {
    Transaction {
        tx_id: 1000000000000000,
        tx_type: TxType::Deposit,
        from_user_id: 0,
        to_user_id: 9223372036854775807,
        amount: 100,
        timestamp: Timestamp::from_millis(1633036860000).unwrap(),
        status: TxStatus::Failure,
        description: b"Record number 1".to_vec(),
    }
}

fn tx2_for_test() -> Transaction {
    Transaction {
        tx_id: 1000000000000001,
        tx_type: TxType::Transfer,
        from_user_id: 9223372036854775807,
        to_user_id: 9223372036854775807,
        amount: 200,
        timestamp: Timestamp::from_millis(1633036920000).unwrap(),
        status: TxStatus::Pending,
        description: b"Record number 2".to_vec(),
    }
}

fn csv_record_for_test() -> CsvTxRecord {
    CsvTxRecord {
        fields: vec![
            b"1000000000000000".to_vec(),
            b"DEPOSIT".to_vec(),
            b"0".to_vec(),
            b"9223372036854775807".to_vec(),
            b"100".to_vec(),
            b"1633036860000".to_vec(),
            b"FAILURE".to_vec(),
            b"\"Record number 1\"".to_vec(),
        ],
    }
}

#[test]
fn test_csv_from_transaction() {
    let tx = tx1_for_test();
    let expected = csv_record_for_test();
    let record = CsvTxRecord::from_transaction(&tx);

    assert_eq!(record, expected);
}

#[test]
fn test_csv_to_transaction() {
    let csv_record = csv_record_for_test();
    let expected = tx1_for_test();
    let tx = csv_record.to_transaction().unwrap();

    assert_eq!(tx, expected);
}

#[test]
fn test_serialize_csv_record() {
    let record = csv_record_for_test();
    let mut buf: Vec<u8> = Vec::new();
    record.serialize(&mut buf);

    assert_eq!(std::str::from_utf8(&buf).unwrap(), EXPECTED_CSV);
}

#[test]
fn test_csv_reader() {
    let stream = EXPECTED_CSV_MULT.as_bytes().to_vec();
    let mut csv_reader = CsvTxReader::new(stream).unwrap();

    let mut fin_info = Vec::new();
    while let Some(tx) = csv_reader.read_transaction().unwrap() {
        fin_info.push(tx);
    }

    assert_eq!(fin_info.len(), 2);
    assert_eq!(fin_info[0], tx1_for_test());
    assert_eq!(fin_info[1], tx2_for_test());
}

#[test]
fn test_csv_writer() {
    let mut csv_writer = CsvTxWriter::new(Vec::new()).unwrap();

    csv_writer.write_transaction(&tx1_for_test()).unwrap();
    csv_writer.write_transaction(&tx2_for_test()).unwrap();

    let stream = csv_writer.stream.clone();
    let mut csv_reader = CsvTxReader::new(stream).unwrap();
    let mut fin_info = Vec::new();
    while let Some(tx) = csv_reader.read_transaction().unwrap() {
        fin_info.push(tx);
    }

    assert_eq!(fin_info.len(), 2);
    assert_eq!(fin_info[0], tx1_for_test());
    assert_eq!(fin_info[1], tx2_for_test());
}

#[test]
fn test_csv_header_out_of_order_rejected() {
    // all column names present, but two of them swapped
    let stream =
        b"TX_TYPE,TX_ID,FROM_USER_ID,TO_USER_ID,AMOUNT,TIMESTAMP,STATUS,DESCRIPTION\n".to_vec();
    let mut reader = CsvTxReader::new(stream).unwrap();
    let err = reader.read_transaction().unwrap_err();
    assert_eq!(err, ParsError::WrongFormat(FormatReason::BadHeader));
}

#[test]
fn test_csv_header_misspelled_rejected() {
    let stream = b"TX_ID,TX_TYP,FROM_USER_ID,TO_USER_ID,AMOUNT,TIMESTAMP,STATUS,DESCRIPTION\n1000000000000000,DEPOSIT,0,1,100,1633036860000,FAILURE,\"x\"\n".to_vec();
    let mut reader = CsvTxReader::new(stream).unwrap();
    let err = reader.read_transaction().unwrap_err();
    assert_eq!(err, ParsError::WrongFormat(FormatReason::BadHeader));
}

#[test]
fn test_csv_escaped_delimiter_and_quote_round_trip() {
    // the description holds an escaped comma and an escaped quote inside
    // the quoted section; both come through literally
    let stream = b"TX_ID,TX_TYPE,FROM_USER_ID,TO_USER_ID,AMOUNT,TIMESTAMP,STATUS,DESCRIPTION\n7,DEPOSIT,1,2,3,1633036860000,SUCCESS,\"a\\,b\\\"c\"\n".to_vec();
    let mut reader = CsvTxReader::new(stream).unwrap();
    let tx = reader.read_transaction().unwrap().unwrap();
    assert_eq!(tx.description, b"a,b\"c".to_vec());
}

#[test]
fn test_csv_quoted_comma_kept() {
    let stream = b"TX_ID,TX_TYPE,FROM_USER_ID,TO_USER_ID,AMOUNT,TIMESTAMP,STATUS,DESCRIPTION\n7,DEPOSIT,1,2,3,1633036860000,SUCCESS,\"one, two\"\n".to_vec();
    let mut reader = CsvTxReader::new(stream).unwrap();
    let tx = reader.read_transaction().unwrap().unwrap();
    assert_eq!(tx.description, b"one, two".to_vec());
}

#[test]
fn test_csv_bad_tokens_named() {
    let stream = b"TX_ID,TX_TYPE,FROM_USER_ID,TO_USER_ID,AMOUNT,TIMESTAMP,STATUS,DESCRIPTION\nnope,DEPOSIT,0,1,100,1633036860000,FAILURE,\"x\"\n".to_vec();
    let mut reader = CsvTxReader::new(stream).unwrap();
    match reader.read_transaction().unwrap_err() {
        ParsError::WrongFormat(FormatReason::BadToken(k, tok)) => {
            assert_eq!(k, FieldKey::TxId);
            assert_eq!(tok, b"nope".to_vec());
        }
        other => panic!("unexpected error {:?}", other),
    }

    let stream = b"TX_ID,TX_TYPE,FROM_USER_ID,TO_USER_ID,AMOUNT,TIMESTAMP,STATUS,DESCRIPTION\n1,LOAN,0,1,100,1633036860000,FAILURE,\"x\"\n".to_vec();
    let mut reader = CsvTxReader::new(stream).unwrap();
    match reader.read_transaction().unwrap_err() {
        ParsError::WrongFormat(FormatReason::BadToken(k, tok)) => {
            assert_eq!(k, FieldKey::TxType);
            assert_eq!(tok, b"LOAN".to_vec());
        }
        other => panic!("unexpected error {:?}", other),
    }
}

#[test]
fn test_csv_field_count_mismatch() {
    let stream = b"TX_ID,TX_TYPE,FROM_USER_ID,TO_USER_ID,AMOUNT,TIMESTAMP,STATUS,DESCRIPTION\n1,DEPOSIT,0,1,100,1633036860000,FAILURE\n".to_vec();
    let mut reader = CsvTxReader::new(stream).unwrap();
    assert_eq!(
        reader.read_transaction().unwrap_err(),
        ParsError::WrongFormat(FormatReason::FieldCount)
    );
}

#[test]
fn test_csv_signed_and_plus_prefixed_numbers() {
    let stream = b"TX_ID,TX_TYPE,FROM_USER_ID,TO_USER_ID,AMOUNT,TIMESTAMP,STATUS,DESCRIPTION\n+7,DEPOSIT,1,2,-300,1633036860000,SUCCESS,\"x\"\n".to_vec();
    let mut reader = CsvTxReader::new(stream).unwrap();
    let tx = reader.read_transaction().unwrap().unwrap();
    assert_eq!(tx.tx_id, 7);
    assert_eq!(tx.amount, -300);
}

#[test]
fn test_csv_numeric_overflow_rejected() {
    // one past the largest unsigned 64-bit value
    let stream = b"TX_ID,TX_TYPE,FROM_USER_ID,TO_USER_ID,AMOUNT,TIMESTAMP,STATUS,DESCRIPTION\n18446744073709551616,DEPOSIT,0,1,100,1633036860000,FAILURE,\"x\"\n".to_vec();
    let mut reader = CsvTxReader::new(stream).unwrap();
    assert!(matches!(
        reader.read_transaction().unwrap_err(),
        ParsError::WrongFormat(FormatReason::BadToken(FieldKey::TxId, _))
    ));
    // the boundary value itself is accepted
    let stream = b"TX_ID,TX_TYPE,FROM_USER_ID,TO_USER_ID,AMOUNT,TIMESTAMP,STATUS,DESCRIPTION\n18446744073709551615,DEPOSIT,0,1,100,1633036860000,FAILURE,\"x\"\n".to_vec();
    let mut reader = CsvTxReader::new(stream).unwrap();
    assert_eq!(reader.read_transaction().unwrap().unwrap().tx_id, u64::MAX);
}
