use fin_parser::error::FieldKey;
use fin_parser::error::FormatReason;
use fin_parser::error::ParsError;
use fin_parser::text_format::TextFinanceRecord;
use fin_parser::text_format::TextReader;
use fin_parser::text_format::TextWriter;
use fin_parser::transaction::Timestamp;
use fin_parser::transaction::Transaction;
use fin_parser::transaction::TxStatus;
use fin_parser::transaction::TxType;

const EXPECTED_TEXT_MULT: &str = r#"
        # Record 1 (DEPOSIT)
        TX_TYPE: DEPOSIT
        TO_USER_ID: 9223372036854775807
        FROM_USER_ID: 0
        TIMESTAMP: 1633036860000
        DESCRIPTION: "Record number 1"
        TX_ID: 1000000000000000
        AMOUNT: 100
        STATUS: FAILURE

        # Record 2 (TRANSFER)
        DESCRIPTION: "Record number 2"
        TIMESTAMP: 1633036920000
        STATUS: PENDING
        AMOUNT: 200
        TX_ID: 1000000000000001
        TX_TYPE: TRANSFER
        FROM_USER_ID: 9223372036854775807
        TO_USER_ID: 9223372036854775807
    "#;

fn eq_pair_maps(lhs: &[(Vec<u8>, Vec<u8>)], rhs: &[(Vec<u8>, Vec<u8>)]) -> bool {
    if lhs.len() != rhs.len() {
        return false;
    }
    lhs.iter().all(|l| rhs.iter().any(|r| l.0 == r.0 && l.1 == r.1))
}

fn fin_data1_for_test() -> Transaction {
    Transaction {
        tx_id: 1000000000000000,
        tx_type: TxType::Deposit,
        from_user_id: 0,
        to_user_id: 9223372036854775807,
        amount: 100,
        timestamp: Timestamp::from_millis(1633036860000).unwrap(),
        status: TxStatus::Failure,
        description: b"Record number 1".to_vec(),
    }
}

fn fin_data2_for_test() -> Transaction {
    Transaction {
        tx_id: 1000000000000001,
        tx_type: TxType::Transfer,
        from_user_id: 9223372036854775807,
        to_user_id: 9223372036854775807,
        amount: 200,
        timestamp: Timestamp::from_millis(1633036920000).unwrap(),
        status: TxStatus::Pending,
        description: b"Record number 2".to_vec(),
    }
}

fn text_record_for_test() -> TextFinanceRecord {
    TextFinanceRecord {
        fields: vec![
            (b"TX_ID".to_vec(), b"1000000000000000".to_vec()),
            (b"TX_TYPE".to_vec(), b"DEPOSIT".to_vec()),
            (b"FROM_USER_ID".to_vec(), b"0".to_vec()),
            (b"TO_USER_ID".to_vec(), b"9223372036854775807".to_vec()),
            (b"AMOUNT".to_vec(), b"100".to_vec()),
            (b"TIMESTAMP".to_vec(), b"1633036860000".to_vec()),
            (b"STATUS".to_vec(), b"FAILURE".to_vec()),
            (b"DESCRIPTION".to_vec(), b"\"Record number 1\"".to_vec()),
        ],
    }
}

#[test]
fn test_text_to_finance_data() {
    let text_record = text_record_for_test();
    let expected = fin_data1_for_test();
    let fin_data = text_record.to_fin_data().unwrap();

    assert_eq!(fin_data, expected);
}

#[test]
fn test_text_from_finance_data() {
    let fin_data = fin_data1_for_test();
    let expected = text_record_for_test();
    let record = TextFinanceRecord::from_fin_data(&fin_data);

    assert!(eq_pair_maps(&record.fields, &expected.fields));
}

#[test]
fn test_text_reader() {
    let stream = EXPECTED_TEXT_MULT.as_bytes().to_vec();
    let mut text_reader = TextReader::new(stream).unwrap();

    let mut fin_info = Vec::new();
    while let Some(fin_data) = text_reader.read_fin_data().unwrap() {
        fin_info.push(fin_data);
    }

    assert_eq!(fin_info.len(), 2);
    assert_eq!(fin_info[0], fin_data1_for_test());
    assert_eq!(fin_info[1], fin_data2_for_test());
}

#[test]
fn test_text_writer() {
    let mut text_writer = TextWriter::new(Vec::new()).unwrap();

    text_writer.write_fin_data(&fin_data1_for_test()).unwrap();
    text_writer.write_fin_data(&fin_data2_for_test()).unwrap();

    let stream = text_writer.stream.clone();
    let mut text_reader = TextReader::new(stream).unwrap();
    let mut fin_info = Vec::new();
    while let Some(fin_data) = text_reader.read_fin_data().unwrap() {
        fin_info.push(fin_data);
    }

    assert_eq!(fin_info.len(), 2);
    assert_eq!(fin_info[0], fin_data1_for_test());
    assert_eq!(fin_info[1], fin_data2_for_test());
}

#[test]
fn test_text_missing_key_named() {
    // a block that never carries AMOUNT
    let stream = b"TX_ID: 1\nTX_TYPE: DEPOSIT\nFROM_USER_ID: 0\nTO_USER_ID: 1\nTIMESTAMP: 1633036860000\nSTATUS: FAILURE\nDESCRIPTION: \"x\"\n\n".to_vec();
    let mut reader = TextReader::new(stream).unwrap();
    assert_eq!(
        reader.read_fin_data().unwrap_err(),
        ParsError::WrongFormat(FormatReason::MissingKey(FieldKey::Amount))
    );
}

#[test]
fn test_text_unexpected_key_named() {
    let stream = b"TX_ID: 1\nCOLOR: blue\nTX_TYPE: DEPOSIT\n\n".to_vec();
    let mut reader = TextReader::new(stream).unwrap();
    match reader.read_fin_data().unwrap_err() {
        ParsError::WrongFormat(FormatReason::UnexpectedKey(k)) => {
            assert_eq!(k, b"COLOR".to_vec());
        }
        other => panic!("unexpected error {:?}", other),
    }
}

#[test]
fn test_text_escaped_colon_and_hash_round_trip() {
    // the quoted description holds an escaped colon and an escaped hash;
    // both come through literally
    let stream = b"TX_ID: 1\nTX_TYPE: DEPOSIT\nFROM_USER_ID: 0\nTO_USER_ID: 1\nAMOUNT: 5\nTIMESTAMP: 1633036860000\nSTATUS: SUCCESS\nDESCRIPTION: \"a\\:b\\#c\"\n\n".to_vec();
    let mut reader = TextReader::new(stream).unwrap();
    let tx = reader.read_fin_data().unwrap().unwrap();
    assert_eq!(tx.description, b"a:b#c".to_vec());
}

#[test]
fn test_text_comment_resumes_state() {
    // a comment before the block and one between keys are both discarded
    let stream = b"# leading comment\nTX_ID: 1\n# middle comment\nTX_TYPE: DEPOSIT\nFROM_USER_ID: 0\nTO_USER_ID: 1\nAMOUNT: 5\nTIMESTAMP: 1633036860000\nSTATUS: SUCCESS\nDESCRIPTION: \"d\"\n\n".to_vec();
    let mut reader = TextReader::new(stream).unwrap();
    let tx = reader.read_fin_data().unwrap().unwrap();
    assert_eq!(tx.tx_id, 1);
    assert_eq!(tx.description, b"d".to_vec());
}

#[test]
fn test_text_repeated_key_last_wins() {
    let stream = b"TX_ID: 1\nTX_ID: 2\nTX_TYPE: DEPOSIT\nFROM_USER_ID: 0\nTO_USER_ID: 1\nAMOUNT: 5\nTIMESTAMP: 1633036860000\nSTATUS: SUCCESS\nDESCRIPTION: \"d\"\n\n".to_vec();
    let mut reader = TextReader::new(stream).unwrap();
    let tx = reader.read_fin_data().unwrap().unwrap();
    assert_eq!(tx.tx_id, 2);
}
