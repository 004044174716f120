use fin_parser::bin_format::BinTxReader;
use fin_parser::csv_format::CsvTxReader;
use fin_parser::error::FormatReason;
use fin_parser::error::IoReason;
use fin_parser::error::ParsError;
use fin_parser::text_format::TextReader;
use fin_parser::transaction::Timestamp;
use fin_parser::transaction::Transaction;
use fin_parser::transaction::TxStatus;
use fin_parser::transaction::TxType;
use fin_parser::tx_format::TxWriter;

const HEADER: &str = "TX_ID,TX_TYPE,FROM_USER_ID,TO_USER_ID,AMOUNT,TIMESTAMP,STATUS,DESCRIPTION\n";

#[test]
fn test_bin_partial_magic_is_io_error() {
    // two bytes of a next record's magic: truncation, not clean end
    let mut writer = TxWriter::new(Vec::new(), "bin").unwrap();
    writer
        .write_transaction(&Transaction {
            tx_id: 1,
            tx_type: TxType::Deposit,
            from_user_id: 0,
            to_user_id: 0,
            amount: 0,
            timestamp: Timestamp::from_millis(0).unwrap(),
            status: TxStatus::Success,
            description: b"d".to_vec(),
        })
        .unwrap();
    let mut data = writer.into_stream();
    data.push(0x59);
    data.push(0x50);
    let mut reader = BinTxReader::new(data).unwrap();
    assert!(reader.read_transaction().unwrap().is_some());
    assert_eq!(
        reader.read_transaction().unwrap_err(),
        ParsError::IoError(IoReason::TruncatedRecord)
    );
}

#[test]
fn test_csv_bad_timestamp_value() {
    // parses as a number but does not map to a valid UTC instant
    let row = format!("{HEADER}1,DEPOSIT,0,1,100,9223372036854775807,FAILURE,\"x\"\n");
    let mut reader = CsvTxReader::new(row.into_bytes()).unwrap();
    assert_eq!(
        reader.read_transaction().unwrap_err(),
        ParsError::WrongFormat(FormatReason::BadTimestamp(9223372036854775807))
    );
}

#[test]
fn test_csv_unquoted_description_rejected() {
    let row = format!("{HEADER}1,DEPOSIT,0,1,100,1633036860000,FAILURE,bare\n");
    let mut reader = CsvTxReader::new(row.into_bytes()).unwrap();
    assert_eq!(
        reader.read_transaction().unwrap_err(),
        ParsError::WrongFormat(FormatReason::BadDescription)
    );
}

#[test]
fn test_csv_trailing_partial_row_is_final_record() {
    // a last row without its newline is still handed out as a record
    let stream = format!("{HEADER}1,DEPOSIT,0,1,100,1633036860000,FAILURE,\"x\"");
    let mut reader = CsvTxReader::new(stream.into_bytes()).unwrap();
    let tx = reader.read_transaction().unwrap().unwrap();
    assert_eq!(tx.tx_id, 1);
    assert!(reader.read_transaction().unwrap().is_none());
}

#[test]
fn test_text_unquoted_description_rejected() {
    let stream = b"TX_ID: 1\nTX_TYPE: DEPOSIT\nFROM_USER_ID: 0\nTO_USER_ID: 1\nAMOUNT: 5\nTIMESTAMP: 1633036860000\nSTATUS: SUCCESS\nDESCRIPTION: bare\n\n".to_vec();
    let mut reader = TextReader::new(stream).unwrap();
    assert_eq!(
        reader.read_fin_data().unwrap_err(),
        ParsError::WrongFormat(FormatReason::BadDescription)
    );
}

#[test]
fn test_text_trailing_block_without_blank_line() {
    // the stream ends right after the last value line; the block still
    // comes out whole
    let stream = b"TX_ID: 1\nTX_TYPE: DEPOSIT\nFROM_USER_ID: 0\nTO_USER_ID: 1\nAMOUNT: 5\nTIMESTAMP: 1633036860000\nSTATUS: SUCCESS\nDESCRIPTION: \"d\"".to_vec();
    let mut reader = TextReader::new(stream).unwrap();
    let tx = reader.read_fin_data().unwrap().unwrap();
    assert_eq!(tx.tx_id, 1);
    assert!(reader.read_fin_data().unwrap().is_none());
}

#[test]
fn test_csv_empty_stream_rejected_at_header() {
    let mut reader = CsvTxReader::new(Vec::new()).unwrap();
    assert_eq!(
        reader.read_transaction().unwrap_err(),
        ParsError::WrongFormat(FormatReason::BadHeader)
    );
}

#[test]
fn test_empty_streams_bin_and_text() {
    let mut reader = BinTxReader::new(Vec::new()).unwrap();
    assert!(reader.read_transaction().unwrap().is_none());
    let mut reader = TextReader::new(Vec::new()).unwrap();
    assert!(reader.read_fin_data().unwrap().is_none());
}
