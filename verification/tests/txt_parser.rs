use report_parser::parsers::txt::TxtRecord;
use report_parser::record::{BankRecord, BankRecordParser, Status, TxType};
use report_parser::txt_format::TextReportReader;

#[test]
fn txt_test_parse_valid_input() {
  let mut buff = TextReportReader::new(
    String::from(
      "# Record 1 (DEPOSIT)
TX_ID: 1000000000000000
TX_TYPE: DEPOSIT
FROM_USER_ID: 0
TO_USER_ID: 9223372036854775807
AMOUNT: 100
TIMESTAMP: 1633036860000
STATUS: FAILURE
DESCRIPTION: \"Record number 1\"",
    )
    .into_bytes(),
  );

  let rec_result = TxtRecord::from_read(&mut buff);
  assert!(rec_result.is_ok());

  let rec = rec_result.unwrap();
  assert_eq!(rec.tx_id, 1000000000000000u64);
  assert_eq!(rec.tx_type, TxType::from_str("DEPOSIT").unwrap());
  assert_eq!(rec.from_user_id, 0u64);
  assert_eq!(rec.to_user_id, 9223372036854775807u64);
  assert_eq!(rec.amount, 100);
  assert_eq!(rec.timestamp, 1633036860000u64);
  assert_eq!(rec.status, Status::from_str("FAILURE").unwrap());
  // No need to escape quotes, serialization writes string quoted
  assert_eq!(rec.description, String::from("Record number 1"));
}

#[test]
fn test_parse_leading_empty_lines() {
  let mut buff = TextReportReader::new(
    String::from(
      "

# Record 1 (DEPOSIT)

TX_ID: 1000000000000000
TX_TYPE: DEPOSIT
FROM_USER_ID: 0
TO_USER_ID: 9223372036854775807
AMOUNT: 100
TIMESTAMP: 1633036860000
STATUS: FAILURE
DESCRIPTION: \"Record number 1\"",
    )
    .into_bytes(),
  );

  let rec_result = TxtRecord::from_read(&mut buff);
  assert!(rec_result.is_ok());

  let rec = rec_result.unwrap();
  assert_eq!(rec.tx_id, 1000000000000000u64);
  assert_eq!(rec.tx_type, TxType::from_str("DEPOSIT").unwrap());
  assert_eq!(rec.from_user_id, 0u64);
  assert_eq!(rec.to_user_id, 9223372036854775807u64);
  assert_eq!(rec.amount, 100);
  assert_eq!(rec.timestamp, 1633036860000u64);
  assert_eq!(rec.status, Status::from_str("FAILURE").unwrap());
  // No need to escape quotes, serialization writes string quoted
  assert_eq!(rec.description, String::from("Record number 1"));
}

#[test]
fn test_parse_trailing_empty_lines() {
  let mut buff = TextReportReader::new(
    String::from(
      "# Record 1 (DEPOSIT)
TX_ID: 1000000000000000
TX_TYPE: DEPOSIT
FROM_USER_ID: 0
TO_USER_ID: 9223372036854775807
AMOUNT: 100
TIMESTAMP: 1633036860000
STATUS: FAILURE
DESCRIPTION: \"Record number 1\"

      
",
    )
    .into_bytes(),
  );

  let rec_result = TxtRecord::from_read(&mut buff);
  assert!(rec_result.is_ok());

  let rec = rec_result.unwrap();
  assert_eq!(rec.tx_id, 1000000000000000u64);
  assert_eq!(rec.tx_type, TxType::from_str("DEPOSIT").unwrap());
  assert_eq!(rec.from_user_id, 0u64);
  assert_eq!(rec.to_user_id, 9223372036854775807u64);
  assert_eq!(rec.amount, 100);
  assert_eq!(rec.timestamp, 1633036860000u64);
  assert_eq!(rec.status, Status::from_str("FAILURE").unwrap());
  // No need to escape quotes, serialization writes string quoted
  assert_eq!(rec.description, String::from("Record number 1"));
}

#[test]
fn txt_test_parse_missing_description() {
  let mut buff = TextReportReader::new(
    String::from(
      "# Record 1 (DEPOSIT)
TX_ID: 1000000000000000
TX_TYPE: DEPOSIT
FROM_USER_ID: 0
TO_USER_ID: 9223372036854775807
AMOUNT: 100
TIMESTAMP: 1633036860000
STATUS: FAILURE",
    )
    .into_bytes(),
  );
  let rec_result = TxtRecord::from_read(&mut buff);

  assert!(rec_result.is_err());
}

#[test]
fn txt_test_serialize_record() {
  let mut buffer: Vec<u8> = vec![];

  let record = BankRecord {
    tx_id: 1000000000000000,
    tx_type: TxType::Deposit,
    from_user_id: 0,
    to_user_id: 9223372036854775807,
    amount: 100,
    timestamp: 1633036860000,
    status: Status::Failure,
    // No need to escape quotes, serialization writes string quoted
    description: String::from("Record number 1"),
  };

  let _ = TxtRecord(record).write_to(&mut buffer);

  // Pay attention that new line is doubled to break the line and make empty one
  let assert_result = String::from(
    "# Record 1 (DEPOSIT)
TX_ID: 1000000000000000
TX_TYPE: DEPOSIT
FROM_USER_ID: 0
TO_USER_ID: 9223372036854775807
AMOUNT: 100
TIMESTAMP: 1633036860000
STATUS: FAILURE
DESCRIPTION: \"Record number 1\"

",
  );

  assert_eq!(buffer, assert_result.as_bytes());
}
