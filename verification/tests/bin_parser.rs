use report_parser::parsers::bin::{BinRecord, RECORD_HEADER};
use report_parser::record::{BankRecord, BankRecordParser, Status, TxType};
use report_parser::txt_format::TextReportReader;

#[test]
fn bin_test_parse_valid_input() {
  let mut buff: Vec<u8> = vec![];
  // String quotes need to be escaped, values are written as is
  let description = String::from("Record number 1");

  buff.extend_from_slice(&RECORD_HEADER);
  buff.extend_from_slice(&63u32.to_be_bytes()[..]);
  buff.extend_from_slice(&1000000000000000u64.to_be_bytes()[..]);
  buff.extend_from_slice(&(TxType::Deposit as u8).to_be_bytes()[..]);
  buff.extend_from_slice(&0u64.to_be_bytes()[..]);
  buff.extend_from_slice(&9223372036854775807u64.to_be_bytes()[..]);
  buff.extend_from_slice(&100u64.to_be_bytes()[..]);
  buff.extend_from_slice(&1633036860000u64.to_be_bytes()[..]);
  buff.extend_from_slice(&(Status::Failure as u8).to_be_bytes()[..]);
  buff.extend_from_slice(&((description.len() + 2) as u32).to_be_bytes()[..]);
  buff.extend_from_slice("\"".as_bytes());
  buff.extend_from_slice(description.as_bytes());
  buff.extend_from_slice("\"".as_bytes());

  let mut buff = TextReportReader::new(buff);
  let rec_result = BinRecord::from_read(&mut buff);

  assert!(rec_result.is_ok());

  let rec = rec_result.unwrap();

  assert_eq!(rec.tx_id, 1000000000000000u64);
  assert_eq!(rec.tx_type, TxType::Deposit);
  assert_eq!(rec.from_user_id, 0u64);
  assert_eq!(rec.to_user_id, 9223372036854775807u64);
  assert_eq!(rec.amount, 100u64);
  assert_eq!(rec.timestamp, 1633036860000u64);
  assert_eq!(rec.timestamp, 1633036860000u64);
  assert_eq!(rec.status, Status::Failure);
  assert_eq!(rec.description, description);
}

#[test]
fn bin_test_parse_missing_description() {
  let mut buff: Vec<u8> = vec![];
  let description = String::from("");

  buff.extend_from_slice(&RECORD_HEADER);
  buff.extend_from_slice(&63u32.to_be_bytes()[..]);
  buff.extend_from_slice(&1000000000000000u64.to_be_bytes()[..]);
  buff.extend_from_slice(&(TxType::Deposit as u8).to_be_bytes()[..]);
  buff.extend_from_slice(&0u64.to_be_bytes()[..]);
  buff.extend_from_slice(&9223372036854775807u64.to_be_bytes()[..]);
  buff.extend_from_slice(&100u64.to_be_bytes()[..]);
  buff.extend_from_slice(&1633036860000u64.to_be_bytes()[..]);
  buff.extend_from_slice(&(Status::Failure as u8).to_be_bytes()[..]);
  buff.extend_from_slice(&(description.len() as u32).to_be_bytes()[..]);

  let mut buff = TextReportReader::new(buff);
  let rec_result = BinRecord::from_read(&mut buff);

  assert!(rec_result.is_ok());

  let rec = rec_result.unwrap();

  assert_eq!(rec.tx_id, 1000000000000000u64);
  assert_eq!(rec.tx_type, TxType::Deposit);
  assert_eq!(rec.from_user_id, 0u64);
  assert_eq!(rec.to_user_id, 9223372036854775807u64);
  assert_eq!(rec.amount, 100u64);
  assert_eq!(rec.timestamp, 1633036860000u64);
  assert_eq!(rec.timestamp, 1633036860000u64);
  assert_eq!(rec.status, Status::Failure);
}

#[test]
fn test_parse_shifted_header_key() {
  let mut buff: Vec<u8> = vec![];
  // String quotes need to be escaped, values are written as is
  let description = String::from("Record number 1");

  buff.extend_from_slice("\"Hello Kitty\"".as_bytes());
  buff.extend_from_slice(&RECORD_HEADER);
  buff.extend_from_slice(&63u32.to_be_bytes()[..]);
  buff.extend_from_slice(&1000000000000000u64.to_be_bytes()[..]);
  buff.extend_from_slice(&(TxType::Deposit as u8).to_be_bytes()[..]);
  buff.extend_from_slice(&0u64.to_be_bytes()[..]);
  buff.extend_from_slice(&9223372036854775807u64.to_be_bytes()[..]);
  buff.extend_from_slice(&100u64.to_be_bytes()[..]);
  buff.extend_from_slice(&1633036860000u64.to_be_bytes()[..]);
  buff.extend_from_slice(&(Status::Failure as u8).to_be_bytes()[..]);
  buff.extend_from_slice(&((description.len() + 2) as u32).to_be_bytes()[..]);
  buff.extend_from_slice("\"".as_bytes());
  buff.extend_from_slice(description.as_bytes());
  buff.extend_from_slice("\"".as_bytes());

  let mut buff = TextReportReader::new(buff);
  let rec_result = BinRecord::from_read(&mut buff);

  assert!(rec_result.is_ok());

  let rec = rec_result.unwrap();

  assert_eq!(rec.tx_id, 1000000000000000u64);
  assert_eq!(rec.tx_type, TxType::Deposit);
  assert_eq!(rec.from_user_id, 0u64);
  assert_eq!(rec.to_user_id, 9223372036854775807u64);
  assert_eq!(rec.amount, 100u64);
  assert_eq!(rec.timestamp, 1633036860000u64);
  assert_eq!(rec.timestamp, 1633036860000u64);
  assert_eq!(rec.status, Status::Failure);
  assert_eq!(rec.description, description);
}

#[test]
fn test_parse_missing_header_key() {
  let mut buff: Vec<u8> = vec![];

  // Missing header slice
  buff.extend_from_slice(&46u32.to_be_bytes()[..]);
  buff.extend_from_slice(&1000000000000000u64.to_be_bytes()[..]);
  buff.extend_from_slice(&(TxType::Deposit as u8).to_be_bytes()[..]);
  buff.extend_from_slice(&0u64.to_be_bytes()[..]);
  buff.extend_from_slice(&9223372036854775807u64.to_be_bytes()[..]);
  buff.extend_from_slice(&100u64.to_be_bytes()[..]);
  buff.extend_from_slice(&1633036860000u64.to_be_bytes()[..]);
  buff.extend_from_slice(&(Status::Failure as u8).to_be_bytes()[..]);
  buff.extend_from_slice(&0u32.to_be_bytes()[..]);

  let mut buff = TextReportReader::new(buff);
  let rec_result = BinRecord::from_read(&mut buff);

  assert!(rec_result.is_err());
}

#[test]
fn test_parse_data_layout_shift() {
  let mut buff: Vec<u8> = vec![];
  // String quotes need to be escaped, values are written as is
  let description = String::from("Record number 1");

  buff.extend_from_slice(&RECORD_HEADER);
  buff.extend_from_slice(&63u32.to_be_bytes()[..]);
  buff.extend_from_slice(&1000000000000000u64.to_be_bytes()[..]);
  buff.extend_from_slice(&(TxType::Deposit as u8).to_be_bytes()[..]);
  buff.extend_from_slice(&0u64.to_be_bytes()[..]);
  buff.extend_from_slice(&9223372036854775807u64.to_be_bytes()[..]);
  buff.extend_from_slice(&1633036860000u64.to_be_bytes()[..]);
  buff.extend_from_slice(&(Status::Failure as u8).to_be_bytes()[..]);
  buff.extend_from_slice(&0u32.to_be_bytes()[..]);

  let mut buff = TextReportReader::new(buff);
  let rec_result = BinRecord::from_read(&mut buff);

  assert!(rec_result.is_ok());

  let rec = rec_result.unwrap();

  assert_eq!(rec.tx_id, 1000000000000000u64);
  assert_eq!(rec.tx_type, TxType::Deposit);
  assert_eq!(rec.from_user_id, 0u64);
  assert_eq!(rec.to_user_id, 9223372036854775807u64);
  assert_ne!(rec.amount, 100u64);
  assert_ne!(rec.timestamp, 1633036860000u64);
  assert_ne!(rec.timestamp, 1633036860000u64);
  assert_ne!(rec.status, Status::Failure);
  assert_ne!(rec.description, description);
}

#[test]
fn bin_test_serialize_record() {
  let mut assert_buffer: Vec<u8> = vec![];
  let description = String::from("Record number 1");

  assert_buffer.extend_from_slice(&RECORD_HEADER);
  assert_buffer.extend_from_slice(&61u32.to_be_bytes()[..]);
  assert_buffer.extend_from_slice(&1000000000000000u64.to_be_bytes()[..]);
  assert_buffer.extend_from_slice(&(TxType::Deposit as u8).to_be_bytes()[..]);
  assert_buffer.extend_from_slice(&0u64.to_be_bytes()[..]);
  assert_buffer.extend_from_slice(&9223372036854775807u64.to_be_bytes()[..]);
  assert_buffer.extend_from_slice(&100u64.to_be_bytes()[..]);
  assert_buffer.extend_from_slice(&1633036860000u64.to_be_bytes()[..]);
  assert_buffer.extend_from_slice(&(Status::Failure as u8).to_be_bytes()[..]);
  assert_buffer.extend_from_slice(&((description.len() + 2) as u32).to_be_bytes()[..]);
  assert_buffer.extend_from_slice("\"".as_bytes());
  assert_buffer.extend_from_slice(description.as_bytes());
  assert_buffer.extend_from_slice("\"".as_bytes());

  let mut write_buffer: Vec<u8> = vec![];

  let record = BankRecord {
    tx_id: 1000000000000000,
    tx_type: TxType::Deposit,
    from_user_id: 0,
    to_user_id: 9223372036854775807,
    amount: 100,
    timestamp: 1633036860000,
    status: Status::Failure,
    description: String::from("Record number 1"),
  };

  let _ = BinRecord(record).write_to(&mut write_buffer);

  assert_eq!(write_buffer, assert_buffer);
}

#[test]
fn test_serialize_missing_description() {
  let mut assert_buffer: Vec<u8> = vec![];

  // Content size does not include description field at all
  assert_buffer.extend_from_slice(&RECORD_HEADER);
  assert_buffer.extend_from_slice(&46u32.to_be_bytes()[..]);
  assert_buffer.extend_from_slice(&1000000000000000u64.to_be_bytes()[..]);
  assert_buffer.extend_from_slice(&(TxType::Deposit as u8).to_be_bytes()[..]);
  assert_buffer.extend_from_slice(&0u64.to_be_bytes()[..]);
  assert_buffer.extend_from_slice(&9223372036854775807u64.to_be_bytes()[..]);
  assert_buffer.extend_from_slice(&100u64.to_be_bytes()[..]);
  assert_buffer.extend_from_slice(&1633036860000u64.to_be_bytes()[..]);
  assert_buffer.extend_from_slice(&(Status::Failure as u8).to_be_bytes()[..]);
  assert_buffer.extend_from_slice(&0u32.to_be_bytes()[..]);

  let mut buffer: Vec<u8> = vec![];

  let record = BankRecord {
    tx_id: 1000000000000000,
    tx_type: TxType::Deposit,
    from_user_id: 0,
    to_user_id: 9223372036854775807,
    amount: 100,
    timestamp: 1633036860000,
    status: Status::Failure,
    description: String::from(""),
  };

  let _ = BinRecord(record).write_to(&mut buffer);

  assert_eq!(buffer, assert_buffer);
}
