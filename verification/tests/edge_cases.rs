use report_parser::parsers::bin::{BinRecord, RECORD_HEADER};
use report_parser::parsers::csv::CsvRecord;
use report_parser::parsers::txt::TxtRecord;
use report_parser::record::{BankRecord, BankRecordParser, Status, TxType};
use report_parser::txt_format::TextReportReader;

fn zeros() -> BankRecord {
  BankRecord {
    tx_id: 0,
    tx_type: TxType::Deposit,
    from_user_id: 0,
    to_user_id: 0,
    amount: 0,
    timestamp: 0,
    status: Status::Success,
    description: String::new(),
  }
}

fn frame(tx_type: u8, status: u8, record_size: u32, payload: &[u8]) -> Vec<u8> {
  let mut bytes: Vec<u8> = vec![];
  bytes.extend_from_slice(&RECORD_HEADER);
  bytes.extend_from_slice(&record_size.to_be_bytes());
  bytes.extend_from_slice(&1u64.to_be_bytes());
  bytes.push(tx_type);
  bytes.extend_from_slice(&2u64.to_be_bytes());
  bytes.extend_from_slice(&3u64.to_be_bytes());
  bytes.extend_from_slice(&4u64.to_be_bytes());
  bytes.extend_from_slice(&5u64.to_be_bytes());
  bytes.push(status);
  bytes.extend_from_slice(&(payload.len() as u32).to_be_bytes());
  bytes.extend_from_slice(payload);
  bytes
}

#[test]
fn default_record_is_all_zeros() {
  assert_eq!(BankRecord::new(), zeros());
  assert_eq!(BankRecord::default(), zeros());
  assert_eq!(TxType::default(), TxType::Deposit);
  assert_eq!(Status::default(), Status::Success);
}

#[test]
fn zero_amount_users_and_identifier_are_valid_in_every_format() {
  let mut bin: Vec<u8> = vec![];
  assert!(BinRecord(zeros()).write_to(&mut bin).is_ok());
  assert_eq!(BinRecord::from_read(&mut TextReportReader::new(bin)).unwrap(), zeros());

  let mut csv: Vec<u8> = vec![];
  assert!(CsvRecord(zeros()).write_to(&mut csv).is_ok());
  assert_eq!(csv, "0,DEPOSIT,0,0,0,0,SUCCESS,\"\"\n".as_bytes());
  assert_eq!(CsvRecord::from_read(&mut TextReportReader::new(csv)).unwrap(), zeros());

  let mut txt: Vec<u8> = vec![];
  assert!(TxtRecord(zeros()).write_to(&mut txt).is_ok());
  assert_eq!(
    txt,
    "# Record 1 (DEPOSIT)\nTX_ID: 0\nTX_TYPE: DEPOSIT\nFROM_USER_ID: 0\nTO_USER_ID: 0\nAMOUNT: 0\nTIMESTAMP: 0\nSTATUS: SUCCESS\nDESCRIPTION: \"\"\n\n"
      .as_bytes()
  );
  assert_eq!(TxtRecord::from_read(&mut TextReportReader::new(txt)).unwrap(), zeros());
}

#[test]
fn empty_description_has_no_payload_in_a_frame() {
  let mut bin: Vec<u8> = vec![];
  assert!(BinRecord(zeros()).write_to(&mut bin).is_ok());
  assert_eq!(bin.len(), 8 + 46);
  assert_eq!(&bin[4..8], &46u32.to_be_bytes());
  assert_eq!(&bin[50..54], &0u32.to_be_bytes());
}

#[test]
fn frame_counts_the_description_without_its_quotes() {
  let mut record = zeros();
  record.description = String::from("né");
  let mut bin: Vec<u8> = vec![];
  assert!(BinRecord(record).write_to(&mut bin).is_ok());
  // Three bytes of text: the record size is 49, the payload length 5.
  assert_eq!(&bin[4..8], &49u32.to_be_bytes());
  assert_eq!(&bin[50..54], &5u32.to_be_bytes());
  assert_eq!(&bin[54..], "\"né\"".as_bytes());
}

#[test]
fn wire_ordinals_and_names_are_fixed() {
  assert_eq!(TxType::Deposit.ordinal(), 0);
  assert_eq!(TxType::Transfer.ordinal(), 1);
  assert_eq!(TxType::Withdrawal.ordinal(), 2);
  assert_eq!(Status::Success.ordinal(), 0);
  assert_eq!(Status::Failure.ordinal(), 1);
  assert_eq!(Status::Pending.ordinal(), 2);
  assert_eq!(TxType::Deposit as u8, 0);
  assert_eq!(Status::Pending as u8, 2);
  assert_eq!(TxType::Withdrawal.name(), "WITHDRAWAL");
  assert_eq!(Status::Failure.name(), "FAILURE");
  for v in 0u8..3 {
    assert_eq!(TxType::try_from(v).unwrap().ordinal(), v);
    assert_eq!(Status::try_from(v).unwrap().ordinal(), v);
  }
  assert_eq!(TxType::from_str("TRANSFER").unwrap(), TxType::Transfer);
  assert_eq!(Status::from_str("PENDING").unwrap(), Status::Pending);
}

#[test]
fn clamp_stops_at_the_frame_boundary() {
  // Declared payload of 6 bytes, record size that leaves room for 4.
  let bytes = frame(1, 1, 50, b"\"abcd\"");
  let mut reader = TextReportReader::new(bytes);
  let record = BinRecord::from_read(&mut reader).unwrap();
  assert_eq!(record.description, "abc");
  assert_eq!(record.tx_type, TxType::Transfer);
  assert_eq!(record.status, Status::Failure);
  assert_eq!(record.amount, 4);
  assert_eq!(reader.remaining(), 2);
}

#[test]
fn clamp_stops_at_the_declared_length() {
  // Record size that leaves room for 20 bytes, declared payload of 6.
  let mut bytes = frame(1, 1, 66, b"\"abcd\"");
  bytes.extend_from_slice(b"more bytes behind");
  let mut reader = TextReportReader::new(bytes);
  let record = BinRecord::from_read(&mut reader).unwrap();
  assert_eq!(record.description, "abcd");
  assert_eq!(reader.remaining(), 17);
}

#[test]
fn quotes_inside_a_description_are_stripped() {
  let mut reader = TextReportReader::new(frame(0, 0, 54, b"\"a\"b\"\"c"));
  assert_eq!(BinRecord::from_read(&mut reader).unwrap().description, "abc");

  let mut reader = TextReportReader::new(b"1,DEPOSIT,2,3,4,5,SUCCESS,a\"b\"c".to_vec());
  assert_eq!(CsvRecord::from_read(&mut reader).unwrap().description, "abc");
}

#[test]
fn block_number_is_the_identifier_modulo_ten_thousand_plus_one() {
  let mut record = zeros();
  record.tx_id = 1234569999;
  record.tx_type = TxType::Transfer;
  let mut txt: Vec<u8> = vec![];
  assert!(TxtRecord(record).write_to(&mut txt).is_ok());
  assert!(txt.starts_with(b"# Record 10000 (TRANSFER)\nTX_ID: 1234569999\n"));
}

#[test]
fn lines_may_end_in_carriage_return_and_line_feed() {
  let mut reader = TextReportReader::new(
    b"TX_ID,TX_TYPE\r\n1,DEPOSIT,2,3,4,5,SUCCESS,\"x\"\r\n6,TRANSFER,7,8,9,10,FAILURE,\"y\""
      .to_vec(),
  );
  assert_eq!(reader.read_line().unwrap(), b"TX_ID,TX_TYPE");
  assert_eq!(CsvRecord::from_read(&mut reader).unwrap().description, "x");
  let last = CsvRecord::from_read(&mut reader).unwrap();
  assert_eq!(last.tx_id, 6);
  assert_eq!(last.description, "y");
  assert!(CsvRecord::from_read(&mut reader).is_err());
}

#[test]
fn block_value_is_all_that_follows_the_first_colon() {
  let text = "\n# a comment\n\nDESCRIPTION:  \"at 10:30: done\" \n TX_ID :\u{a0}+12\u{2003}\nTX_TYPE:TRANSFER\nFROM_USER_ID: 1\nTO_USER_ID: 2\nAMOUNT: 3\n# another comment\nTIMESTAMP: 4\nSTATUS: FAILURE\nrest";
  let mut reader = TextReportReader::new(text.as_bytes().to_vec());
  let record = TxtRecord::from_read(&mut reader).unwrap();
  assert_eq!(record.description, "at 10:30: done");
  assert_eq!(record.tx_id, 12);
  assert_eq!(record.tx_type, TxType::Transfer);
  assert_eq!(record.status, Status::Failure);
  assert_eq!(record.timestamp, 4);
  assert_eq!(reader.remaining(), 4);
}

#[test]
fn repeated_key_takes_the_last_value() {
  let text = "TX_ID: 1\nTX_ID: 2\nTX_ID: 3\nTX_ID: 4\nTX_ID: 5\nTX_ID: 6\nTX_ID: 7\nTX_ID: 8\n";
  let mut reader = TextReportReader::new(text.as_bytes().to_vec());
  let mut expected = zeros();
  expected.tx_id = 8;
  assert_eq!(TxtRecord::from_read(&mut reader).unwrap(), expected);
}

#[test]
fn same_compares_all_eight_fields() {
  let a = zeros();
  let mut b = zeros();
  assert!(a.same(&b));
  b.description = String::from("x");
  assert!(!a.same(&b));
  let mut c = zeros();
  c.status = Status::Pending;
  assert!(!a.same(&c));
  let mut d = zeros();
  d.timestamp = 1;
  assert!(!a.same(&d));
}
