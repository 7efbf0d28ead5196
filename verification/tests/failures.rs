use report_parser::configs::DataFormat;
use report_parser::converter::{convert, ConverterErrors};
use report_parser::errors::{IntErrorKind, IoFailure, ParsingError, StatusTypeError, TxTypeError};
use report_parser::parsers::bin::{BinRecord, RECORD_HEADER};
use report_parser::parsers::csv::CsvRecord;
use report_parser::parsers::txt::TxtRecord;
use report_parser::record::{BankRecordParser, Status, TxType};
use report_parser::text::{parse_u64, str_chars};
use report_parser::txt_format::TextReportReader;

fn frame(tx_type: u8, status: u8, record_size: u32, payload: &[u8]) -> Vec<u8> {
  let mut bytes: Vec<u8> = vec![];
  bytes.extend_from_slice(&RECORD_HEADER);
  bytes.extend_from_slice(&record_size.to_be_bytes());
  bytes.extend_from_slice(&1u64.to_be_bytes());
  bytes.push(tx_type);
  bytes.extend_from_slice(&2u64.to_be_bytes());
  bytes.extend_from_slice(&3u64.to_be_bytes());
  bytes.extend_from_slice(&4u64.to_be_bytes());
  bytes.extend_from_slice(&5u64.to_be_bytes());
  bytes.push(status);
  bytes.extend_from_slice(&(payload.len() as u32).to_be_bytes());
  bytes.extend_from_slice(payload);
  bytes
}

fn bin(bytes: Vec<u8>) -> Result<report_parser::record::BankRecord, ParsingError> {
  BinRecord::from_read(&mut TextReportReader::new(bytes))
}

fn csv(line: &str) -> Result<report_parser::record::BankRecord, ParsingError> {
  CsvRecord::from_read(&mut TextReportReader::new(line.as_bytes().to_vec()))
}

fn txt(text: &str) -> Result<report_parser::record::BankRecord, ParsingError> {
  TxtRecord::from_read(&mut TextReportReader::new(text.as_bytes().to_vec()))
}

#[test]
fn unknown_ordinals_in_a_frame_are_rejected() {
  assert!(matches!(
    bin(frame(3, 0, 46, b"")),
    Err(ParsingError::ParseTxType(TxTypeError::NotFound))
  ));
  assert!(matches!(
    bin(frame(0, 255, 46, b"")),
    Err(ParsingError::ParseStatus(StatusTypeError::NotFound))
  ));
  // The transaction type is looked at first.
  assert!(matches!(
    bin(frame(9, 9, 46, b"")),
    Err(ParsingError::ParseTxType(TxTypeError::NotFound))
  ));
  assert!(matches!(TxType::try_from(3), Err(TxTypeError::NotFound)));
  assert!(matches!(Status::try_from(3), Err(StatusTypeError::NotFound)));
}

#[test]
fn missing_marker_is_an_unexpected_end() {
  assert!(matches!(bin(vec![]), Err(ParsingError::IO(IoFailure::UnexpectedEof))));
  assert!(matches!(bin(b"YPB".to_vec()), Err(ParsingError::IO(IoFailure::UnexpectedEof))));
  assert!(matches!(
    bin(b"no marker in these bytes: YPB YPBn".to_vec()),
    Err(ParsingError::IO(IoFailure::UnexpectedEof))
  ));
}

#[test]
fn truncated_frame_is_an_unexpected_end() {
  assert!(matches!(bin(b"YPBN\x00\x00".to_vec()), Err(ParsingError::IO(IoFailure::UnexpectedEof))));
  let mut bytes = frame(0, 0, 56, b"\"0123456\"");
  bytes.truncate(bytes.len() - 1);
  assert!(matches!(bin(bytes), Err(ParsingError::IO(IoFailure::UnexpectedEof))));
}

#[test]
fn record_size_below_the_fixed_part_is_a_framing_error() {
  match bin(frame(0, 0, 45, b"")) {
    Err(ParsingError::ParseBin { source, description }) => {
      assert_eq!(source, IoFailure::InvalidData);
      assert_eq!(description, "Record size is smaller than the fixed part of the record");
    }
    other => panic!("unexpected result: {:?}", other),
  }
}

#[test]
fn payload_that_is_not_utf8_is_rejected() {
  assert!(matches!(bin(frame(0, 0, 48, &[0x22, 0xFF])), Err(ParsingError::ParseUtf8(_))));
  // A payload cut inside a character is not well-formed either.
  assert!(matches!(bin(frame(0, 0, 47, "é".as_bytes())), Err(ParsingError::ParseUtf8(_))));
}

#[test]
fn csv_row_needs_exactly_eight_columns() {
  assert!(matches!(csv("1,DEPOSIT,2,3,4,5,SUCCESS"), Err(ParsingError::IO(IoFailure::InvalidData))));
  assert!(matches!(
    csv("1,DEPOSIT,2,3,4,5,SUCCESS,\"a\",extra"),
    Err(ParsingError::IO(IoFailure::InvalidData))
  ));
  assert!(matches!(
    csv("1,DEPOSIT,2,3,4,5,SUCCESS,\"a, b\""),
    Err(ParsingError::IO(IoFailure::InvalidData))
  ));
  assert!(matches!(csv("\n"), Err(ParsingError::IO(IoFailure::InvalidData))));
}

#[test]
fn csv_source_without_a_line_is_a_custom_error() {
  match csv("") {
    Err(ParsingError::Custom(message)) => assert_eq!(message, "EOF: File has no lines to read"),
    other => panic!("unexpected result: {:?}", other),
  }
}

#[test]
fn csv_columns_fail_from_left_to_right() {
  assert!(matches!(
    csv("x,deposit,2,3,4,5,SUCCESS,\"a\""),
    Err(ParsingError::ParseInt(IntErrorKind::InvalidDigit))
  ));
  match csv("1,deposit,2,3,4,5,success,\"a\"") {
    Err(ParsingError::ParseTxType(TxTypeError::InvalidSting(text))) => assert_eq!(text, "deposit"),
    other => panic!("unexpected result: {:?}", other),
  }
  match csv("1,DEPOSIT,2,3,4,5, SUCCESS,\"a\"") {
    Err(ParsingError::ParseStatus(StatusTypeError::InvalidSting(text))) => {
      assert_eq!(text, " SUCCESS")
    }
    other => panic!("unexpected result: {:?}", other),
  }
  assert!(matches!(
    csv("1,DEPOSIT,,3,4,5,SUCCESS,\"a\""),
    Err(ParsingError::ParseInt(IntErrorKind::Empty))
  ));
  assert!(matches!(
    csv("1,DEPOSIT,2,3,18446744073709551616,5,SUCCESS,\"a\""),
    Err(ParsingError::ParseInt(IntErrorKind::PosOverflow))
  ));
  assert!(matches!(
    csv("1,DEPOSIT,2,3,-4,5,SUCCESS,\"a\""),
    Err(ParsingError::ParseInt(IntErrorKind::InvalidDigit))
  ));
}

#[test]
fn numbers_are_unsigned_decimals() {
  let parse = |text: &str| parse_u64(&str_chars(text));
  assert_eq!(parse("0"), Ok(0));
  assert_eq!(parse("+007"), Ok(7));
  assert_eq!(parse("18446744073709551615"), Ok(u64::MAX));
  assert_eq!(parse("18446744073709551616"), Err(IntErrorKind::PosOverflow));
  assert_eq!(parse("99999999999999999999999"), Err(IntErrorKind::PosOverflow));
  assert_eq!(parse(""), Err(IntErrorKind::Empty));
  assert_eq!(parse("+"), Err(IntErrorKind::InvalidDigit));
  assert_eq!(parse("1_000"), Err(IntErrorKind::InvalidDigit));
  assert_eq!(parse(" 1"), Err(IntErrorKind::InvalidDigit));
  assert_eq!(parse("１"), Err(IntErrorKind::InvalidDigit));
}

#[test]
fn line_that_is_not_utf8_is_invalid_data() {
  let mut reader = TextReportReader::new(vec![b'1', 0xFF, b'\n', b'2']);
  assert!(matches!(
    CsvRecord::from_read(&mut reader),
    Err(ParsingError::IO(IoFailure::InvalidData))
  ));
  assert_eq!(reader.remaining(), 1);

  let mut reader = TextReportReader::new(vec![b'#', 0xC3, b'\n']);
  assert!(matches!(
    TxtRecord::from_read(&mut reader),
    Err(ParsingError::IO(IoFailure::InvalidData))
  ));

  let mut reader = TextReportReader::new(vec![0xFF, b'\n', b'1']);
  let mut writer: Vec<u8> = vec![];
  assert_eq!(
    convert(&mut reader, &mut writer, DataFormat::Csv, DataFormat::Txt),
    Err(ConverterErrors::IO(IoFailure::InvalidData))
  );
  assert!(writer.is_empty());
}

#[test]
fn block_ends_early() {
  assert!(matches!(txt(""), Err(ParsingError::IO(IoFailure::UnexpectedEof))));
  assert!(matches!(txt("\n\n# only comments\n"), Err(ParsingError::IO(IoFailure::UnexpectedEof))));
  assert!(matches!(
    txt("TX_ID: 1\nTX_TYPE: DEPOSIT\n"),
    Err(ParsingError::IO(IoFailure::UnexpectedEof))
  ));
  // A blank line inside a block.
  assert!(matches!(
    txt("TX_ID: 1\n\nTX_TYPE: DEPOSIT\nFROM_USER_ID: 1\nTO_USER_ID: 2\nAMOUNT: 3\nTIMESTAMP: 4\nSTATUS: FAILURE\nDESCRIPTION: \"\"\n"),
    Err(ParsingError::IO(IoFailure::UnexpectedEof))
  ));
}

#[test]
fn block_line_is_malformed() {
  assert!(matches!(txt("TX_ID 1\n"), Err(ParsingError::IO(IoFailure::InvalidData))));
  assert!(matches!(txt("COLOUR: red\n"), Err(ParsingError::IO(IoFailure::InvalidData))));
  assert!(matches!(txt("tx_id: 1\n"), Err(ParsingError::IO(IoFailure::InvalidData))));
  assert!(matches!(txt("   \n"), Err(ParsingError::IO(IoFailure::InvalidData))));
  assert!(matches!(txt("TX_ID:\n"), Err(ParsingError::ParseInt(IntErrorKind::Empty))));
  assert!(matches!(txt("AMOUNT: 1.5\n"), Err(ParsingError::ParseInt(IntErrorKind::InvalidDigit))));
  match txt("TX_TYPE: Deposit\n") {
    Err(ParsingError::ParseTxType(TxTypeError::InvalidSting(text))) => assert_eq!(text, "Deposit"),
    other => panic!("unexpected result: {:?}", other),
  }
  match txt("STATUS: DONE\n") {
    Err(ParsingError::ParseStatus(StatusTypeError::InvalidSting(text))) => assert_eq!(text, "DONE"),
    other => panic!("unexpected result: {:?}", other),
  }
  match TxType::from_str("") {
    Err(TxTypeError::InvalidSting(text)) => assert_eq!(text, ""),
    other => panic!("unexpected result: {:?}", other),
  }
  match Status::from_str("success") {
    Err(StatusTypeError::InvalidSting(text)) => assert_eq!(text, "success"),
    other => panic!("unexpected result: {:?}", other),
  }
}

#[test]
fn conversion_stops_at_the_first_record_that_fails() {
  let text = "TX_ID,TX_TYPE,FROM_USER_ID,TO_USER_ID,AMOUNT,TIMESTAMP,STATUS,DESCRIPTION\n1,DEPOSIT,2,3,4,5,SUCCESS,\"a\"\nbroken\n6,DEPOSIT,2,3,4,5,SUCCESS,\"b\"\n";
  let mut reader = TextReportReader::new(text.as_bytes().to_vec());
  let mut writer: Vec<u8> = vec![];
  assert_eq!(convert(&mut reader, &mut writer, DataFormat::Csv, DataFormat::Csv), Ok(()));
  assert_eq!(
    writer,
    "TX_ID,TX_TYPE,FROM_USER_ID,TO_USER_ID,AMOUNT,TIMESTAMP,STATUS,DESCRIPTION\n1,DEPOSIT,2,3,4,5,SUCCESS,\"a\"\n"
      .as_bytes()
  );
  assert_eq!(reader.remaining(), "6,DEPOSIT,2,3,4,5,SUCCESS,\"b\"\n".len());
}
