//! The comma-separated codec: one record per line, eight columns in a fixed
//! order, the description between literal double quotes.
use crate::errors::{IoFailure, NameErrorView, ParsingError, ParsingErrorView, SerializeError};
use crate::record::{decoded_view, BankRecord, BankRecordParser, RecordView, Status, TxType};
use crate::text::{
    decimal, encode_lines, is_digit, is_line, is_word_char, join,
    lemma_digits_free, lemma_join_free, lemma_line_found, lemma_parse_decimal_round_trip,
    lemma_quoted_free, lemma_split_join, lemma_strip_quotes_wrapped, lemma_word_free, lemma_words,
    parse_decimal, parse_u64, push_decimal, push_line, quoted, split, split_fields, str_chars,
    strip_quotes, texts, unquoted,
};
use crate::txt_format::{line_at, next_line, TextReportReader};
use crate::RECORD_LINES_NUMBER;
use vstd::prelude::*;
use vstd::string::StringExecFns;
use vstd::utf8::*;

verus! {

/// A record to be written as one comma-separated row.
pub struct CsvRecord(pub BankRecord);

/// The header line that opens a comma-separated ledger.
pub const CVS_HEADERS: &'static str =
    "TX_ID,TX_TYPE,FROM_USER_ID,TO_USER_ID,AMOUNT,TIMESTAMP,STATUS,DESCRIPTION";

/// The header line as text.
pub open spec fn header_line() -> Seq<char> {
    "TX_ID,TX_TYPE,FROM_USER_ID,TO_USER_ID,AMOUNT,TIMESTAMP,STATUS,DESCRIPTION"@
}

/// Message of the error for a source that has no line left.
pub open spec fn no_line_message() -> Seq<char> {
    "EOF: File has no lines to read"@
}

/// The record that the eight column texts stand for. Columns are read left
/// to right and the first one that fails decides the error.
pub open spec fn columns_record(f: Seq<Seq<char>>) -> Result<RecordView, ParsingErrorView> {
    if parse_decimal(f[0]) is Err {
        Err(ParsingErrorView::ParseInt(parse_decimal(f[0])->Err_0))
    } else if TxType::of_name(f[1]) is None {
        Err(ParsingErrorView::ParseTxType(NameErrorView::InvalidSting(f[1])))
    } else if parse_decimal(f[2]) is Err {
        Err(ParsingErrorView::ParseInt(parse_decimal(f[2])->Err_0))
    } else if parse_decimal(f[3]) is Err {
        Err(ParsingErrorView::ParseInt(parse_decimal(f[3])->Err_0))
    } else if parse_decimal(f[4]) is Err {
        Err(ParsingErrorView::ParseInt(parse_decimal(f[4])->Err_0))
    } else if parse_decimal(f[5]) is Err {
        Err(ParsingErrorView::ParseInt(parse_decimal(f[5])->Err_0))
    } else if Status::of_name(f[6]) is None {
        Err(ParsingErrorView::ParseStatus(NameErrorView::InvalidSting(f[6])))
    } else {
        Ok(
            RecordView {
                tx_id: parse_decimal(f[0])->Ok_0,
                tx_type: TxType::of_name(f[1])->0,
                from_user_id: parse_decimal(f[2])->Ok_0,
                to_user_id: parse_decimal(f[3])->Ok_0,
                amount: parse_decimal(f[4])->Ok_0,
                timestamp: parse_decimal(f[5])->Ok_0,
                status: Status::of_name(f[6])->0,
                description: strip_quotes(f[7]),
            },
        )
    }
}

/// The record that one row stands for: the row must split at its commas
/// into exactly eight columns.
pub open spec fn row_record(line: Seq<char>) -> Result<RecordView, ParsingErrorView> {
    let f = split(line, ',');
    if f.len() != 8 {
        Err(ParsingErrorView::IO(IoFailure::InvalidData))
    } else {
        columns_record(f)
    }
}

/// What the decoder finds in `data` at offset `pos`: the record of the line
/// that starts there, and the start of the line after it.
pub open spec fn csv_decoding(data: Seq<u8>, pos: int) -> (
    Result<RecordView, ParsingErrorView>,
    int,
) {
    if pos >= data.len() {
        (Err(ParsingErrorView::Custom(no_line_message())), pos)
    } else if !valid_utf8(line_at(data, pos)) {
        (Err(ParsingErrorView::IO(IoFailure::InvalidData)), next_line(data, pos))
    } else {
        (row_record(decode_utf8(line_at(data, pos))), next_line(data, pos))
    }
}

/// The eight column texts of `rec`, the description between double quotes.
pub open spec fn csv_columns(rec: RecordView) -> Seq<Seq<char>> {
    seq![
        decimal(rec.tx_id as nat),
        rec.tx_type.name_chars(),
        decimal(rec.from_user_id as nat),
        decimal(rec.to_user_id as nat),
        decimal(rec.amount as nat),
        decimal(rec.timestamp as nat),
        rec.status.name_chars(),
        quoted(rec.description),
    ]
}

/// The row of `rec`, without its line feed: its columns with commas between.
pub open spec fn csv_row(rec: RecordView) -> Seq<char> {
    join(csv_columns(rec), ',')
}

/// The bytes of the row of `rec`.
pub open spec fn csv_encoding(rec: RecordView) -> Seq<u8> {
    encode_lines(seq![csv_row(rec)])
}

/// Decodes one row given as characters.
pub fn parse_row(line: &Vec<char>) -> (res: Result<BankRecord, ParsingError>)
    ensures
        decoded_view(res) == row_record(line@),
{
    let fields = split_fields(line, ',');
    let ghost f = split(line@, ',');
    if fields.len() != RECORD_LINES_NUMBER {
        return Err(ParsingError::IO(IoFailure::InvalidData));
    }
    assert(forall|i: int| 0 <= i < 8 ==> #[trigger] f[i] == fields[i]@);
    let tx_id = match parse_u64(&fields[0]) {
        Ok(v) => v,
        Err(kind) => {
            return Err(ParsingError::ParseInt(kind));
        },
    };
    let tx_type = match TxType::from_chars(&fields[1]) {
        Ok(v) => v,
        Err(e) => {
            return Err(ParsingError::ParseTxType(e));
        },
    };
    let from_user_id = match parse_u64(&fields[2]) {
        Ok(v) => v,
        Err(kind) => {
            return Err(ParsingError::ParseInt(kind));
        },
    };
    let to_user_id = match parse_u64(&fields[3]) {
        Ok(v) => v,
        Err(kind) => {
            return Err(ParsingError::ParseInt(kind));
        },
    };
    let amount = match parse_u64(&fields[4]) {
        Ok(v) => v,
        Err(kind) => {
            return Err(ParsingError::ParseInt(kind));
        },
    };
    let timestamp = match parse_u64(&fields[5]) {
        Ok(v) => v,
        Err(kind) => {
            return Err(ParsingError::ParseInt(kind));
        },
    };
    let status = match Status::from_chars(&fields[6]) {
        Ok(v) => v,
        Err(e) => {
            return Err(ParsingError::ParseStatus(e));
        },
    };
    let description = unquoted(&fields[7]);
    Ok(
        BankRecord {
            tx_id,
            tx_type,
            from_user_id,
            to_user_id,
            amount,
            timestamp,
            status,
            description,
        },
    )
}

/// The row of `record` as a string, without its line feed.
pub fn format_row(record: &BankRecord) -> (row: String)
    ensures
        row@ == csv_row(record@),
{
    let ghost c = csv_columns(record@);
    let mut row = String::new();
    push_decimal(&mut row, record.tx_id);
    row.push(',');
    row.append(record.tx_type.name());
    row.push(',');
    push_decimal(&mut row, record.from_user_id);
    row.push(',');
    let ghost r1 = row@;
    assert(r1 =~= c[0] + seq![','] + c[1] + seq![','] + c[2] + seq![',']);
    push_decimal(&mut row, record.to_user_id);
    row.push(',');
    push_decimal(&mut row, record.amount);
    row.push(',');
    let ghost r2 = row@;
    assert(r2 =~= r1 + c[3] + seq![','] + c[4] + seq![',']);
    push_decimal(&mut row, record.timestamp);
    row.push(',');
    row.append(record.status.name());
    row.push(',');
    let ghost r3 = row@;
    assert(r3 =~= r2 + c[5] + seq![','] + c[6] + seq![',']);
    row.push('"');
    row.append(record.description.as_str());
    row.push('"');
    assert(row@ =~= r3 + c[7]);
    proof {
        lemma_row_layout(c);
    }
    row
}

/// Eight joined columns, written out.
proof fn lemma_row_layout(c: Seq<Seq<char>>)
    requires
        c.len() == 8,
    ensures
        join(c, ',') == c[0] + seq![','] + c[1] + seq![','] + c[2] + seq![','] + c[3] + seq![',']
            + c[4] + seq![','] + c[5] + seq![','] + c[6] + seq![','] + c[7],
{
    let c1 = c.drop_first();
    let c2 = c1.drop_first();
    let c3 = c2.drop_first();
    let c4 = c3.drop_first();
    let c5 = c4.drop_first();
    let c6 = c5.drop_first();
    let c7 = c6.drop_first();
    assert(join(c7, ',') == c[7]);
    assert(join(c6, ',') =~= c[6] + seq![','] + c[7]);
    assert(join(c5, ',') =~= c[5] + seq![','] + c[6] + seq![','] + c[7]);
    assert(join(c4, ',') =~= c[4] + seq![','] + c[5] + seq![','] + c[6] + seq![','] + c[7]);
    assert(join(c3, ',') =~= c[3] + seq![','] + c[4] + seq![','] + c[5] + seq![','] + c[6] + seq![
        ',',
    ] + c[7]);
    assert(join(c2, ',') =~= c[2] + seq![','] + c[3] + seq![','] + c[4] + seq![','] + c[5] + seq![
        ',',
    ] + c[6] + seq![','] + c[7]);
    assert(join(c1, ',') =~= c[1] + seq![','] + c[2] + seq![','] + c[3] + seq![','] + c[4] + seq![
        ',',
    ] + c[5] + seq![','] + c[6] + seq![','] + c[7]);
    assert(join(c, ',') =~= c[0] + seq![','] + c[1] + seq![','] + c[2] + seq![','] + c[3] + seq![
        ',',
    ] + c[4] + seq![','] + c[5] + seq![','] + c[6] + seq![','] + c[7]);
}

impl BankRecordParser for CsvRecord {
    open spec fn decoding(data: Seq<u8>, pos: int) -> (Result<RecordView, ParsingErrorView>, int) {
        csv_decoding(data, pos)
    }

    open spec fn record(&self) -> RecordView {
        self.0@
    }

    open spec fn encodable(rec: RecordView) -> bool {
        true
    }

    open spec fn encoding(rec: RecordView) -> Seq<u8> {
        csv_encoding(rec)
    }

    /// Decodes the row on the next line of `buffer`.
    fn from_read(buffer: &mut TextReportReader) -> (res: Result<BankRecord, ParsingError>) {
        let line = match buffer.read_line() {
            Some(l) => l,
            None => {
                return Err(ParsingError::Custom(String::from_str("EOF: File has no lines to read")));
            },
        };
        let text = match String::from_utf8(line) {
            Ok(s) => s,
            Err(_) => {
                return Err(ParsingError::IO(IoFailure::InvalidData));
            },
        };
        let chars = str_chars(text.as_str());
        parse_row(&chars)
    }

    /// Appends the row of the wrapped record and a line feed.
    fn write_to(&mut self, buffer: &mut Vec<u8>) -> (res: Result<(), SerializeError>) {
        write_row(&self.0, buffer);
        Ok(())
    }
}

/// Appends the row of `record` and a line feed.
pub fn write_row(record: &BankRecord, buffer: &mut Vec<u8>)
    ensures
        final(buffer)@ == old(buffer)@ + csv_encoding(record@),
{
    let row = format_row(record);
    push_line(buffer, row.as_str());
    assert(seq![csv_row(record@)].drop_last() =~= Seq::<Seq<char>>::empty());
    assert(encode_lines(seq![csv_row(record@)].drop_last()) =~= Seq::<u8>::empty());
    assert(buffer@ =~= old(buffer)@ + csv_encoding(record@));
}

/// No column of a record holds `c`, where `c` is neither a digit, an
/// upper-case letter, an underscore nor a double quote, and the description
/// does not hold it.
pub proof fn lemma_columns_free(rec: RecordView, c: char)
    requires
        !is_digit(c),
        !is_word_char(c),
        c != '"',
        !rec.description.contains(c),
    ensures
        forall|i: int| 0 <= i < 8 ==> !(#[trigger] csv_columns(rec)[i]).contains(c),
{
    lemma_words();
    lemma_parse_decimal_round_trip(rec.tx_id);
    lemma_parse_decimal_round_trip(rec.from_user_id);
    lemma_parse_decimal_round_trip(rec.to_user_id);
    lemma_parse_decimal_round_trip(rec.amount);
    lemma_parse_decimal_round_trip(rec.timestamp);
    lemma_digits_free(decimal(rec.tx_id as nat), c);
    lemma_digits_free(decimal(rec.from_user_id as nat), c);
    lemma_digits_free(decimal(rec.to_user_id as nat), c);
    lemma_digits_free(decimal(rec.amount as nat), c);
    lemma_digits_free(decimal(rec.timestamp as nat), c);
    lemma_word_free(rec.tx_type.name_chars(), c);
    lemma_word_free(rec.status.name_chars(), c);
    lemma_quoted_free(rec.description, c);
}

/// A row reads back as its record where the description holds neither a
/// double quote nor a comma.
pub proof fn lemma_row_round_trip(rec: RecordView)
    requires
        !rec.description.contains('"'),
        !rec.description.contains(','),
    ensures
        row_record(csv_row(rec)) == Ok::<RecordView, ParsingErrorView>(rec),
{
    let c = csv_columns(rec);
    lemma_columns_free(rec, ',');
    lemma_split_join(c, ',');
    lemma_parse_decimal_round_trip(rec.tx_id);
    lemma_parse_decimal_round_trip(rec.from_user_id);
    lemma_parse_decimal_round_trip(rec.to_user_id);
    lemma_parse_decimal_round_trip(rec.amount);
    lemma_parse_decimal_round_trip(rec.timestamp);
    crate::record::lemma_tags_round_trip(rec.tx_type, rec.status);
    lemma_strip_quotes_wrapped(rec.description);
    assert(columns_record(c) == Ok::<RecordView, ParsingErrorView>(rec));
}

/// What the decoder finds where the bytes of a line of text, a line feed and
/// then `rest` follow the bytes `pre`: the record of that line.
pub proof fn lemma_csv_line(pre: Seq<u8>, line: Seq<char>, rest: Seq<u8>)
    requires
        is_line(line),
    ensures
        csv_decoding(pre + encode_utf8(line) + seq![10u8] + rest, pre.len() as int) == (
            row_record(line),
            pre.len() as int + encode_utf8(line).len() + 1,
        ),
{
    lemma_line_found(pre, line, rest);
}

/// Round trip: the bytes written for a record, between any bytes `pre` and
/// `tail`, decode from their start to that record, and the decoder stops
/// behind them. This holds where the description holds no double quote, comma
/// or line feed.
pub proof fn lemma_csv_round_trip(pre: Seq<u8>, rec: RecordView, tail: Seq<u8>)
    requires
        !rec.description.contains('"'),
        !rec.description.contains(','),
        !rec.description.contains('\n'),
    ensures
        csv_decoding(pre + csv_encoding(rec) + tail, pre.len() as int) == (
            Ok::<RecordView, ParsingErrorView>(rec),
            pre.len() as int + csv_encoding(rec).len(),
        ),
{
    let row = csv_row(rec);
    lemma_columns_free(rec, '\n');
    lemma_join_free(csv_columns(rec), ',', '\n');
    lemma_row_layout(csv_columns(rec));
    assert(row.last() == '"');
    lemma_row_round_trip(rec);
    let empty = Seq::<u8>::empty();
    lemma_csv_line(pre, row, tail);
    assert(seq![row].drop_last() =~= Seq::<Seq<char>>::empty());
    assert(encode_lines(seq![row].drop_last()) =~= empty);
    assert(seq![row].last() == row);
    assert(csv_encoding(rec) =~= encode_utf8(row) + seq![10u8]);
    assert(pre + csv_encoding(rec) + tail =~= pre + encode_utf8(row) + seq![10u8] + tail);
}

} // verus!
