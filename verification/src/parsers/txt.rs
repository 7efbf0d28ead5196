//! The block codec: eight `KEY: VALUE` lines per record in any order, with
//! comment lines and blank separator lines.
use crate::errors::{IoFailure, NameErrorView, ParsingError, ParsingErrorView, SerializeError};
use crate::record::{
    decoded_view, default_record, BankRecord, BankRecordParser, RecordView, Status, TxType,
};
use crate::text::{
    all_digits, decimal, encode_lines, find_char, index_of, is_digit, is_line, is_whitespace,
    is_word, is_word_char, lemma_concat_free, lemma_decimal_round_trip, lemma_digits_free,
    lemma_encode_lines_concat, lemma_encode_lines_first, lemma_index_of, lemma_line_found,
    lemma_parse_decimal_round_trip, lemma_quoted_free, lemma_strip_quotes_free,
    lemma_strip_quotes_wrapped,
    lemma_trim_same, lemma_trim_space, lemma_word_free, lemma_words, parse_decimal, parse_u64,
    push_decimal, push_lines, quoted, spells, str_chars, string_texts, strip_quotes, trim, trimmed,
    unquoted,
};
use crate::txt_format::{lemma_line_end, line_at, next_line, TextReportReader};
use crate::RECORD_LINES_NUMBER;
use vstd::prelude::*;
use vstd::string::StringExecFns;
use vstd::utf8::*;

verus! {

/// A record to be written as one text block.
pub struct TxtRecord(pub BankRecord);

/// Marker type of the block representation.
pub struct TxtReportParser;

/// The key of a key line: the trimmed text before its first colon.
pub open spec fn line_key(line: Seq<char>) -> Seq<char> {
    trim(line.subrange(0, index_of(line, ':')))
}

/// The value of a key line: the trimmed text after its first colon.
pub open spec fn line_value(line: Seq<char>) -> Seq<char> {
    trim(line.subrange(index_of(line, ':') + 1, line.len() as int))
}

/// The record `acc` after one key line: the field that the key names takes
/// the value of the line; the other fields stay.
pub open spec fn apply_line(acc: RecordView, line: Seq<char>) -> Result<
    RecordView,
    ParsingErrorView,
> {
    let key = line_key(line);
    let value = line_value(line);
    if index_of(line, ':') >= line.len() {
        Err(ParsingErrorView::IO(IoFailure::InvalidData))
    } else if key == "TX_ID"@ {
        match parse_decimal(value) {
            Ok(v) => Ok(RecordView { tx_id: v, ..acc }),
            Err(kind) => Err(ParsingErrorView::ParseInt(kind)),
        }
    } else if key == "TX_TYPE"@ {
        match TxType::of_name(value) {
            Some(v) => Ok(RecordView { tx_type: v, ..acc }),
            None => Err(ParsingErrorView::ParseTxType(NameErrorView::InvalidSting(value))),
        }
    } else if key == "FROM_USER_ID"@ {
        match parse_decimal(value) {
            Ok(v) => Ok(RecordView { from_user_id: v, ..acc }),
            Err(kind) => Err(ParsingErrorView::ParseInt(kind)),
        }
    } else if key == "TO_USER_ID"@ {
        match parse_decimal(value) {
            Ok(v) => Ok(RecordView { to_user_id: v, ..acc }),
            Err(kind) => Err(ParsingErrorView::ParseInt(kind)),
        }
    } else if key == "AMOUNT"@ {
        match parse_decimal(value) {
            Ok(v) => Ok(RecordView { amount: v, ..acc }),
            Err(kind) => Err(ParsingErrorView::ParseInt(kind)),
        }
    } else if key == "TIMESTAMP"@ {
        match parse_decimal(value) {
            Ok(v) => Ok(RecordView { timestamp: v, ..acc }),
            Err(kind) => Err(ParsingErrorView::ParseInt(kind)),
        }
    } else if key == "STATUS"@ {
        match Status::of_name(value) {
            Some(v) => Ok(RecordView { status: v, ..acc }),
            None => Err(ParsingErrorView::ParseStatus(NameErrorView::InvalidSting(value))),
        }
    } else if key == "DESCRIPTION"@ {
        Ok(RecordView { description: strip_quotes(value), ..acc })
    } else {
        Err(ParsingErrorView::IO(IoFailure::InvalidData))
    }
}

/// What the decoder finds in `data` from `pos` on, after `count` key lines
/// that gave `acc`. Comment lines are skipped, blank lines only before the
/// first key line; the eighth key line completes the record.
pub open spec fn block_decoding(data: Seq<u8>, pos: int, count: nat, acc: RecordView) -> (
    Result<RecordView, ParsingErrorView>,
    int,
)
    decreases data.len() - pos,
{
    if pos < 0 || pos >= data.len() {
        (Err(ParsingErrorView::IO(IoFailure::UnexpectedEof)), pos)
    } else {
        proof {
            lemma_line_end(data, pos);
        }
        let next = next_line(data, pos);
        if !valid_utf8(line_at(data, pos)) {
            (Err(ParsingErrorView::IO(IoFailure::InvalidData)), next)
        } else {
            let line = decode_utf8(line_at(data, pos));
            if line.len() > 0 && line[0] == '#' {
                block_decoding(data, next, count, acc)
            } else if line.len() == 0 {
                if count == 0 {
                    block_decoding(data, next, count, acc)
                } else {
                    (Err(ParsingErrorView::IO(IoFailure::UnexpectedEof)), next)
                }
            } else {
                match apply_line(acc, line) {
                    Err(e) => (Err(e), next),
                    Ok(updated) => if count + 1 >= 8 {
                        (Ok(updated), next)
                    } else {
                        block_decoding(data, next, count + 1, updated)
                    },
                }
            }
        }
    }
}

/// What the decoder finds in `data` from `pos` on, starting a new block.
pub open spec fn txt_decoding(data: Seq<u8>, pos: int) -> (
    Result<RecordView, ParsingErrorView>,
    int,
) {
    block_decoding(data, pos, 0, default_record())
}

/// The number in the comment line of a block: the transaction identifier
/// modulo 10000, plus one.
pub open spec fn block_number(tx_id: u64) -> nat {
    (tx_id % 10000 + 1) as nat
}

/// A key line: the key, a colon, a space and the value.
pub open spec fn key_line(key: Seq<char>, value: Seq<char>) -> Seq<char> {
    key + ": "@ + value
}

/// The comment line that opens the block of `rec`.
pub open spec fn comment_line(rec: RecordView) -> Seq<char> {
    "# Record "@ + decimal(block_number(rec.tx_id)) + " ("@ + rec.tx_type.name_chars() + ")"@
}

/// The eight key lines of `rec` in canonical order.
pub open spec fn key_lines(rec: RecordView) -> Seq<Seq<char>> {
    seq![
        key_line("TX_ID"@, decimal(rec.tx_id as nat)),
        key_line("TX_TYPE"@, rec.tx_type.name_chars()),
        key_line("FROM_USER_ID"@, decimal(rec.from_user_id as nat)),
        key_line("TO_USER_ID"@, decimal(rec.to_user_id as nat)),
        key_line("AMOUNT"@, decimal(rec.amount as nat)),
        key_line("TIMESTAMP"@, decimal(rec.timestamp as nat)),
        key_line("STATUS"@, rec.status.name_chars()),
        key_line("DESCRIPTION"@, quoted(rec.description)),
    ]
}

/// The ten lines of the block of `rec`: a comment, the eight key lines in
/// canonical order, and a blank line.
pub open spec fn txt_lines(rec: RecordView) -> Seq<Seq<char>> {
    seq![comment_line(rec)] + key_lines(rec) + seq![Seq::<char>::empty()]
}

/// The bytes of the block of `rec`.
pub open spec fn txt_encoding(rec: RecordView) -> Seq<u8> {
    encode_lines(txt_lines(rec))
}

/// Applies one key line, given as characters, to `record`.
pub fn read_key_line(record: BankRecord, line: &Vec<char>) -> (res: Result<
    BankRecord,
    ParsingError,
>)
    ensures
        decoded_view(res) == apply_line(record@, line@),
{
    let colon = find_char(line, 0, ':');
    assert(line@.subrange(0, line.len() as int) =~= line@);
    if colon >= line.len() {
        return Err(ParsingError::IO(IoFailure::InvalidData));
    }
    let key = trimmed(line, 0, colon);
    let value = trimmed(line, colon + 1, line.len());
    let mut record = record;
    if spells(&key, "TX_ID") {
        match parse_u64(&value) {
            Ok(v) => {
                record.tx_id = v;
            },
            Err(kind) => {
                return Err(ParsingError::ParseInt(kind));
            },
        }
    } else if spells(&key, "TX_TYPE") {
        match TxType::from_chars(&value) {
            Ok(v) => {
                record.tx_type = v;
            },
            Err(e) => {
                return Err(ParsingError::ParseTxType(e));
            },
        }
    } else if spells(&key, "FROM_USER_ID") {
        match parse_u64(&value) {
            Ok(v) => {
                record.from_user_id = v;
            },
            Err(kind) => {
                return Err(ParsingError::ParseInt(kind));
            },
        }
    } else if spells(&key, "TO_USER_ID") {
        match parse_u64(&value) {
            Ok(v) => {
                record.to_user_id = v;
            },
            Err(kind) => {
                return Err(ParsingError::ParseInt(kind));
            },
        }
    } else if spells(&key, "AMOUNT") {
        match parse_u64(&value) {
            Ok(v) => {
                record.amount = v;
            },
            Err(kind) => {
                return Err(ParsingError::ParseInt(kind));
            },
        }
    } else if spells(&key, "TIMESTAMP") {
        match parse_u64(&value) {
            Ok(v) => {
                record.timestamp = v;
            },
            Err(kind) => {
                return Err(ParsingError::ParseInt(kind));
            },
        }
    } else if spells(&key, "STATUS") {
        match Status::from_chars(&value) {
            Ok(v) => {
                record.status = v;
            },
            Err(e) => {
                return Err(ParsingError::ParseStatus(e));
            },
        }
    } else if spells(&key, "DESCRIPTION") {
        record.description = unquoted(&value);
    } else {
        return Err(ParsingError::IO(IoFailure::InvalidData));
    }
    Ok(record)
}

/// A key line whose value is a number.
fn number_line(key: &str, n: u64) -> (line: String)
    ensures
        line@ == key_line(key@, decimal(n as nat)),
{
    let mut line = String::from_str(key);
    line.append(": ");
    push_decimal(&mut line, n);
    line
}

/// A key line whose value is a text.
fn text_line(key: &str, value: &str) -> (line: String)
    ensures
        line@ == key_line(key@, value@),
{
    let mut line = String::from_str(key);
    line.append(": ");
    line.append(value);
    line
}

/// The ten lines of the block of `record`.
pub fn format_block(record: &BankRecord) -> (lines: Vec<String>)
    ensures
        string_texts(lines@) == txt_lines(record@),
{
    let mut comment = String::from_str("# Record ");
    push_decimal(&mut comment, record.tx_id % 10000 + 1);
    comment.append(" (");
    comment.append(record.tx_type.name());
    comment.append(")");
    let mut description = String::new();
    description.push('"');
    description.append(record.description.as_str());
    description.push('"');
    assert(description@ =~= quoted(record@.description));
    let mut lines: Vec<String> = Vec::new();
    lines.push(comment);
    lines.push(number_line("TX_ID", record.tx_id));
    lines.push(text_line("TX_TYPE", record.tx_type.name()));
    lines.push(number_line("FROM_USER_ID", record.from_user_id));
    lines.push(number_line("TO_USER_ID", record.to_user_id));
    lines.push(number_line("AMOUNT", record.amount));
    lines.push(number_line("TIMESTAMP", record.timestamp));
    lines.push(text_line("STATUS", record.status.name()));
    lines.push(text_line("DESCRIPTION", description.as_str()));
    lines.push(String::new());
    assert(string_texts(lines@) =~= txt_lines(record@));
    lines
}

impl BankRecordParser for TxtRecord {
    open spec fn decoding(data: Seq<u8>, pos: int) -> (Result<RecordView, ParsingErrorView>, int) {
        txt_decoding(data, pos)
    }

    open spec fn record(&self) -> RecordView {
        self.0@
    }

    open spec fn encodable(rec: RecordView) -> bool {
        true
    }

    open spec fn encoding(rec: RecordView) -> Seq<u8> {
        txt_encoding(rec)
    }

    /// Decodes the next block of `buffer`.
    fn from_read(buffer: &mut TextReportReader) -> (res: Result<BankRecord, ParsingError>) {
        let ghost data = buffer.bytes();
        let ghost start = buffer.offset();
        let mut record = BankRecord::new();
        let mut count: usize = 0;
        loop
            invariant
                buffer.bytes() == data,
                data == old(buffer).bytes(),
                start == old(buffer).offset(),
                start <= buffer.offset(),
                count < 8,
                count > 0 ==> buffer.offset() > start,
                block_decoding(data, buffer.offset(), count as nat, record@) == txt_decoding(
                    data,
                    start,
                ),
            decreases data.len() - buffer.offset(),
        {
            let ghost pos = buffer.offset();
            let line = match buffer.read_line() {
                Some(l) => l,
                None => {
                    return Err(ParsingError::IO(IoFailure::UnexpectedEof));
                },
            };
            proof {
                lemma_line_end(data, pos);
            }
            let text = match String::from_utf8(line) {
                Ok(s) => s,
                Err(_) => {
                    return Err(ParsingError::IO(IoFailure::InvalidData));
                },
            };
            let chars = str_chars(text.as_str());
            if chars.len() > 0 && chars[0] == '#' {
            } else if chars.len() == 0 {
                if count != 0 {
                    return Err(ParsingError::IO(IoFailure::UnexpectedEof));
                }
            } else {
                record = match read_key_line(record, &chars) {
                    Ok(r) => r,
                    Err(e) => {
                        return Err(e);
                    },
                };
                count += 1;
                if count == RECORD_LINES_NUMBER {
                    return Ok(record);
                }
            }
        }
    }

    /// Appends the block of the wrapped record.
    fn write_to(&mut self, buffer: &mut Vec<u8>) -> (res: Result<(), SerializeError>) {
        write_block(&self.0, buffer);
        Ok(())
    }
}

/// Appends the block of `record`.
pub fn write_block(record: &BankRecord, buffer: &mut Vec<u8>)
    ensures
        final(buffer)@ == old(buffer)@ + txt_encoding(record@),
{
    let lines = format_block(record);
    push_lines(buffer, &lines);
}

/// The record `acc` after the key lines `lines`, applied first to last, or
/// the error of the first line that fails.
pub open spec fn apply_lines(acc: RecordView, lines: Seq<Seq<char>>) -> Result<
    RecordView,
    ParsingErrorView,
>
    decreases lines.len(),
{
    if lines.len() == 0 {
        Ok(acc)
    } else {
        match apply_line(acc, lines[0]) {
            Err(e) => Err(e),
            Ok(updated) => apply_lines(updated, lines.drop_first()),
        }
    }
}

/// Whether `s` can stand as a key line in a block: one line of text that is
/// not blank and not a comment.
pub open spec fn is_key_text(s: Seq<char>) -> bool {
    is_line(s) && s.len() > 0 && s[0] != '#'
}

/// `acc` with the field of position `k` in the canonical order taken from
/// `rec`, the description as a decoder reads it.
pub open spec fn with_field(acc: RecordView, rec: RecordView, k: int) -> RecordView {
    if k == 0 {
        RecordView { tx_id: rec.tx_id, ..acc }
    } else if k == 1 {
        RecordView { tx_type: rec.tx_type, ..acc }
    } else if k == 2 {
        RecordView { from_user_id: rec.from_user_id, ..acc }
    } else if k == 3 {
        RecordView { to_user_id: rec.to_user_id, ..acc }
    } else if k == 4 {
        RecordView { amount: rec.amount, ..acc }
    } else if k == 5 {
        RecordView { timestamp: rec.timestamp, ..acc }
    } else if k == 6 {
        RecordView { status: rec.status, ..acc }
    } else {
        RecordView { description: strip_quotes(quoted(rec.description)), ..acc }
    }
}

/// The eight keys in canonical order.
pub open spec fn keys() -> Seq<Seq<char>> {
    seq![
        "TX_ID"@,
        "TX_TYPE"@,
        "FROM_USER_ID"@,
        "TO_USER_ID"@,
        "AMOUNT"@,
        "TIMESTAMP"@,
        "STATUS"@,
        "DESCRIPTION"@,
    ]
}

/// `rec` as a decoder reads it back: with the double quotes that its
/// description may hold removed.
pub open spec fn as_decoded(rec: RecordView) -> RecordView {
    RecordView { description: strip_quotes(quoted(rec.description)), ..rec }
}

/// The parts of a key line made of a word and a value that neither starts
/// nor ends with white space.
pub proof fn lemma_key_line(key: Seq<char>, value: Seq<char>)
    requires
        is_word(key),
        value.len() > 0 ==> !is_whitespace(value[0]) && !is_whitespace(value.last()),
    ensures
        index_of(key_line(key, value), ':') == key.len(),
        key.len() < key_line(key, value).len(),
        line_key(key_line(key, value)) == key,
        line_value(key_line(key, value)) == value,
        key_line(key, value)[0] != '#',
{
    reveal_strlit(": ");
    let line = key_line(key, value);
    assert(": "@ =~= seq![':', ' ']);
    assert forall|j: int| 0 <= j < key.len() implies line[j] != ':' by {
        assert(line[j] == key[j]);
        assert(is_word_char(key[j]));
    }
    assert(line[key.len() as int] == ':');
    lemma_index_of(line, ':', key.len() as int);
    assert(line.subrange(0, key.len() as int) =~= key);
    assert(is_word_char(key[0]) && is_word_char(key.last()));
    lemma_trim_same(key);
    assert(line.subrange(key.len() as int + 1, line.len() as int) =~= seq![' '] + value);
    lemma_trim_space(value);
    assert(line[0] == key[0]);
}

/// The eight keys are words, no two of them the same.
pub proof fn lemma_keys()
    ensures
        forall|k: int| 0 <= k < 8 ==> is_word(#[trigger] keys()[k]),
        forall|j: int, k: int| 0 <= j < k < 8 ==> keys()[j] != keys()[k],
{
    lemma_words();
    reveal_strlit("TX_ID");
    reveal_strlit("TX_TYPE");
    reveal_strlit("FROM_USER_ID");
    reveal_strlit("TO_USER_ID");
    reveal_strlit("AMOUNT");
    reveal_strlit("TIMESTAMP");
    reveal_strlit("STATUS");
    reveal_strlit("DESCRIPTION");
    assert("AMOUNT"@[0] != "STATUS"@[0]);
    assert forall|j: int, k: int| 0 <= j < k < 8 implies keys()[j] != keys()[k] by {
        if keys()[j].len() == keys()[k].len() {
            assert(j == 4 && k == 6);
        }
    }
}

/// The value that the key line of position `k` carries for `rec`.
pub open spec fn field_text(rec: RecordView, k: int) -> Seq<char> {
    if k == 0 {
        decimal(rec.tx_id as nat)
    } else if k == 1 {
        rec.tx_type.name_chars()
    } else if k == 2 {
        decimal(rec.from_user_id as nat)
    } else if k == 3 {
        decimal(rec.to_user_id as nat)
    } else if k == 4 {
        decimal(rec.amount as nat)
    } else if k == 5 {
        decimal(rec.timestamp as nat)
    } else if k == 6 {
        rec.status.name_chars()
    } else {
        quoted(rec.description)
    }
}

/// What the key line of position `k` of `rec` is made of, and that applying
/// it sets the field of that position and no other.
pub proof fn lemma_apply_key_line(acc: RecordView, rec: RecordView, k: int)
    requires
        0 <= k < 8,
    ensures
        key_lines(rec)[k] == key_line(keys()[k], field_text(rec, k)),
        line_key(key_lines(rec)[k]) == keys()[k],
        line_value(key_lines(rec)[k]) == field_text(rec, k),
        key_lines(rec)[k].len() > 0,
        key_lines(rec)[k][0] != '#',
        apply_line(acc, key_lines(rec)[k]) == Ok::<RecordView, ParsingErrorView>(
            with_field(acc, rec, k),
        ),
{
    lemma_keys();
    lemma_words();
    lemma_parse_decimal_round_trip(rec.tx_id);
    lemma_parse_decimal_round_trip(rec.from_user_id);
    lemma_parse_decimal_round_trip(rec.to_user_id);
    lemma_parse_decimal_round_trip(rec.amount);
    lemma_parse_decimal_round_trip(rec.timestamp);
    crate::record::lemma_tags_round_trip(rec.tx_type, rec.status);
    let value = field_text(rec, k);
    assert(value.len() > 0 ==> !is_whitespace(value[0]) && !is_whitespace(value.last())) by {
        if k == 1 || k == 6 {
            assert(is_word(value));
            assert(is_word_char(value[0]) && is_word_char(value.last()));
        } else if k == 7 {
            assert(value[0] == '"' && value.last() == '"');
        } else {
            assert(all_digits(value));
            assert(is_digit(value[0]) && is_digit(value.last()));
        }
    }
    lemma_key_line(keys()[k], value);
    let line = key_lines(rec)[k];
    assert(line == key_line(keys()[k], value));
    assert(line_key(line) == keys()[k]);
    assert(forall|j: int| 0 <= j < 8 && j != k ==> keys()[j] != keys()[k]);
    assert(keys()[0] == "TX_ID"@ && keys()[1] == "TX_TYPE"@ && keys()[2] == "FROM_USER_ID"@
        && keys()[3] == "TO_USER_ID"@ && keys()[4] == "AMOUNT"@ && keys()[5] == "TIMESTAMP"@
        && keys()[6] == "STATUS"@ && keys()[7] == "DESCRIPTION"@);
}

/// `acc` with every field whose key line stands in `lines` taken from `rec`.
pub open spec fn covered(acc: RecordView, rec: RecordView, lines: Seq<Seq<char>>) -> RecordView {
    let d = as_decoded(rec);
    RecordView {
        tx_id: if lines.contains(key_lines(rec)[0]) { d.tx_id } else { acc.tx_id },
        tx_type: if lines.contains(key_lines(rec)[1]) { d.tx_type } else { acc.tx_type },
        from_user_id: if lines.contains(key_lines(rec)[2]) {
            d.from_user_id
        } else {
            acc.from_user_id
        },
        to_user_id: if lines.contains(key_lines(rec)[3]) { d.to_user_id } else { acc.to_user_id },
        amount: if lines.contains(key_lines(rec)[4]) { d.amount } else { acc.amount },
        timestamp: if lines.contains(key_lines(rec)[5]) { d.timestamp } else { acc.timestamp },
        status: if lines.contains(key_lines(rec)[6]) { d.status } else { acc.status },
        description: if lines.contains(key_lines(rec)[7]) { d.description } else { acc.description },
    }
}

/// A sequence holds `x` where `x` is its first element or its rest holds it.
proof fn lemma_contains_first(lines: Seq<Seq<char>>, x: Seq<char>)
    requires
        lines.len() > 0,
    ensures
        lines.contains(x) <==> (lines[0] == x || lines.drop_first().contains(x)),
{
    let rest = lines.drop_first();
    if lines.contains(x) {
        let i = choose|i: int| 0 <= i < lines.len() && lines[i] == x;
        if i > 0 {
            assert(rest[i - 1] == x);
        }
    }
    if rest.contains(x) {
        let i = choose|i: int| 0 <= i < rest.len() && rest[i] == x;
        assert(lines[i + 1] == x);
    }
}

/// Key lines of one record, in any order and number, set exactly the fields
/// whose lines occur.
pub proof fn lemma_apply_any_order(acc: RecordView, rec: RecordView, lines: Seq<Seq<char>>)
    requires
        forall|i: int| 0 <= i < lines.len() ==> key_lines(rec).contains(#[trigger] lines[i]),
    ensures
        apply_lines(acc, lines) == Ok::<RecordView, ParsingErrorView>(covered(acc, rec, lines)),
    decreases lines.len(),
{
    let all = key_lines(rec);
    if lines.len() == 0 {
        assert(covered(acc, rec, lines) == acc);
    } else {
        let first = lines[0];
        let rest = lines.drop_first();
        assert(all.contains(first));
        let k = choose|k: int| 0 <= k < all.len() && all[k] == first;
        lemma_apply_key_line(acc, rec, k);
        let updated = with_field(acc, rec, k);
        assert forall|i: int| 0 <= i < rest.len() implies all.contains(#[trigger] rest[i]) by {
            assert(rest[i] == lines[i + 1]);
        }
        lemma_apply_any_order(updated, rec, rest);
        assert forall|j: int| 0 <= j < 8 && j != k implies all[j] != first by {
            lemma_apply_key_line(acc, rec, j);
            lemma_keys();
        }
        lemma_contains_first(lines, all[0]);
        lemma_contains_first(lines, all[1]);
        lemma_contains_first(lines, all[2]);
        lemma_contains_first(lines, all[3]);
        lemma_contains_first(lines, all[4]);
        lemma_contains_first(lines, all[5]);
        lemma_contains_first(lines, all[6]);
        lemma_contains_first(lines, all[7]);
        assert(covered(updated, rec, rest) == covered(acc, rec, lines));
    }
}

/// Whether `lines` is an arrangement of the eight key lines of `rec`: eight
/// lines, each a key line of `rec`, and each key line of `rec` among them.
pub open spec fn arrangement_of(lines: Seq<Seq<char>>, rec: RecordView) -> bool {
    &&& lines.len() == 8
    &&& forall|i: int| 0 <= i < 8 ==> key_lines(rec).contains(#[trigger] lines[i])
    &&& forall|k: int| 0 <= k < 8 ==> lines.contains(#[trigger] key_lines(rec)[k])
}

/// Order does not matter: the eight key lines of a record, in any
/// arrangement, give the same record, whatever record they are applied to.
pub proof fn lemma_key_lines_any_order(acc: RecordView, rec: RecordView, lines: Seq<Seq<char>>)
    requires
        arrangement_of(lines, rec),
    ensures
        apply_lines(acc, lines) == Ok::<RecordView, ParsingErrorView>(as_decoded(rec)),
        apply_lines(acc, lines) == apply_lines(acc, key_lines(rec)),
{
    lemma_apply_any_order(acc, rec, lines);
    let all = key_lines(rec);
    assert(lines.contains(all[0]) && lines.contains(all[1]) && lines.contains(all[2])
        && lines.contains(all[3]) && lines.contains(all[4]) && lines.contains(all[5])
        && lines.contains(all[6]) && lines.contains(all[7]));
    assert forall|i: int| 0 <= i < 8 implies all.contains(#[trigger] all[i]) by {}
    lemma_apply_any_order(acc, rec, all);
    assert(all.contains(all[0]) && all.contains(all[1]) && all.contains(all[2]) && all.contains(
        all[3],
    ) && all.contains(all[4]) && all.contains(all[5]) && all.contains(all[6]) && all.contains(
        all[7],
    ));
}

/// What the decoder finds where the bytes of the key texts `lines`, the last
/// of which completes a block, and then `rest` follow the bytes `pre`: what
/// the lines give when applied in turn; where that is a record, the decoder
/// stops behind the last line.
pub proof fn lemma_block_of_lines(
    pre: Seq<u8>,
    lines: Seq<Seq<char>>,
    rest: Seq<u8>,
    count: nat,
    acc: RecordView,
)
    requires
        lines.len() > 0,
        count + lines.len() == 8,
        forall|i: int| 0 <= i < lines.len() ==> is_key_text(#[trigger] lines[i]),
    ensures
        block_decoding(pre + encode_lines(lines) + rest, pre.len() as int, count, acc).0
            == apply_lines(acc, lines),
        apply_lines(acc, lines) is Ok ==> block_decoding(
            pre + encode_lines(lines) + rest,
            pre.len() as int,
            count,
            acc,
        ).1 == pre.len() + encode_lines(lines).len(),
    decreases lines.len(),
{
    let first = lines[0];
    let others = lines.drop_first();
    let data = pre + encode_lines(lines) + rest;
    let after = encode_lines(others) + rest;
    assert(is_key_text(first));
    lemma_encode_lines_first(lines);
    assert(data =~= pre + encode_utf8(first) + seq![10u8] + after);
    lemma_line_found(pre, first, after);
    let next = pre.len() + encode_utf8(first).len() + 1;
    match apply_line(acc, first) {
        Err(e) => {},
        Ok(updated) => {
            if others.len() == 0 {
                assert(encode_lines(others) =~= Seq::<u8>::empty());
                assert(apply_lines(updated, others) == Ok::<RecordView, ParsingErrorView>(updated));
            } else {
                let before = pre + encode_utf8(first) + seq![10u8];
                assert forall|i: int| 0 <= i < others.len() implies is_key_text(
                    #[trigger] others[i],
                ) by {
                    assert(others[i] == lines[i + 1]);
                }
                lemma_block_of_lines(before, others, rest, count + 1, updated);
                assert(data =~= before + encode_lines(others) + rest);
            }
        },
    }
}

/// The key lines of a record whose description holds no line feed can stand
/// as key texts of a block.
pub proof fn lemma_key_lines_are_texts(rec: RecordView)
    requires
        !rec.description.contains('\n'),
    ensures
        forall|k: int| 0 <= k < 8 ==> is_key_text(#[trigger] key_lines(rec)[k]),
{
    lemma_keys();
    lemma_words();
    reveal_strlit(": ");
    assert(": "@ =~= seq![':', ' ']);
    lemma_parse_decimal_round_trip(rec.tx_id);
    lemma_parse_decimal_round_trip(rec.from_user_id);
    lemma_parse_decimal_round_trip(rec.to_user_id);
    lemma_parse_decimal_round_trip(rec.amount);
    lemma_parse_decimal_round_trip(rec.timestamp);
    lemma_quoted_free(rec.description, '\n');
    assert forall|k: int| 0 <= k < 8 implies is_key_text(#[trigger] key_lines(rec)[k]) by {
        let acc = rec;
        lemma_apply_key_line(acc, rec, k);
        let key = keys()[k];
        let value = field_text(rec, k);
        let line = key_lines(rec)[k];
        assert(is_word(key));
        lemma_word_free(key, '\n');
        assert(!": "@.contains('\n'));
        if k == 1 || k == 6 {
            assert(is_word(value));
            lemma_word_free(value, '\n');
            assert(is_word_char(value.last()));
        } else if k == 7 {
            assert(value.last() == '"');
        } else {
            assert(all_digits(value));
            lemma_digits_free(value, '\n');
            assert(is_digit(value.last()));
        }
        lemma_concat_free(key, ": "@, '\n');
        lemma_concat_free(key + ": "@, value, '\n');
        assert(line.last() == value.last());
    }
}

/// Order does not matter to the decoder: the bytes of the eight key lines of
/// a record, written in any arrangement, decode to the record that its
/// canonical block decodes to, whatever follows them. This holds where the
/// description holds no line feed.
pub proof fn lemma_txt_any_order(rec: RecordView, lines: Seq<Seq<char>>, tail: Seq<u8>)
    requires
        arrangement_of(lines, rec),
        !rec.description.contains('\n'),
    ensures
        txt_decoding(encode_lines(lines) + tail, 0) == (
            Ok::<RecordView, ParsingErrorView>(as_decoded(rec)),
            encode_lines(lines).len() as int,
        ),
        txt_decoding(encode_lines(lines) + tail, 0).0 == txt_decoding(
            encode_lines(key_lines(rec)) + tail,
            0,
        ).0,
{
    let all = key_lines(rec);
    let empty = Seq::<u8>::empty();
    lemma_key_lines_are_texts(rec);
    assert forall|i: int| 0 <= i < lines.len() implies is_key_text(#[trigger] lines[i]) by {
        assert(all.contains(lines[i]));
        let k = choose|k: int| 0 <= k < all.len() && all[k] == lines[i];
        assert(is_key_text(all[k]));
    }
    lemma_key_lines_any_order(default_record(), rec, lines);
    lemma_block_of_lines(empty, lines, tail, 0, default_record());
    assert(empty + encode_lines(lines) + tail =~= encode_lines(lines) + tail);
    lemma_block_of_lines(empty, all, tail, 0, default_record());
    assert(empty + encode_lines(all) + tail =~= encode_lines(all) + tail);
}

/// Round trip: the block written for a record, between any bytes `pre` and
/// `tail`, decodes from its start to that record. The decoder stops behind
/// the last key line, in front of the blank line that closes the block. This
/// holds where the description holds neither a double quote nor a line feed.
pub proof fn lemma_txt_round_trip(pre: Seq<u8>, rec: RecordView, tail: Seq<u8>)
    requires
        !rec.description.contains('"'),
        !rec.description.contains('\n'),
    ensures
        txt_decoding(pre + txt_encoding(rec) + tail, pre.len() as int) == (
            Ok::<RecordView, ParsingErrorView>(rec),
            pre.len() + txt_encoding(rec).len() - 1,
        ),
{
    let comment = comment_line(rec);
    let all = key_lines(rec);
    let blank = seq![Seq::<char>::empty()];
    let empty = Seq::<u8>::empty();
    // The layout of the bytes.
    lemma_encode_lines_concat(seq![comment] + all, blank);
    lemma_encode_lines_concat(seq![comment], all);
    assert(seq![comment].drop_last() =~= Seq::<Seq<char>>::empty());
    assert(encode_lines(seq![comment].drop_last()) =~= empty);
    assert(encode_lines(seq![comment]) =~= encode_utf8(comment) + seq![10u8]);
    assert(blank.drop_last() =~= Seq::<Seq<char>>::empty());
    assert(encode_lines(blank.drop_last()) =~= empty);
    assert(encode_utf8(Seq::<char>::empty()) =~= empty);
    assert(encode_lines(blank) =~= seq![10u8]);
    let head = pre + encode_utf8(comment) + seq![10u8];
    let rest = seq![10u8] + tail;
    let data = pre + txt_encoding(rec) + tail;
    assert(data =~= head + encode_lines(all) + rest);
    // The comment line is skipped.
    reveal_strlit("# Record ");
    reveal_strlit(" (");
    reveal_strlit(")");
    lemma_words();
    lemma_decimal_round_trip(block_number(rec.tx_id));
    let number = decimal(block_number(rec.tx_id));
    lemma_digits_free(number, '\n');
    lemma_word_free(rec.tx_type.name_chars(), '\n');
    lemma_concat_free("# Record "@, number, '\n');
    lemma_concat_free("# Record "@ + number, " ("@, '\n');
    lemma_concat_free("# Record "@ + number + " ("@, rec.tx_type.name_chars(), '\n');
    lemma_concat_free("# Record "@ + number + " ("@ + rec.tx_type.name_chars(), ")"@, '\n');
    assert(comment.last() == ')');
    assert(comment[0] == '#');
    assert(data =~= pre + encode_utf8(comment) + seq![10u8] + (encode_lines(all) + rest));
    lemma_line_found(pre, comment, encode_lines(all) + rest);
    assert(txt_decoding(data, pre.len() as int) == block_decoding(
        data,
        head.len() as int,
        0,
        default_record(),
    ));
    // The eight key lines give the record.
    lemma_key_lines_are_texts(rec);
    assert forall|i: int| 0 <= i < 8 implies all.contains(#[trigger] all[i]) by {}
    assert(arrangement_of(all, rec));
    lemma_key_lines_any_order(default_record(), rec, all);
    lemma_strip_quotes_wrapped(rec.description);
    assert(as_decoded(rec) == rec);
    lemma_block_of_lines(head, all, rest, 0, default_record());
}

/// A blank line in front of a block is skipped.
pub proof fn lemma_blank_skipped(pre: Seq<u8>, rest: Seq<u8>)
    ensures
        txt_decoding(pre + seq![10u8] + rest, pre.len() as int) == txt_decoding(
            pre + seq![10u8] + rest,
            pre.len() as int + 1,
        ),
{
    let none = Seq::<char>::empty();
    assert(encode_utf8(none) =~= Seq::<u8>::empty());
    assert(pre + seq![10u8] + rest =~= pre + encode_utf8(none) + seq![10u8] + rest);
    lemma_line_found(pre, none, rest);
}

/// A record decoded from a block holds no double quote in its description,
/// where the record that the block started from held none.
pub proof fn lemma_block_without_quotes(data: Seq<u8>, pos: int, count: nat, acc: RecordView)
    requires
        !acc.description.contains('"'),
    ensures
        block_decoding(data, pos, count, acc).0 matches Ok(r) ==> !r.description.contains('"'),
    decreases data.len() - pos,
{
    if 0 <= pos < data.len() {
        lemma_line_end(data, pos);
        let next = next_line(data, pos);
        if valid_utf8(line_at(data, pos)) {
            let line = decode_utf8(line_at(data, pos));
            if line.len() > 0 && line[0] == '#' {
                lemma_block_without_quotes(data, next, count, acc);
            } else if line.len() == 0 {
                if count == 0 {
                    lemma_block_without_quotes(data, next, count, acc);
                }
            } else {
                lemma_strip_quotes_free(line_value(line));
                match apply_line(acc, line) {
                    Err(e) => {},
                    Ok(updated) => {
                        if count + 1 < 8 {
                            lemma_block_without_quotes(data, next, count + 1, updated);
                        }
                    },
                }
            }
        }
    }
}

} // verus!
