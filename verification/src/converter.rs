//! Conversion of a ledger from one representation to another, and the two
//! uniform operations that pick a codec by format.
use crate::configs::DataFormat;
use crate::errors::{IoFailure, ParsingError, ParsingErrorView, SerializeError};
use crate::parsers::bin::{
    bin_decoding, bin_encodable, bin_encoding, lemma_bin_round_trip, write_frame, BinRecord,
};
use crate::parsers::csv::{
    csv_decoding, csv_encoding, csv_row, header_line, lemma_csv_round_trip, write_row, CsvRecord,
    CVS_HEADERS,
};
use crate::parsers::txt::{
    lemma_blank_skipped, lemma_txt_round_trip, txt_decoding, txt_encoding, txt_lines, write_block,
    TxtRecord,
};
use crate::parsers::txt::lemma_block_without_quotes;
use crate::record::{decoded_view, default_record, BankRecord, BankRecordParser, RecordView};
use crate::text::{
    encode_lines, is_line, lemma_line_found, lemma_strip_quotes_free, push_line, split,
    strip_quotes,
};
use crate::txt_format::{line_at, next_line, TextReportReader};
use vstd::prelude::*;
use vstd::utf8::*;

verus! {

/// Failure of a conversion.
#[derive(Debug, Clone, Copy, PartialEq, Eq, Structural)]
pub enum ConverterErrors {
    /// Reading or writing failed.
    IO(IoFailure),
    /// The input file has none of the accepted extensions.
    InvalidSourceFile,
    /// The input file does not exist.
    NotFound,
}

/// What decoding in `format` finds in `data` at `pos`, and where it stops.
pub open spec fn decoding(format: DataFormat, data: Seq<u8>, pos: int) -> (
    Result<RecordView, ParsingErrorView>,
    int,
) {
    match format {
        DataFormat::Bin => bin_decoding(data, pos),
        DataFormat::Csv => csv_decoding(data, pos),
        DataFormat::Txt => txt_decoding(data, pos),
    }
}

/// Whether `rec` can be written in `format`.
pub open spec fn encodable(format: DataFormat, rec: RecordView) -> bool {
    format == DataFormat::Bin ==> bin_encodable(rec)
}

/// The bytes of `rec` in `format`.
pub open spec fn encoding(format: DataFormat, rec: RecordView) -> Seq<u8> {
    match format {
        DataFormat::Bin => bin_encoding(rec),
        DataFormat::Csv => csv_encoding(rec),
        DataFormat::Txt => txt_encoding(rec),
    }
}

/// The records that a reader finds from `pos` on when it decodes until the
/// first failure.
pub open spec fn ledger(format: DataFormat, data: Seq<u8>, pos: int) -> Seq<RecordView>
    decreases data.len() - pos,
{
    let step = decoding(format, data, pos);
    if step.0 is Ok && pos < step.1 <= data.len() {
        seq![step.0->Ok_0] + ledger(format, data, step.1)
    } else {
        Seq::empty()
    }
}

/// The offset at which a reader stands after it has decoded from `pos` until
/// the first failure.
pub open spec fn ledger_end(format: DataFormat, data: Seq<u8>, pos: int) -> int
    decreases data.len() - pos,
{
    let step = decoding(format, data, pos);
    if step.0 is Ok && pos < step.1 <= data.len() {
        ledger_end(format, data, step.1)
    } else {
        step.1
    }
}

/// Where the records start: behind the header line in the comma-separated
/// form, at `pos` in the two others. `None` where the header line is not
/// well-formed UTF-8.
pub open spec fn records_start(format: DataFormat, data: Seq<u8>, pos: int) -> Option<int> {
    if format != DataFormat::Csv || pos >= data.len() {
        Some(pos)
    } else if !valid_utf8(line_at(data, pos)) {
        None
    } else {
        Some(next_line(data, pos))
    }
}

/// What a ledger in `format` opens with: the header line in the
/// comma-separated form, nothing in the two others.
pub open spec fn prologue(format: DataFormat) -> Seq<u8> {
    if format == DataFormat::Csv {
        encode_lines(seq![header_line()])
    } else {
        Seq::empty()
    }
}

/// The bytes of `records` in `format`, one after the other, without prologue.
pub open spec fn ledger_encoding(format: DataFormat, records: Seq<RecordView>) -> Seq<u8>
    decreases records.len(),
{
    if records.len() == 0 {
        Seq::empty()
    } else {
        ledger_encoding(format, records.drop_last()) + encoding(format, records.last())
    }
}

/// Whether every record of `records` can be written in `format`.
pub open spec fn all_encodable(format: DataFormat, records: Seq<RecordView>) -> bool {
    forall|i: int| 0 <= i < records.len() ==> encodable(format, #[trigger] records[i])
}

/// The models of a sequence of records.
pub open spec fn record_views(records: Seq<BankRecord>) -> Seq<RecordView> {
    Seq::new(records.len(), |i: int| records[i]@)
}

/// Decodes the next record of `buffer` in `input_format`.
pub fn read_record_from_source(buffer: &mut TextReportReader, input_format: &DataFormat) -> (res:
    Result<BankRecord, ParsingError>)
    ensures
        final(buffer).bytes() == old(buffer).bytes(),
        decoded_view(res) == decoding(*input_format, old(buffer).bytes(), old(buffer).offset()).0,
        final(buffer).offset() == decoding(
            *input_format,
            old(buffer).bytes(),
            old(buffer).offset(),
        ).1,
        res is Ok ==> old(buffer).offset() < final(buffer).offset() <= final(buffer).bytes().len(),
{
    match input_format {
        DataFormat::Bin => BinRecord::from_read(buffer),
        DataFormat::Csv => CsvRecord::from_read(buffer),
        DataFormat::Txt => TxtRecord::from_read(buffer),
    }
}

/// Appends `record` to `buffer` in `format`. Fails, writing nothing, where
/// the record cannot be written in that format.
pub fn write_record(buffer: &mut Vec<u8>, record: &BankRecord, format: &DataFormat) -> (res:
    Result<(), SerializeError>)
    ensures
        res is Ok <==> encodable(*format, record@),
        res is Ok ==> final(buffer)@ == old(buffer)@ + encoding(*format, record@),
        res matches Err(e) ==> e == SerializeError::IO(IoFailure::InvalidInput) && final(buffer)@
            == old(buffer)@,
{
    match format {
        DataFormat::Bin => write_frame(record, buffer),
        DataFormat::Csv => {
            write_row(record, buffer);
            Ok(())
        },
        DataFormat::Txt => {
            write_block(record, buffer);
            Ok(())
        },
    }
}

/// Appends `record` to `buffer` in `input_format`, through the codec of that
/// format. Fails, writing nothing, where the record cannot be written in it.
pub fn write_record_to_source(
    buffer: &mut Vec<u8>,
    record: BankRecord,
    input_format: &DataFormat,
) -> (res: Result<(), SerializeError>)
    ensures
        res is Ok <==> encodable(*input_format, record@),
        res is Ok ==> final(buffer)@ == old(buffer)@ + encoding(*input_format, record@),
        res matches Err(e) ==> e == SerializeError::IO(IoFailure::InvalidInput) && final(buffer)@
            == old(buffer)@,
{
    match input_format {
        DataFormat::Bin => BinRecord(record).write_to(buffer),
        DataFormat::Csv => CsvRecord(record).write_to(buffer),
        DataFormat::Txt => TxtRecord(record).write_to(buffer),
    }
}

/// Whether `record` can be written in `format`.
pub fn can_encode(record: &BankRecord, format: &DataFormat) -> (r: bool)
    ensures
        r == encodable(*format, record@),
{
    match format {
        DataFormat::Bin => record.description.as_str().as_bytes().len() <= 0xFFFF_FFFF - 46,
        _ => true,
    }
}

/// Skips the header line where `format` has one. Fails where that line is not
/// well-formed UTF-8.
pub fn skip_prologue(reader: &mut TextReportReader, format: &DataFormat) -> (ok: bool)
    ensures
        final(reader).bytes() == old(reader).bytes(),
        ok <==> records_start(*format, old(reader).bytes(), old(reader).offset()) is Some,
        ok ==> final(reader).offset() == records_start(
            *format,
            old(reader).bytes(),
            old(reader).offset(),
        )->0,
        !ok ==> final(reader).offset() == next_line(old(reader).bytes(), old(reader).offset()),
{
    match format {
        DataFormat::Csv => match reader.read_line() {
            Some(line) => String::from_utf8(line).is_ok(),
            None => true,
        },
        _ => true,
    }
}

/// Decodes records from `reader` in `format` until the first failure.
pub fn read_ledger(reader: &mut TextReportReader, format: &DataFormat) -> (records: Vec<BankRecord>)
    ensures
        final(reader).bytes() == old(reader).bytes(),
        record_views(records@) == ledger(*format, old(reader).bytes(), old(reader).offset()),
        final(reader).offset() == ledger_end(*format, old(reader).bytes(), old(reader).offset()),
{
    let ghost data = reader.bytes();
    let ghost start = reader.offset();
    let mut records: Vec<BankRecord> = Vec::new();
    assert(record_views(records@) + ledger(*format, data, start) =~= ledger(*format, data, start));
    loop
        invariant
            reader.bytes() == data,
            data == old(reader).bytes(),
            start == old(reader).offset(),
            record_views(records@) + ledger(*format, data, reader.offset()) == ledger(
                *format,
                data,
                start,
            ),
            ledger_end(*format, data, reader.offset()) == ledger_end(*format, data, start),
        decreases data.len() - reader.offset(),
    {
        let ghost pos = reader.offset();
        let ghost before = record_views(records@);
        match read_record_from_source(reader, format) {
            Ok(record) => {
                records.push(record);
                assert(record_views(records@) =~= before + seq![record@]);
                assert(before + ledger(*format, data, pos) =~= record_views(records@) + ledger(
                    *format,
                    data,
                    reader.offset(),
                ));
            },
            Err(_) => {
                assert(record_views(records@) =~= ledger(*format, data, start));
                return records;
            },
        }
    }
}

/// Appends the prologue of `format` and then every record of `records`.
/// Nothing is written where one of them cannot be written in `format`.
pub fn write_ledger(writer: &mut Vec<u8>, records: &Vec<BankRecord>, format: &DataFormat) -> (res:
    Result<(), SerializeError>)
    ensures
        res is Ok <==> all_encodable(*format, record_views(records@)),
        res is Ok ==> final(writer)@ == old(writer)@ + prologue(*format) + ledger_encoding(
            *format,
            record_views(records@),
        ),
        res matches Err(e) ==> e == SerializeError::IO(IoFailure::InvalidInput) && final(writer)@
            == old(writer)@,
{
    let ghost all = record_views(records@);
    let mut i: usize = 0;
    while i < records.len()
        invariant
            i <= records.len(),
            all == record_views(records@),
            forall|j: int| 0 <= j < i ==> encodable(*format, #[trigger] all[j]),
        decreases records.len() - i,
    {
        if !can_encode(&records[i], format) {
            assert(!encodable(*format, all[i as int]));
            return Err(SerializeError::IO(IoFailure::InvalidInput));
        }
        i += 1;
    }
    match format {
        DataFormat::Csv => {
            push_line(writer, CVS_HEADERS);
            assert(seq![header_line()].drop_last() =~= Seq::<Seq<char>>::empty());
            assert(encode_lines(seq![header_line()].drop_last()) =~= Seq::<u8>::empty());
            assert(writer@ =~= old(writer)@ + prologue(*format));
        },
        _ => {
            assert(writer@ =~= old(writer)@ + prologue(*format));
        },
    }
    let ghost base = writer@;
    let mut written: usize = 0;
    assert(all.subrange(0, 0) =~= Seq::<RecordView>::empty());
    assert(writer@ =~= base + ledger_encoding(*format, all.subrange(0, 0)));
    while written < records.len()
        invariant
            written <= records.len(),
            all == record_views(records@),
            all_encodable(*format, all),
            writer@ == base + ledger_encoding(*format, all.subrange(0, written as int)),
        decreases records.len() - written,
    {
        assert(records[written as int]@ == all[written as int]);
        assert(all.subrange(0, written + 1).drop_last() =~= all.subrange(0, written as int));
        match write_record(writer, &records[written], format) {
            Ok(()) => {},
            Err(e) => {
                return Err(e);
            },
        }
        assert(writer@ =~= base + ledger_encoding(*format, all.subrange(0, written + 1)));
        written += 1;
    }
    assert(all.subrange(0, all.len() as int) =~= all);
    assert(writer@ =~= old(writer)@ + prologue(*format) + ledger_encoding(*format, all));
    Ok(())
}

/// Reads a ledger in `input_format` from `reader`, up to the first record
/// that fails to decode, and appends it to `writer` in `output_format`.
pub fn convert(
    reader: &mut TextReportReader,
    writer: &mut Vec<u8>,
    input_format: DataFormat,
    output_format: DataFormat,
) -> (res: Result<(), ConverterErrors>)
    ensures
        final(reader).bytes() == old(reader).bytes(),
        match records_start(input_format, old(reader).bytes(), old(reader).offset()) {
            None => {
                &&& res == Err::<(), ConverterErrors>(ConverterErrors::IO(IoFailure::InvalidData))
                &&& final(writer)@ == old(writer)@
                &&& final(reader).offset() == next_line(old(reader).bytes(), old(reader).offset())
            },
            Some(start) => {
                let records = ledger(input_format, old(reader).bytes(), start);
                &&& final(reader).offset() == ledger_end(input_format, old(reader).bytes(), start)
                &&& if all_encodable(output_format, records) {
                    res is Ok && final(writer)@ == old(writer)@ + prologue(output_format)
                        + ledger_encoding(output_format, records)
                } else {
                    res == Err::<(), ConverterErrors>(ConverterErrors::IO(IoFailure::InvalidInput))
                        && final(writer)@ == old(writer)@
                }
            },
        },
{
    if !skip_prologue(reader, &input_format) {
        return Err(ConverterErrors::IO(IoFailure::InvalidData));
    }
    let parsed_records = read_ledger(reader, &input_format);
    match write_ledger(writer, &parsed_records, &output_format) {
        Ok(()) => Ok(()),
        Err(SerializeError::IO(kind)) => Err(ConverterErrors::IO(kind)),
    }
}

/// The description of a decoded record never holds a double quote: the
/// quotes are a convention of the wire, not part of the value.
pub proof fn lemma_decoded_without_quotes(format: DataFormat, data: Seq<u8>, pos: int)
    ensures
        decoding(format, data, pos).0 matches Ok(r) ==> !r.description.contains('"'),
{
    match decoding(format, data, pos).0 {
        Ok(r) => {
            match format {
                DataFormat::Bin => {
                    assert(exists|payload: Seq<u8>|
                        r.description == strip_quotes(#[trigger] decode_utf8(payload)));
                    let payload = choose|payload: Seq<u8>|
                        r.description == strip_quotes(#[trigger] decode_utf8(payload));
                    lemma_strip_quotes_free(decode_utf8(payload));
                },
                DataFormat::Csv => {
                    let line = decode_utf8(line_at(data, pos));
                    lemma_strip_quotes_free(split(line, ',')[7]);
                },
                DataFormat::Txt => {
                    assert(default_record().description =~= Seq::<char>::empty());
                    lemma_block_without_quotes(data, pos, 0, default_record());
                },
            }
        },
        Err(_) => {},
    }
}

/// The rows of `records`, in order.
pub open spec fn csv_rows(records: Seq<RecordView>) -> Seq<Seq<char>> {
    Seq::new(records.len(), |i: int| csv_row(records[i]))
}

/// A comma-separated ledger of N records is exactly N + 1 lines: the header
/// line once, then one row per record, in order.
pub proof fn lemma_csv_ledger_lines(records: Seq<RecordView>)
    ensures
        prologue(DataFormat::Csv) + ledger_encoding(DataFormat::Csv, records) == encode_lines(
            seq![header_line()] + csv_rows(records),
        ),
        (seq![header_line()] + csv_rows(records)).len() == records.len() + 1,
        (seq![header_line()] + csv_rows(records))[0] == header_line(),
    decreases records.len(),
{
    let lines = seq![header_line()] + csv_rows(records);
    if records.len() == 0 {
        assert(lines =~= seq![header_line()]);
        assert(ledger_encoding(DataFormat::Csv, records) =~= Seq::<u8>::empty());
        assert(prologue(DataFormat::Csv) + ledger_encoding(DataFormat::Csv, records)
            =~= encode_lines(lines));
    } else {
        let front = records.drop_last();
        lemma_csv_ledger_lines(front);
        let row = csv_row(records.last());
        assert(lines.drop_last() =~= seq![header_line()] + csv_rows(front));
        assert(lines.last() == row);
        assert(seq![row].drop_last() =~= Seq::<Seq<char>>::empty());
        assert(encode_lines(seq![row].drop_last()) =~= Seq::<u8>::empty());
        assert(seq![row].last() == row);
        assert(csv_encoding(records.last()) =~= encode_utf8(row) + seq![10u8]);
        assert(prologue(DataFormat::Csv) + ledger_encoding(DataFormat::Csv, records)
            =~= encode_lines(lines));
    }
}

/// Whether `rec` is written in `format` without loss: a frame carries only an
/// empty description back; a row needs a description without double quote,
/// comma and line feed; a block one without double quote and line feed.
pub open spec fn faithful(format: DataFormat, rec: RecordView) -> bool {
    match format {
        DataFormat::Bin => rec.description.len() == 0,
        DataFormat::Csv => !rec.description.contains('"') && !rec.description.contains(',')
            && !rec.description.contains('\n'),
        DataFormat::Txt => !rec.description.contains('"') && !rec.description.contains('\n'),
    }
}

/// Round trip of one record in any format: what is written for a record that
/// the format carries without loss decodes to that record.
pub proof fn lemma_round_trip(format: DataFormat, rec: RecordView)
    requires
        faithful(format, rec),
    ensures
        encodable(format, rec),
        decoding(format, encoding(format, rec), 0).0 == Ok::<RecordView, ParsingErrorView>(rec),
{
    let empty = Seq::<u8>::empty();
    let bytes = encoding(format, rec);
    assert(empty + bytes + empty =~= bytes);
    match format {
        DataFormat::Bin => {
            lemma_bin_round_trip(empty, rec, empty);
        },
        DataFormat::Csv => {
            lemma_csv_round_trip(empty, rec, empty);
        },
        DataFormat::Txt => {
            lemma_txt_round_trip(empty, rec, empty);
        },
    }
}

/// The bytes of a run of records start with the bytes of its first record.
pub proof fn lemma_ledger_encoding_first(format: DataFormat, records: Seq<RecordView>)
    requires
        records.len() > 0,
    ensures
        ledger_encoding(format, records) == encoding(format, records[0]) + ledger_encoding(
            format,
            records.drop_first(),
        ),
    decreases records.len(),
{
    if records.len() == 1 {
        assert(records.drop_last() =~= Seq::<RecordView>::empty());
        assert(records.drop_first() =~= Seq::<RecordView>::empty());
        assert(ledger_encoding(format, records) =~= encoding(format, records[0]) + ledger_encoding(
            format,
            records.drop_first(),
        ));
    } else {
        lemma_ledger_encoding_first(format, records.drop_last());
        assert(records.drop_last().drop_first() =~= records.drop_first().drop_last());
        assert(records.drop_first().last() == records.last());
        assert(ledger_encoding(format, records) =~= encoding(format, records[0]) + ledger_encoding(
            format,
            records.drop_first(),
        ));
    }
}

/// The rest of a run of faithful records is faithful.
proof fn lemma_faithful_rest(format: DataFormat, records: Seq<RecordView>)
    requires
        records.len() > 0,
        forall|i: int| 0 <= i < records.len() ==> faithful(format, #[trigger] records[i]),
    ensures
        faithful(format, records[0]),
        forall|i: int|
            0 <= i < records.drop_first().len() ==> faithful(
                format,
                #[trigger] records.drop_first()[i],
            ),
{
    assert forall|i: int| 0 <= i < records.drop_first().len() implies faithful(
        format,
        #[trigger] records.drop_first()[i],
    ) by {
        assert(records.drop_first()[i] == records[i + 1]);
    }
}

/// Frames: a reader that starts at the frames written for `records`, behind
/// any bytes `pre`, finds exactly `records`.
proof fn lemma_frames_back(records: Seq<RecordView>, pre: Seq<u8>)
    requires
        forall|i: int| 0 <= i < records.len() ==> faithful(DataFormat::Bin, #[trigger] records[i]),
    ensures
        ledger(
            DataFormat::Bin,
            pre + ledger_encoding(DataFormat::Bin, records),
            pre.len() as int,
        ) == records,
    decreases records.len(),
{
    let format = DataFormat::Bin;
    let data = pre + ledger_encoding(format, records);
    let n = pre.len() as int;
    if records.len() == 0 {
        assert(data =~= pre);
        assert(ledger(format, data, n) =~= records);
    } else {
        let first = records[0];
        let rest = records.drop_first();
        let tail = ledger_encoding(format, rest);
        let frame = bin_encoding(first);
        lemma_ledger_encoding_first(format, records);
        lemma_faithful_rest(format, records);
        assert(data =~= pre + frame + tail);
        lemma_bin_round_trip(pre, first, tail);
        let next = n + frame.len();
        assert(decoding(format, data, n) == (Ok::<RecordView, ParsingErrorView>(first), next));
        lemma_frames_back(rest, pre + frame);
        assert(ledger(format, data, next) == rest);
        assert(ledger(format, data, n) =~= seq![first] + rest);
        assert(seq![first] + rest =~= records);
    }
}

/// Rows: a reader that starts at the rows written for `records`, behind any
/// bytes `pre`, finds exactly `records`.
proof fn lemma_rows_back(records: Seq<RecordView>, pre: Seq<u8>)
    requires
        forall|i: int| 0 <= i < records.len() ==> faithful(DataFormat::Csv, #[trigger] records[i]),
    ensures
        ledger(
            DataFormat::Csv,
            pre + ledger_encoding(DataFormat::Csv, records),
            pre.len() as int,
        ) == records,
    decreases records.len(),
{
    let format = DataFormat::Csv;
    let data = pre + ledger_encoding(format, records);
    let n = pre.len() as int;
    if records.len() == 0 {
        assert(data =~= pre);
        assert(ledger(format, data, n) =~= records);
    } else {
        let first = records[0];
        let rest = records.drop_first();
        let tail = ledger_encoding(format, rest);
        let row = csv_encoding(first);
        lemma_ledger_encoding_first(format, records);
        lemma_faithful_rest(format, records);
        assert(data =~= pre + row + tail);
        lemma_csv_round_trip(pre, first, tail);
        assert(seq![csv_row(first)].last() == csv_row(first));
        assert(row.len() > 0);
        let next = n + row.len();
        assert(decoding(format, data, n) == (Ok::<RecordView, ParsingErrorView>(first), next));
        lemma_rows_back(rest, pre + row);
        assert(ledger(format, data, next) == rest);
        assert(ledger(format, data, n) =~= seq![first] + rest);
        assert(seq![first] + rest =~= records);
    }
}

/// The block of a record ends with the line feed of its blank line.
proof fn lemma_block_end(rec: RecordView)
    ensures
        txt_encoding(rec).len() >= 2,
        txt_encoding(rec) == txt_encoding(rec).drop_last() + seq![10u8],
{
    let lines = txt_lines(rec);
    let front = lines.drop_last();
    assert(lines.last() == Seq::<char>::empty());
    assert(encode_utf8(Seq::<char>::empty()) =~= Seq::<u8>::empty());
    assert(encode_lines(lines) =~= encode_lines(front) + seq![10u8]);
    assert(front.len() > 0);
    assert(encode_lines(front).len() >= 1);
    assert(txt_encoding(rec).drop_last() =~= encode_lines(front));
}

/// Blocks: a reader that starts at the blank line in front of the blocks
/// written for `records`, behind any bytes `pre`, finds exactly `records`.
proof fn lemma_blocks_back_blank(records: Seq<RecordView>, pre: Seq<u8>)
    requires
        forall|i: int| 0 <= i < records.len() ==> faithful(DataFormat::Txt, #[trigger] records[i]),
    ensures
        ledger(
            DataFormat::Txt,
            pre + seq![10u8] + ledger_encoding(DataFormat::Txt, records),
            pre.len() as int,
        ) == records,
    decreases records.len(),
{
    let format = DataFormat::Txt;
    let blocks = ledger_encoding(format, records);
    let data = pre + seq![10u8] + blocks;
    let n = pre.len() as int;
    lemma_blank_skipped(pre, blocks);
    if records.len() == 0 {
        assert(data =~= pre + seq![10u8]);
        assert(ledger(format, data, n) =~= records);
    } else {
        let first = records[0];
        let rest = records.drop_first();
        let tail = ledger_encoding(format, rest);
        let block = txt_encoding(first);
        lemma_ledger_encoding_first(format, records);
        lemma_faithful_rest(format, records);
        lemma_block_end(first);
        assert(data =~= (pre + seq![10u8]) + block + tail);
        lemma_txt_round_trip(pre + seq![10u8], first, tail);
        let next = n + block.len();
        assert(decoding(format, data, n) == (Ok::<RecordView, ParsingErrorView>(first), next));
        let before = pre + seq![10u8] + block.drop_last();
        assert(data =~= before + seq![10u8] + tail);
        lemma_blocks_back_blank(rest, before);
        assert(ledger(format, data, n) =~= records);
    }
}

/// Blocks: a reader that starts at the blocks written for `records`, behind
/// any bytes `pre`, finds exactly `records`.
proof fn lemma_blocks_back(records: Seq<RecordView>, pre: Seq<u8>)
    requires
        forall|i: int| 0 <= i < records.len() ==> faithful(DataFormat::Txt, #[trigger] records[i]),
    ensures
        ledger(
            DataFormat::Txt,
            pre + ledger_encoding(DataFormat::Txt, records),
            pre.len() as int,
        ) == records,
{
    let format = DataFormat::Txt;
    let data = pre + ledger_encoding(format, records);
    let n = pre.len() as int;
    if records.len() == 0 {
        assert(data =~= pre);
        assert(ledger(format, data, n) =~= records);
    } else {
        let first = records[0];
        let rest = records.drop_first();
        let tail = ledger_encoding(format, rest);
        let block = txt_encoding(first);
        lemma_ledger_encoding_first(format, records);
        lemma_faithful_rest(format, records);
        lemma_block_end(first);
        assert(data =~= pre + block + tail);
        lemma_txt_round_trip(pre, first, tail);
        let next = n + block.len() - 1;
        assert(decoding(format, data, n) == (Ok::<RecordView, ParsingErrorView>(first), next));
        let before = pre + block.drop_last();
        assert(data =~= before + seq![10u8] + tail);
        lemma_blocks_back_blank(rest, before);
        assert(ledger(format, data, n) =~= records);
    }
}

/// Round trip of a ledger: what is written for records that the format
/// carries without loss, prologue included, is read back, behind the
/// prologue, as the same records in the same order.
pub proof fn lemma_ledger_round_trip(format: DataFormat, records: Seq<RecordView>)
    requires
        forall|i: int| 0 <= i < records.len() ==> faithful(format, #[trigger] records[i]),
    ensures
        all_encodable(format, records),
        records_start(format, prologue(format) + ledger_encoding(format, records), 0) == Some(
            prologue(format).len() as int,
        ),
        ledger(
            format,
            prologue(format) + ledger_encoding(format, records),
            prologue(format).len() as int,
        ) == records,
{
    let out = prologue(format) + ledger_encoding(format, records);
    assert forall|i: int| 0 <= i < records.len() implies encodable(
        format,
        #[trigger] records[i],
    ) by {
        assert(faithful(format, records[i]));
        if format == DataFormat::Bin {
            assert(encode_utf8(records[i].description) =~= Seq::<u8>::empty());
        }
    }
    match format {
        DataFormat::Txt => {
            lemma_blocks_back(records, prologue(format));
        },
        DataFormat::Bin => {
            lemma_frames_back(records, prologue(format));
        },
        DataFormat::Csv => {
            lemma_rows_back(records, prologue(format));
            let empty = Seq::<u8>::empty();
            let header = header_line();
            reveal_strlit(
                "TX_ID,TX_TYPE,FROM_USER_ID,TO_USER_ID,AMOUNT,TIMESTAMP,STATUS,DESCRIPTION",
            );
            assert(is_line(header));
            assert(seq![header].drop_last() =~= Seq::<Seq<char>>::empty());
            assert(encode_lines(seq![header].drop_last()) =~= empty);
            assert(seq![header].last() == header);
            assert(prologue(format) =~= encode_utf8(header) + seq![10u8]);
            assert(out =~= empty + encode_utf8(header) + seq![10u8] + ledger_encoding(
                format,
                records,
            ));
            lemma_line_found(empty, header, ledger_encoding(format, records));
        },
    }
}

} // verus!
