//! The binary codec: frames anchored by a four-byte magic marker, with a
//! big-endian fixed part and a quoted description payload.
use crate::errors::{IoFailure, NameErrorView, ParsingError, ParsingErrorView, SerializeError};
use crate::record::{decoded_view, BankRecord, BankRecordParser, RecordView, Status, TxType};
use crate::text::{
    lemma_encode_concat, lemma_scalar_bytes, lemma_strip_quotes_wrapped, quoted, str_chars,
    strip_quotes, unquoted,
};
use crate::txt_format::TextReportReader;
use vstd::prelude::*;
use vstd::string::StringExecFns;
use vstd::utf8::*;

verus! {

/// A record to be written as one binary frame.
pub struct BinRecord(pub BankRecord);

/// Marker type of the binary representation.
pub struct BinReportParser;

/// The four bytes that open every frame: ASCII `YPBN`.
pub const RECORD_HEADER: [u8; 4] = [0x59, 0x50, 0x42, 0x4E];

/// Length in bytes of the fixed part of a frame, from the transaction
/// identifier to the description length.
pub const FIXED_PART: usize = 46;

/// The magic marker as a byte sequence.
pub open spec fn magic() -> Seq<u8> {
    seq![0x59u8, 0x50u8, 0x42u8, 0x4Eu8]
}

/// The number that eight bytes denote, most significant byte first.
pub open spec fn u64_from_be(b: Seq<u8>) -> u64 {
    (b[0] as u64) << 56 | (b[1] as u64) << 48 | (b[2] as u64) << 40 | (b[3] as u64) << 32 | (
    b[4] as u64) << 24 | (b[5] as u64) << 16 | (b[6] as u64) << 8 | (b[7] as u64)
}

/// The number that four bytes denote, most significant byte first.
pub open spec fn u32_from_be(b: Seq<u8>) -> u32 {
    (b[0] as u32) << 24 | (b[1] as u32) << 16 | (b[2] as u32) << 8 | (b[3] as u32)
}

/// The byte of `x` that lies `shift` bits above the lowest one.
pub open spec fn byte_at(x: u64, shift: u64) -> u8 {
    ((x >> shift) & 0xff) as u8
}

/// The eight bytes of `x`, most significant first.
pub open spec fn u64_to_be(x: u64) -> Seq<u8> {
    seq![
        byte_at(x, 56),
        byte_at(x, 48),
        byte_at(x, 40),
        byte_at(x, 32),
        byte_at(x, 24),
        byte_at(x, 16),
        byte_at(x, 8),
        byte_at(x, 0),
    ]
}

/// The four bytes of `x`, most significant first.
pub open spec fn u32_to_be(x: u32) -> Seq<u8> {
    seq![byte_at(x as u64, 24), byte_at(x as u64, 16), byte_at(x as u64, 8), byte_at(x as u64, 0)]
}

/// Whether the four bytes of `data` from offset `i` on are the magic marker.
pub open spec fn marker_at(data: Seq<u8>, i: int) -> bool {
    data.subrange(i, i + 4) == magic()
}

/// Offset of the first magic marker that starts at or after `pos`.
pub open spec fn find_magic(data: Seq<u8>, pos: int) -> Option<int>
    decreases data.len() - pos,
{
    if pos < 0 || pos + 4 > data.len() {
        None
    } else if marker_at(data, pos) {
        Some(pos)
    } else {
        find_magic(data, pos + 1)
    }
}

/// Number of bytes that the read of the fixed part obtains at offset `q`: all
/// 46 where that many are left, else the rest of the data.
pub open spec fn fixed_read(data: Seq<u8>, q: int) -> int {
    if data.len() - q >= 46 {
        46
    } else {
        data.len() - q
    }
}

/// The fixed part as the decoder sees it: the bytes obtained, followed by
/// zeros up to 46 bytes.
pub open spec fn fixed_part(data: Seq<u8>, q: int) -> Seq<u8> {
    let got = fixed_read(data, q);
    data.subrange(q, q + got) + Seq::new((46 - got) as nat, |i: int| 0u8)
}

/// Number of payload bytes that the decoder reads: the declared description
/// length, but never past the frame boundary that the record size implies.
pub open spec fn payload_len(declared: u32, record_size: u32, got: int) -> int {
    if declared <= record_size - got {
        declared as int
    } else {
        record_size - got
    }
}

/// Message of the framing error for a record size below the fixed part read.
pub open spec fn short_frame_message() -> Seq<char> {
    "Record size is smaller than the fixed part of the record"@
}

/// The record that a fixed part and a payload stand for.
pub open spec fn frame_record(fixed: Seq<u8>, payload: Seq<u8>) -> Result<
    RecordView,
    ParsingErrorView,
> {
    if !valid_utf8(payload) {
        Err(ParsingErrorView::ParseUtf8)
    } else if TxType::of_ordinal(fixed[8]) is None {
        Err(ParsingErrorView::ParseTxType(NameErrorView::NotFound))
    } else if Status::of_ordinal(fixed[41]) is None {
        Err(ParsingErrorView::ParseStatus(NameErrorView::NotFound))
    } else {
        Ok(
            RecordView {
                tx_id: u64_from_be(fixed.subrange(0, 8)),
                tx_type: TxType::of_ordinal(fixed[8])->0,
                from_user_id: u64_from_be(fixed.subrange(9, 17)),
                to_user_id: u64_from_be(fixed.subrange(17, 25)),
                amount: u64_from_be(fixed.subrange(25, 33)),
                timestamp: u64_from_be(fixed.subrange(33, 41)),
                status: Status::of_ordinal(fixed[41])->0,
                description: strip_quotes(decode_utf8(payload)),
            },
        )
    }
}

/// What the decoder finds right after a magic marker, at offset `p`, and the
/// offset at which it stops.
pub open spec fn frame_decoding(data: Seq<u8>, p: int) -> (
    Result<RecordView, ParsingErrorView>,
    int,
) {
    if p + 4 > data.len() {
        (Err(ParsingErrorView::IO(IoFailure::UnexpectedEof)), data.len() as int)
    } else {
        let record_size = u32_from_be(data.subrange(p, p + 4));
        let q = p + 4;
        let got = fixed_read(data, q);
        let fixed = fixed_part(data, q);
        let r = q + got;
        if record_size < got {
            (
                Err(
                    ParsingErrorView::ParseBin {
                        source: IoFailure::InvalidData,
                        description: short_frame_message(),
                    },
                ),
                r,
            )
        } else {
            let take = payload_len(u32_from_be(fixed.subrange(42, 46)), record_size, got);
            if r + take > data.len() {
                (Err(ParsingErrorView::IO(IoFailure::UnexpectedEof)), data.len() as int)
            } else {
                (frame_record(fixed, data.subrange(r, r + take)), r + take)
            }
        }
    }
}

/// What the binary decoder finds in `data` from `pos` on: the frame behind
/// the first magic marker, or the end of the data where there is no marker.
pub open spec fn bin_decoding(data: Seq<u8>, pos: int) -> (
    Result<RecordView, ParsingErrorView>,
    int,
) {
    match find_magic(data, pos) {
        None => (Err(ParsingErrorView::IO(IoFailure::UnexpectedEof)), data.len() as int),
        Some(m) => frame_decoding(data, m + 4),
    }
}

/// The payload that carries a description: nothing for the empty text, else
/// its UTF-8 bytes between two double quotes.
pub open spec fn bin_payload(description: Seq<char>) -> Seq<u8> {
    let bytes = encode_utf8(description);
    if bytes.len() == 0 {
        bytes
    } else {
        seq![0x22u8] + bytes + seq![0x22u8]
    }
}

/// The fixed part of a frame of `rec` that declares `declared` payload bytes.
pub open spec fn fixed_bytes(rec: RecordView, declared: u32) -> Seq<u8> {
    u64_to_be(rec.tx_id) + seq![rec.tx_type.ordinal_value()] + u64_to_be(rec.from_user_id)
        + u64_to_be(rec.to_user_id) + u64_to_be(rec.amount) + u64_to_be(rec.timestamp)
        + seq![rec.status.ordinal_value()] + u32_to_be(declared)
}

/// The fixed part of the frame of `rec`.
pub open spec fn bin_fixed(rec: RecordView) -> Seq<u8> {
    fixed_bytes(rec, bin_payload(rec.description).len() as u32)
}

/// Whether the description of `rec` is short enough for the 32-bit record
/// size.
pub open spec fn bin_encodable(rec: RecordView) -> bool {
    46 + encode_utf8(rec.description).len() <= u32::MAX
}

/// A frame of `rec` that declares `record_size` as its size.
pub open spec fn bin_frame(rec: RecordView, record_size: u32) -> Seq<u8> {
    magic() + u32_to_be(record_size) + bin_fixed(rec) + bin_payload(rec.description)
}

/// The frame of `rec`. The record size counts the fixed part and the bytes of
/// the logical description, not the two quotes of the payload.
pub open spec fn bin_encoding(rec: RecordView) -> Seq<u8> {
    bin_frame(rec, (46 + encode_utf8(rec.description).len()) as u32)
}

/// Reads eight bytes at `at` as a big-endian number.
pub fn read_u64_be(bytes: &Vec<u8>, at: usize) -> (v: u64)
    requires
        at + 8 <= bytes.len(),
    ensures
        v == u64_from_be(bytes@.subrange(at as int, at + 8)),
{
    (bytes[at] as u64) << 56 | (bytes[at + 1] as u64) << 48 | (bytes[at + 2] as u64) << 40 | (
    bytes[at + 3] as u64) << 32 | (bytes[at + 4] as u64) << 24 | (bytes[at + 5] as u64) << 16 | (
    bytes[at + 6] as u64) << 8 | (bytes[at + 7] as u64)
}

/// Reads four bytes at `at` as a big-endian number.
pub fn read_u32_be(bytes: &Vec<u8>, at: usize) -> (v: u32)
    requires
        at + 4 <= bytes.len(),
    ensures
        v == u32_from_be(bytes@.subrange(at as int, at + 4)),
{
    (bytes[at] as u32) << 24 | (bytes[at + 1] as u32) << 16 | (bytes[at + 2] as u32) << 8 | (
    bytes[at + 3] as u32)
}

/// The byte of `x` that lies `shift` bits above the lowest one.
fn byte_of(x: u64, shift: u64) -> (b: u8)
    requires
        shift < 64,
    ensures
        b == byte_at(x, shift),
{
    assert((x >> shift) & 0xff < 256) by (bit_vector);
    ((x >> shift) & 0xff) as u8
}

/// Appends the eight bytes of `x`, most significant first.
pub fn push_u64_be(out: &mut Vec<u8>, x: u64)
    ensures
        final(out)@ == old(out)@ + u64_to_be(x),
{
    out.push(byte_of(x, 56));
    out.push(byte_of(x, 48));
    out.push(byte_of(x, 40));
    out.push(byte_of(x, 32));
    out.push(byte_of(x, 24));
    out.push(byte_of(x, 16));
    out.push(byte_of(x, 8));
    out.push(byte_of(x, 0));
    assert(final(out)@ =~= old(out)@ + u64_to_be(x));
}

/// Appends the four bytes of `x`, most significant first.
pub fn push_u32_be(out: &mut Vec<u8>, x: u32)
    ensures
        final(out)@ == old(out)@ + u32_to_be(x),
{
    out.push(byte_of(x as u64, 24));
    out.push(byte_of(x as u64, 16));
    out.push(byte_of(x as u64, 8));
    out.push(byte_of(x as u64, 0));
    assert(final(out)@ =~= old(out)@ + u32_to_be(x));
}

/// Appends a copy of `src`.
pub fn push_bytes(out: &mut Vec<u8>, src: &[u8])
    ensures
        final(out)@ == old(out)@ + src@,
{
    let mut i: usize = 0;
    while i < src.len()
        invariant
            i <= src.len(),
            out@ == old(out)@ + src@.subrange(0, i as int),
        decreases src.len() - i,
    {
        out.push(src[i]);
        i += 1;
        assert(out@ =~= old(out)@ + src@.subrange(0, i as int));
    }
    assert(src@.subrange(0, src.len() as int) =~= src@);
}

/// Appends the fixed part of a frame of `rec` that declares `declared`
/// payload bytes.
fn push_fixed_part(out: &mut Vec<u8>, rec: &BankRecord, declared: u32)
    ensures
        final(out)@ == old(out)@ + fixed_bytes(rec@, declared),
{
    push_u64_be(out, rec.tx_id);
    out.push(rec.tx_type.ordinal());
    let ghost s1 = out@;
    assert(s1 =~= old(out)@ + (u64_to_be(rec.tx_id) + seq![rec.tx_type.ordinal_value()]));
    push_u64_be(out, rec.from_user_id);
    push_u64_be(out, rec.to_user_id);
    let ghost s2 = out@;
    assert(s2 =~= old(out)@ + (u64_to_be(rec.tx_id) + seq![rec.tx_type.ordinal_value()]
        + u64_to_be(rec.from_user_id) + u64_to_be(rec.to_user_id)));
    push_u64_be(out, rec.amount);
    push_u64_be(out, rec.timestamp);
    let ghost s3 = out@;
    assert(s3 =~= old(out)@ + (u64_to_be(rec.tx_id) + seq![rec.tx_type.ordinal_value()]
        + u64_to_be(rec.from_user_id) + u64_to_be(rec.to_user_id) + u64_to_be(rec.amount)
        + u64_to_be(rec.timestamp)));
    out.push(rec.status.ordinal());
    push_u32_be(out, declared);
    assert(out@ =~= old(out)@ + fixed_bytes(rec@, declared));
}

/// Appends the payload that carries the description with UTF-8 bytes
/// `description`.
fn push_payload(out: &mut Vec<u8>, description: &[u8])
    ensures
        final(out)@ == old(out)@ + if description@.len() == 0 {
            description@
        } else {
            seq![0x22u8] + description@ + seq![0x22u8]
        },
{
    if description.len() > 0 {
        out.push(0x22);
        push_bytes(out, description);
        out.push(0x22);
        assert(out@ =~= old(out)@ + (seq![0x22u8] + description@ + seq![0x22u8]));
    } else {
        assert(out@ =~= old(out)@ + description@);
    }
}

/// Appends the magic marker.
fn push_magic(out: &mut Vec<u8>)
    ensures
        final(out)@ == old(out)@ + magic(),
{
    let mut i: usize = 0;
    while i < 4
        invariant
            i <= 4,
            out@ == old(out)@ + magic().subrange(0, i as int),
        decreases 4 - i,
    {
        out.push(RECORD_HEADER[i]);
        i += 1;
        assert(out@ =~= old(out)@ + magic().subrange(0, i as int));
    }
    assert(magic().subrange(0, 4) =~= magic());
}

/// Whether the four bytes of `window` are the magic marker.
fn is_magic(window: &Vec<u8>) -> (r: bool)
    requires
        window.len() == 4,
    ensures
        r == (window@ == magic()),
{
    let r = window[0] == 0x59 && window[1] == 0x50 && window[2] == 0x42 && window[3] == 0x4E;
    assert(r == (window@ =~= magic()));
    r
}

/// Decodes what follows a magic marker.
fn read_frame(buffer: &mut TextReportReader) -> (res: Result<BankRecord, ParsingError>)
    ensures
        final(buffer).bytes() == old(buffer).bytes(),
        decoded_view(res) == frame_decoding(old(buffer).bytes(), old(buffer).offset()).0,
        final(buffer).offset() == frame_decoding(old(buffer).bytes(), old(buffer).offset()).1,
        final(buffer).offset() >= old(buffer).offset(),
{
    let ghost data = buffer.bytes();
    let ghost p = buffer.offset();
    let size_bytes = match buffer.read_exact(4) {
        Ok(b) => b,
        Err(kind) => {
            return Err(ParsingError::IO(kind));
        },
    };
    assert(size_bytes@.subrange(0, 4) =~= size_bytes@);
    let record_size = read_u32_be(&size_bytes, 0);
    let mut fixed = buffer.read(FIXED_PART);
    let got = fixed.len();
    while fixed.len() < FIXED_PART
        invariant
            got <= fixed.len() <= 46,
            fixed@ == data.subrange(p + 4, p + 4 + got) + Seq::new(
                (fixed.len() - got) as nat,
                |i: int| 0u8,
            ),
        decreases 46 - fixed.len(),
    {
        fixed.push(0);
        assert(fixed@ =~= data.subrange(p + 4, p + 4 + got) + Seq::new(
            (fixed.len() - got) as nat,
            |i: int| 0u8,
        ));
    }
    assert(fixed@ == fixed_part(data, p + 4));
    let declared = read_u32_be(&fixed, 42);
    if (record_size as usize) < got {
        return Err(
            ParsingError::ParseBin {
                source: IoFailure::InvalidData,
                description: String::from_str(
                    "Record size is smaller than the fixed part of the record",
                ),
            },
        );
    }
    let leftover: u32 = record_size - got as u32;
    let take: u32 = if declared <= leftover { declared } else { leftover };
    let payload = match buffer.read_exact(take as usize) {
        Ok(b) => b,
        Err(kind) => {
            return Err(ParsingError::IO(kind));
        },
    };
    let text = match String::from_utf8(payload) {
        Ok(s) => s,
        Err(e) => {
            return Err(ParsingError::ParseUtf8(e));
        },
    };
    let tx_type = match TxType::try_from(fixed[8]) {
        Ok(t) => t,
        Err(e) => {
            return Err(ParsingError::ParseTxType(e));
        },
    };
    let status = match Status::try_from(fixed[41]) {
        Ok(s) => s,
        Err(e) => {
            return Err(ParsingError::ParseStatus(e));
        },
    };
    let chars = str_chars(text.as_str());
    Ok(
        BankRecord {
            tx_id: read_u64_be(&fixed, 0),
            tx_type,
            from_user_id: read_u64_be(&fixed, 9),
            to_user_id: read_u64_be(&fixed, 17),
            amount: read_u64_be(&fixed, 25),
            timestamp: read_u64_be(&fixed, 33),
            status,
            description: unquoted(&chars),
        },
    )
}

impl BankRecordParser for BinRecord {
    open spec fn decoding(data: Seq<u8>, pos: int) -> (Result<RecordView, ParsingErrorView>, int) {
        bin_decoding(data, pos)
    }

    open spec fn record(&self) -> RecordView {
        self.0@
    }

    open spec fn encodable(rec: RecordView) -> bool {
        bin_encodable(rec)
    }

    open spec fn encoding(rec: RecordView) -> Seq<u8> {
        bin_encoding(rec)
    }

    /// Skips bytes up to the first magic marker and decodes the frame behind
    /// it.
    fn from_read(buffer: &mut TextReportReader) -> (res: Result<BankRecord, ParsingError>) {
        let ghost data = buffer.bytes();
        let ghost pos = buffer.offset();
        let mut window = match buffer.read_exact(4) {
            Ok(w) => w,
            Err(kind) => {
                return Err(ParsingError::IO(kind));
            },
        };
        while !is_magic(&window)
            invariant
                buffer.bytes() == data,
                data == old(buffer).bytes(),
                pos == old(buffer).offset(),
                window.len() == 4,
                0 <= pos,
                pos + 4 <= buffer.offset() <= data.len(),
                window@ == data.subrange(buffer.offset() - 4, buffer.offset()),
                find_magic(data, pos) == find_magic(data, buffer.offset() - 4),
            decreases data.len() - buffer.offset(),
        {
            let ghost at = buffer.offset() - 4;
            let step = match buffer.read_exact(1) {
                Ok(s) => s,
                Err(kind) => {
                    assert(find_magic(data, at) == find_magic(data, at + 1));
                    assert(find_magic(data, at + 1) is None);
                    return Err(ParsingError::IO(kind));
                },
            };
            let mut next: Vec<u8> = Vec::new();
            next.push(window[1]);
            next.push(window[2]);
            next.push(window[3]);
            next.push(step[0]);
            window = next;
            assert(window@ =~= data.subrange(buffer.offset() - 4, buffer.offset()));
        }
        read_frame(buffer)
    }

    /// Appends the frame of the wrapped record. Fails, writing nothing, where
    /// the description is too long for the 32-bit record size.
    fn write_to(&mut self, buffer: &mut Vec<u8>) -> (res: Result<(), SerializeError>) {
        write_frame(&self.0, buffer)
    }
}

/// Appends the frame of `record`. Fails, writing nothing, where the
/// description is too long for the 32-bit record size.
pub fn write_frame(record: &BankRecord, buffer: &mut Vec<u8>) -> (res: Result<(), SerializeError>)
    ensures
        res is Ok <==> bin_encodable(record@),
        res is Ok ==> final(buffer)@ == old(buffer)@ + bin_encoding(record@),
        res matches Err(e) ==> e == SerializeError::IO(IoFailure::InvalidInput) && final(buffer)@
            == old(buffer)@,
{
    let description = record.description.as_str().as_bytes();
    let description_len = description.len();
    if description_len > 0xFFFF_FFFF - FIXED_PART {
        return Err(SerializeError::IO(IoFailure::InvalidInput));
    }
    let adjusted: usize = if description_len == 0 { 0 } else { description_len + 2 };
    let record_size: u32 = (FIXED_PART + description_len) as u32;
    push_magic(buffer);
    push_u32_be(buffer, record_size);
    let ghost head = buffer@;
    assert(head =~= old(buffer)@ + (magic() + u32_to_be(record_size)));
    push_fixed_part(buffer, record, adjusted as u32);
    push_payload(buffer, description);
    assert(buffer@ =~= old(buffer)@ + bin_encoding(record@));
    Ok(())
}

/// Writing a 64-bit number most significant byte first and reading the
/// eight bytes back gives the number.
pub proof fn lemma_u64_be_round_trip(x: u64)
    ensures
        u64_from_be(u64_to_be(x)) == x,
{
    assert(((((x >> 56) & 0xff) as u8) as u64) << 56 | ((((x >> 48) & 0xff) as u8) as u64) << 48 | (
    (((x >> 40) & 0xff) as u8) as u64) << 40 | ((((x >> 32) & 0xff) as u8) as u64) << 32 | ((((x
        >> 24) & 0xff) as u8) as u64) << 24 | ((((x >> 16) & 0xff) as u8) as u64) << 16 | ((((x
        >> 8) & 0xff) as u8) as u64) << 8 | ((((x >> 0) & 0xff) as u8) as u64) == x)
        by (bit_vector);
}

/// Writing a 32-bit number most significant byte first and reading the four
/// bytes back gives the number.
pub proof fn lemma_u32_be_round_trip(x: u32)
    ensures
        u32_from_be(u32_to_be(x)) == x,
{
    let y = x as u64;
    assert(((((y >> 24) & 0xff) as u8) as u32) << 24 | ((((y >> 16) & 0xff) as u8) as u32) << 16 | (
    (((y >> 8) & 0xff) as u8) as u32) << 8 | ((((y >> 0) & 0xff) as u8) as u32) == x)
        by (bit_vector)
        requires
            y == x as u64,
    ;
}

/// The first marker at or after `pos` is at `m` where `m` holds one and no
/// offset between holds one.
pub proof fn lemma_find_magic(data: Seq<u8>, pos: int, m: int)
    requires
        0 <= pos <= m,
        m + 4 <= data.len(),
        forall|i: int| pos <= i < m ==> !marker_at(data, i),
        marker_at(data, m),
    ensures
        find_magic(data, pos) == Some(m),
    decreases m - pos,
{
    if pos < m {
        lemma_find_magic(data, pos + 1, m);
    }
}

/// What is decoded behind a marker depends only on the bytes from there on:
/// bytes in front shift the final offset and nothing else.
#[verifier::rlimit(60)]
#[verifier::spinoff_prover]
pub proof fn lemma_frame_shift(prefix: Seq<u8>, rest: Seq<u8>, p: int)
    requires
        0 <= p <= rest.len(),
    ensures
        frame_decoding(prefix + rest, prefix.len() + p).0 == frame_decoding(rest, p).0,
        frame_decoding(prefix + rest, prefix.len() + p).1 == prefix.len() + frame_decoding(
            rest,
            p,
        ).1,
{
    let data = prefix + rest;
    let n = prefix.len() as int;
    if p + 4 <= rest.len() {
        assert(data.subrange(n + p, n + p + 4) =~= rest.subrange(p, p + 4));
        let record_size = u32_from_be(rest.subrange(p, p + 4));
        let q = p + 4;
        let got = fixed_read(rest, q);
        assert(fixed_read(data, n + q) == got);
        assert(data.subrange(n + q, n + q + got) =~= rest.subrange(q, q + got));
        assert(fixed_part(data, n + q) == fixed_part(rest, q));
        let fixed = fixed_part(rest, q);
        let r = q + got;
        if record_size >= got {
            let take = payload_len(u32_from_be(fixed.subrange(42, 46)), record_size, got);
            if r + take <= rest.len() {
                assert(data.subrange(n + r, n + r + take) =~= rest.subrange(r, r + take));
            }
        }
    }
}

/// Resynchronisation: bytes that hold no magic marker, put in front of data
/// that starts with one, are skipped. The decoder returns what it returns
/// without them and stops at the same byte.
pub proof fn lemma_resync(prefix: Seq<u8>, rest: Seq<u8>)
    requires
        rest.len() >= 4,
        marker_at(rest, 0),
        forall|i: int| 0 <= i && i + 4 <= prefix.len() ==> !marker_at(prefix, i),
    ensures
        bin_decoding(prefix + rest, 0).0 == bin_decoding(rest, 0).0,
        bin_decoding(prefix + rest, 0).1 == prefix.len() + bin_decoding(rest, 0).1,
        bin_decoding(rest, 0) == frame_decoding(rest, 4),
{
    let data = prefix + rest;
    let n = prefix.len() as int;
    assert(rest[0] == rest.subrange(0, 4)[0]);
    assert forall|i: int| 0 <= i < n implies !marker_at(data, i) by {
        if i + 4 <= n {
            assert(!marker_at(prefix, i));
            assert(data.subrange(i, i + 4) =~= prefix.subrange(i, i + 4));
        } else if marker_at(data, i) {
            // The window reaches into `rest`, whose first byte is the first
            // byte of the marker, which occurs nowhere else in it.
            let k = n - i;
            assert(data.subrange(i, i + 4)[k] == rest[0]);
            assert(magic()[k] != 0x59u8);
        }
    }
    assert(data.subrange(n, n + 4) =~= rest.subrange(0, 4));
    lemma_find_magic(data, 0, n);
    lemma_find_magic(rest, 0, 0);
    lemma_frame_shift(prefix, rest, 4);
}

/// Where each field lies in the fixed part of a frame.
pub proof fn lemma_fixed_layout(rec: RecordView, declared: u32)
    ensures
        fixed_bytes(rec, declared).len() == 46,
        fixed_bytes(rec, declared).subrange(0, 8) == u64_to_be(rec.tx_id),
        fixed_bytes(rec, declared)[8] == rec.tx_type.ordinal_value(),
        fixed_bytes(rec, declared).subrange(9, 17) == u64_to_be(rec.from_user_id),
        fixed_bytes(rec, declared).subrange(17, 25) == u64_to_be(rec.to_user_id),
        fixed_bytes(rec, declared).subrange(25, 33) == u64_to_be(rec.amount),
        fixed_bytes(rec, declared).subrange(33, 41) == u64_to_be(rec.timestamp),
        fixed_bytes(rec, declared)[41] == rec.status.ordinal_value(),
        fixed_bytes(rec, declared).subrange(42, 46) == u32_to_be(declared),
{
    let fixed = fixed_bytes(rec, declared);
    assert(fixed.subrange(0, 8) =~= u64_to_be(rec.tx_id));
    assert(fixed.subrange(9, 17) =~= u64_to_be(rec.from_user_id));
    assert(fixed.subrange(17, 25) =~= u64_to_be(rec.to_user_id));
    assert(fixed.subrange(25, 33) =~= u64_to_be(rec.amount));
    assert(fixed.subrange(33, 41) =~= u64_to_be(rec.timestamp));
    assert(fixed.subrange(42, 46) =~= u32_to_be(declared));
}

/// The record that the fixed part of a frame of `rec` stands for, together
/// with a payload: `rec` with the description that the payload carries.
pub proof fn lemma_frame_record(rec: RecordView, declared: u32, payload: Seq<u8>)
    requires
        valid_utf8(payload),
    ensures
        frame_record(fixed_bytes(rec, declared), payload) == Ok::<RecordView, ParsingErrorView>(
            RecordView { description: strip_quotes(decode_utf8(payload)), ..rec },
        ),
{
    lemma_fixed_layout(rec, declared);
    lemma_u64_be_round_trip(rec.tx_id);
    lemma_u64_be_round_trip(rec.from_user_id);
    lemma_u64_be_round_trip(rec.to_user_id);
    lemma_u64_be_round_trip(rec.amount);
    lemma_u64_be_round_trip(rec.timestamp);
    crate::record::lemma_tags_round_trip(rec.tx_type, rec.status);
}

/// The payload of a description is well-formed UTF-8 and carries the
/// description between double quotes, or nothing for the empty description.
pub proof fn lemma_payload_text(description: Seq<char>)
    ensures
        valid_utf8(bin_payload(description)),
        decode_utf8(bin_payload(description)) == if description.len() == 0 {
            description
        } else {
            quoted(description)
        },
        description.len() == 0 <==> bin_payload(description).len() == 0,
{
    let bytes = encode_utf8(description);
    if description.len() == 0 {
        assert(bytes =~= Seq::<u8>::empty());
        assert(decode_utf8(bytes) =~= description);
    } else {
        lemma_scalar_bytes(description[0]);
        assert(bytes.len() > 0);
        let quote = seq!['"'];
        lemma_scalar_bytes('"');
        assert(quote.drop_first() =~= Seq::<char>::empty());
        assert(encode_utf8(Seq::<char>::empty()) =~= Seq::<u8>::empty());
        assert(encode_utf8(quote) =~= seq![0x22u8]);
        lemma_encode_concat(quote, description);
        lemma_encode_concat(quote + description, quote);
        assert(encode_utf8(quoted(description)) =~= bin_payload(description));
        encode_utf8_valid_utf8(quoted(description));
        encode_utf8_decode_utf8(quoted(description));
    }
}

/// A frame at the start of the data decodes to its record where its record
/// size reaches the end of its payload and its description holds no double
/// quote.
proof fn lemma_frame_at_start(rec: RecordView, record_size: u32, tail: Seq<u8>)
    requires
        !rec.description.contains('"'),
        record_size >= 46 + bin_payload(rec.description).len(),
    ensures
        bin_frame(rec, record_size).len() == 54 + bin_payload(rec.description).len(),
        bin_decoding(bin_frame(rec, record_size) + tail, 0) == (
            Ok::<RecordView, ParsingErrorView>(rec),
            bin_frame(rec, record_size).len() as int,
        ),
{
    let frame = bin_frame(rec, record_size);
    let data = frame + tail;
    let payload = bin_payload(rec.description);
    let declared = payload.len() as u32;
    let fixed = bin_fixed(rec);
    lemma_fixed_layout(rec, declared);
    assert(frame.len() == 54 + payload.len());
    assert(data.subrange(0, 4) =~= magic());
    lemma_find_magic(data, 0, 0);
    assert(data.subrange(4, 8) =~= u32_to_be(record_size));
    lemma_u32_be_round_trip(record_size);
    lemma_u32_be_round_trip(declared);
    assert(fixed_read(data, 8) == 46);
    assert(data.subrange(8, 54) =~= fixed);
    assert(fixed_part(data, 8) =~= fixed);
    assert(payload_len(declared, record_size, 46) == payload.len());
    assert(data.subrange(54, 54 + payload.len() as int) =~= payload);
    lemma_payload_text(rec.description);
    lemma_frame_record(rec, declared, payload);
    if rec.description.len() == 0 {
        assert(strip_quotes(rec.description) =~= rec.description);
    } else {
        lemma_strip_quotes_wrapped(rec.description);
    }
    assert(RecordView { description: strip_quotes(decode_utf8(payload)), ..rec } == rec);
    assert(frame_decoding(data, 4) == (
        Ok::<RecordView, ParsingErrorView>(rec),
        54 + payload.len() as int,
    ));
}

/// Tolerance to the record size: a frame, between any bytes `pre` and `tail`,
/// decodes from its start to its record, and the decoder stops behind it,
/// where its record size reaches the end of its payload, quotes included, and
/// its description holds no double quote.
pub proof fn lemma_frame_round_trip(pre: Seq<u8>, rec: RecordView, record_size: u32, tail: Seq<u8>)
    requires
        !rec.description.contains('"'),
        record_size >= 46 + bin_payload(rec.description).len(),
    ensures
        bin_frame(rec, record_size).len() == 54 + bin_payload(rec.description).len(),
        bin_decoding(pre + bin_frame(rec, record_size) + tail, pre.len() as int) == (
            Ok::<RecordView, ParsingErrorView>(rec),
            pre.len() as int + bin_frame(rec, record_size).len(),
        ),
{
    let frame = bin_frame(rec, record_size);
    let rest = frame + tail;
    let data = pre + frame + tail;
    let n = pre.len() as int;
    assert(data =~= pre + rest);
    lemma_frame_at_start(rec, record_size, tail);
    assert(rest.subrange(0, 4) =~= magic());
    lemma_find_magic(rest, 0, 0);
    assert(data.subrange(n, n + 4) =~= magic());
    lemma_find_magic(data, n, n);
    lemma_frame_shift(pre, rest, 4);
}

/// Round trip: the frame written for a record without description, between
/// any bytes `pre` and `tail`, decodes from its start to that record, and the
/// decoder stops behind it.
pub proof fn lemma_bin_round_trip(pre: Seq<u8>, rec: RecordView, tail: Seq<u8>)
    requires
        rec.description.len() == 0,
    ensures
        bin_encodable(rec),
        bin_encoding(rec).len() == 54,
        bin_decoding(pre + bin_encoding(rec) + tail, pre.len() as int) == (
            Ok::<RecordView, ParsingErrorView>(rec),
            pre.len() as int + bin_encoding(rec).len(),
        ),
{
    assert(encode_utf8(rec.description) =~= Seq::<u8>::empty());
    lemma_frame_round_trip(pre, rec, 46u32, tail);
}

} // verus!
