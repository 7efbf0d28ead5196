//! The canonical in-memory record shared by the three codecs, with its two
//! tagged fields and their wire ordinals and canonical names.
use crate::errors::{NameErrorView, ParsingError, SerializeError, StatusTypeError, TxTypeError};
use crate::text::{spells, str_chars, string_of};
use crate::txt_format::TextReportReader;
use vstd::prelude::*;

verus! {

/// Kind of a transaction. The position of a variant is its wire ordinal.
#[derive(Debug, Clone, Copy, PartialEq, Eq, Hash, Structural)]
pub enum TxType {
    Deposit,
    Transfer,
    Withdrawal,
}

/// Outcome of a transaction. The position of a variant is its wire ordinal.
#[derive(Debug, Clone, Copy, PartialEq, Eq, Hash, Structural)]
pub enum Status {
    Success,
    Failure,
    Pending,
}

/// One bank transaction. The description is the logical text: the quotes that
/// bracket it on the wire are not part of it.
#[derive(Debug, PartialEq, Eq, Hash)]
pub struct BankRecord {
    pub tx_id: u64,
    pub tx_type: TxType,
    pub from_user_id: u64,
    pub to_user_id: u64,
    pub amount: u64,
    pub timestamp: u64,
    pub status: Status,
    pub description: String,
}

/// Mathematical model of a [`BankRecord`].
pub struct RecordView {
    pub tx_id: u64,
    pub tx_type: TxType,
    pub from_user_id: u64,
    pub to_user_id: u64,
    pub amount: u64,
    pub timestamp: u64,
    pub status: Status,
    pub description: Seq<char>,
}

impl View for BankRecord {
    type V = RecordView;

    open spec fn view(&self) -> RecordView {
        RecordView {
            tx_id: self.tx_id,
            tx_type: self.tx_type,
            from_user_id: self.from_user_id,
            to_user_id: self.to_user_id,
            amount: self.amount,
            timestamp: self.timestamp,
            status: self.status,
            description: self.description@,
        }
    }
}

/// The record that a text block starts from: zeros, a deposit that succeeded,
/// and no description.
pub open spec fn default_record() -> RecordView {
    RecordView {
        tx_id: 0,
        tx_type: TxType::Deposit,
        from_user_id: 0,
        to_user_id: 0,
        amount: 0,
        timestamp: 0,
        status: Status::Success,
        description: Seq::empty(),
    }
}

/// The models of a decoding result: of the record, or of the error.
pub open spec fn decoded_view(res: Result<BankRecord, ParsingError>) -> Result<
    RecordView,
    crate::errors::ParsingErrorView,
> {
    match res {
        Ok(r) => Ok(r@),
        Err(e) => Err(e@),
    }
}

impl TxType {
    /// The wire ordinal of this type.
    pub open spec fn ordinal_value(self) -> u8 {
        match self {
            TxType::Deposit => 0,
            TxType::Transfer => 1,
            TxType::Withdrawal => 2,
        }
    }

    /// The canonical upper-case name of this type.
    pub open spec fn name_chars(self) -> Seq<char> {
        match self {
            TxType::Deposit => "DEPOSIT"@,
            TxType::Transfer => "TRANSFER"@,
            TxType::Withdrawal => "WITHDRAWAL"@,
        }
    }

    /// The type with wire ordinal `v`, if there is one.
    pub open spec fn of_ordinal(v: u8) -> Option<TxType> {
        if v == 0 {
            Some(TxType::Deposit)
        } else if v == 1 {
            Some(TxType::Transfer)
        } else if v == 2 {
            Some(TxType::Withdrawal)
        } else {
            None
        }
    }

    /// The type whose canonical name is exactly `s`, if there is one.
    pub open spec fn of_name(s: Seq<char>) -> Option<TxType> {
        if s == "DEPOSIT"@ {
            Some(TxType::Deposit)
        } else if s == "TRANSFER"@ {
            Some(TxType::Transfer)
        } else if s == "WITHDRAWAL"@ {
            Some(TxType::Withdrawal)
        } else {
            None
        }
    }

    /// The wire ordinal of this type.
    pub fn ordinal(&self) -> (v: u8)
        ensures
            v == self.ordinal_value(),
            TxType::of_ordinal(v) == Some(*self),
    {
        match self {
            TxType::Deposit => 0,
            TxType::Transfer => 1,
            TxType::Withdrawal => 2,
        }
    }

    /// The canonical upper-case name of this type.
    pub fn name(&self) -> (s: &'static str)
        ensures
            s@ == self.name_chars(),
    {
        match self {
            TxType::Deposit => "DEPOSIT",
            TxType::Transfer => "TRANSFER",
            TxType::Withdrawal => "WITHDRAWAL",
        }
    }

    /// Decodes a wire ordinal; any value but 0, 1 and 2 is rejected.
    pub fn try_from(v: u8) -> (res: Result<TxType, TxTypeError>)
        ensures
            match res {
                Ok(t) => TxType::of_ordinal(v) == Some(t),
                Err(e) => TxType::of_ordinal(v) is None && e@ == NameErrorView::NotFound,
            },
    {
        if v == 0 {
            Ok(TxType::Deposit)
        } else if v == 1 {
            Ok(TxType::Transfer)
        } else if v == 2 {
            Ok(TxType::Withdrawal)
        } else {
            Err(TxTypeError::NotFound)
        }
    }

    /// Decodes a canonical name held as characters; the error keeps the text.
    pub fn from_chars(chars: &Vec<char>) -> (res: Result<TxType, TxTypeError>)
        ensures
            match res {
                Ok(t) => TxType::of_name(chars@) == Some(t),
                Err(e) => TxType::of_name(chars@) is None && e@ == NameErrorView::InvalidSting(
                    chars@,
                ),
            },
    {
        if spells(chars, "DEPOSIT") {
            Ok(TxType::Deposit)
        } else if spells(chars, "TRANSFER") {
            Ok(TxType::Transfer)
        } else if spells(chars, "WITHDRAWAL") {
            Ok(TxType::Withdrawal)
        } else {
            let text = string_of(chars, 0, chars.len());
            assert(chars@.subrange(0, chars.len() as int) =~= chars@);
            Err(TxTypeError::InvalidSting(text))
        }
    }

    /// Decodes a canonical name; the match is exact and case-sensitive.
    pub fn from_str(s: &str) -> (res: Result<TxType, TxTypeError>)
        ensures
            match res {
                Ok(t) => TxType::of_name(s@) == Some(t),
                Err(e) => TxType::of_name(s@) is None && e@ == NameErrorView::InvalidSting(s@),
            },
    {
        let chars = str_chars(s);
        TxType::from_chars(&chars)
    }
}

impl Status {
    /// The wire ordinal of this status.
    pub open spec fn ordinal_value(self) -> u8 {
        match self {
            Status::Success => 0,
            Status::Failure => 1,
            Status::Pending => 2,
        }
    }

    /// The canonical upper-case name of this status.
    pub open spec fn name_chars(self) -> Seq<char> {
        match self {
            Status::Success => "SUCCESS"@,
            Status::Failure => "FAILURE"@,
            Status::Pending => "PENDING"@,
        }
    }

    /// The status with wire ordinal `v`, if there is one.
    pub open spec fn of_ordinal(v: u8) -> Option<Status> {
        if v == 0 {
            Some(Status::Success)
        } else if v == 1 {
            Some(Status::Failure)
        } else if v == 2 {
            Some(Status::Pending)
        } else {
            None
        }
    }

    /// The status whose canonical name is exactly `s`, if there is one.
    pub open spec fn of_name(s: Seq<char>) -> Option<Status> {
        if s == "SUCCESS"@ {
            Some(Status::Success)
        } else if s == "FAILURE"@ {
            Some(Status::Failure)
        } else if s == "PENDING"@ {
            Some(Status::Pending)
        } else {
            None
        }
    }

    /// The wire ordinal of this status.
    pub fn ordinal(&self) -> (v: u8)
        ensures
            v == self.ordinal_value(),
            Status::of_ordinal(v) == Some(*self),
    {
        match self {
            Status::Success => 0,
            Status::Failure => 1,
            Status::Pending => 2,
        }
    }

    /// The canonical upper-case name of this status.
    pub fn name(&self) -> (s: &'static str)
        ensures
            s@ == self.name_chars(),
    {
        match self {
            Status::Success => "SUCCESS",
            Status::Failure => "FAILURE",
            Status::Pending => "PENDING",
        }
    }

    /// Decodes a wire ordinal; any value but 0, 1 and 2 is rejected.
    pub fn try_from(v: u8) -> (res: Result<Status, StatusTypeError>)
        ensures
            match res {
                Ok(t) => Status::of_ordinal(v) == Some(t),
                Err(e) => Status::of_ordinal(v) is None && e@ == NameErrorView::NotFound,
            },
    {
        if v == 0 {
            Ok(Status::Success)
        } else if v == 1 {
            Ok(Status::Failure)
        } else if v == 2 {
            Ok(Status::Pending)
        } else {
            Err(StatusTypeError::NotFound)
        }
    }

    /// Decodes a canonical name held as characters; the error keeps the text.
    pub fn from_chars(chars: &Vec<char>) -> (res: Result<Status, StatusTypeError>)
        ensures
            match res {
                Ok(t) => Status::of_name(chars@) == Some(t),
                Err(e) => Status::of_name(chars@) is None && e@ == NameErrorView::InvalidSting(
                    chars@,
                ),
            },
    {
        if spells(chars, "SUCCESS") {
            Ok(Status::Success)
        } else if spells(chars, "FAILURE") {
            Ok(Status::Failure)
        } else if spells(chars, "PENDING") {
            Ok(Status::Pending)
        } else {
            let text = string_of(chars, 0, chars.len());
            assert(chars@.subrange(0, chars.len() as int) =~= chars@);
            Err(StatusTypeError::InvalidSting(text))
        }
    }

    /// Decodes a canonical name; the match is exact and case-sensitive.
    pub fn from_str(s: &str) -> (res: Result<Status, StatusTypeError>)
        ensures
            match res {
                Ok(t) => Status::of_name(s@) == Some(t),
                Err(e) => Status::of_name(s@) is None && e@ == NameErrorView::InvalidSting(s@),
            },
    {
        let chars = str_chars(s);
        Status::from_chars(&chars)
    }
}

impl Default for TxType {
    fn default() -> (t: TxType)
        ensures
            t == TxType::Deposit,
    {
        TxType::Deposit
    }
}

impl Default for Status {
    fn default() -> (s: Status)
        ensures
            s == Status::Success,
    {
        Status::Success
    }
}

impl Default for BankRecord {
    fn default() -> (r: BankRecord)
        ensures
            r@ == default_record(),
    {
        BankRecord::new()
    }
}

impl BankRecord {
    /// The default record.
    pub fn new() -> (r: BankRecord)
        ensures
            r@ == default_record(),
    {
        BankRecord {
            tx_id: 0,
            tx_type: TxType::Deposit,
            from_user_id: 0,
            to_user_id: 0,
            amount: 0,
            timestamp: 0,
            status: Status::Success,
            description: String::new(),
        }
    }

    /// Whether the two records agree in all eight fields.
    pub fn same(&self, other: &BankRecord) -> (r: bool)
        ensures
            r == (self@ == other@),
    {
        self.tx_id == other.tx_id && self.tx_type.ordinal() == other.tx_type.ordinal()
            && self.from_user_id == other.from_user_id && self.to_user_id == other.to_user_id
            && self.amount == other.amount && self.timestamp == other.timestamp
            && self.status.ordinal() == other.status.ordinal() && self.description
            == other.description
    }
}

/// Each wire ordinal stands for exactly one variant, and each canonical name
/// for exactly one variant.
pub proof fn lemma_tags_round_trip(t: TxType, s: Status)
    ensures
        TxType::of_ordinal(t.ordinal_value()) == Some(t),
        Status::of_ordinal(s.ordinal_value()) == Some(s),
        TxType::of_name(t.name_chars()) == Some(t),
        Status::of_name(s.name_chars()) == Some(s),
{
    reveal_strlit("DEPOSIT");
    reveal_strlit("TRANSFER");
    reveal_strlit("WITHDRAWAL");
    reveal_strlit("SUCCESS");
    reveal_strlit("FAILURE");
    reveal_strlit("PENDING");
    assert("DEPOSIT"@[0] != "TRANSFER"@[0]);
    assert("DEPOSIT"@[0] != "WITHDRAWAL"@[0]);
    assert("TRANSFER"@[0] != "WITHDRAWAL"@[0]);
    assert("SUCCESS"@[0] != "FAILURE"@[0]);
    assert("SUCCESS"@[0] != "PENDING"@[0]);
    assert("FAILURE"@[0] != "PENDING"@[0]);
}

/// A codec for one representation of a record.
pub trait BankRecordParser {
    /// What decoding finds in `data` from offset `pos` on, and the offset at
    /// which the source is left.
    spec fn decoding(data: Seq<u8>, pos: int) -> (Result<RecordView, crate::errors::ParsingErrorView>, int);

    /// The record that this value wraps.
    spec fn record(&self) -> RecordView;

    /// Whether `rec` can be written in this representation.
    spec fn encodable(rec: RecordView) -> bool;

    /// The bytes that stand for `rec`.
    spec fn encoding(rec: RecordView) -> Seq<u8>;

    /// Decodes the next record from `buffer`.
    fn from_read(buffer: &mut TextReportReader) -> (res: Result<BankRecord, ParsingError>)
        ensures
            final(buffer).bytes() == old(buffer).bytes(),
            decoded_view(res) == Self::decoding(old(buffer).bytes(), old(buffer).offset()).0,
            final(buffer).offset() == Self::decoding(old(buffer).bytes(), old(buffer).offset()).1,
            old(buffer).offset() <= final(buffer).offset() <= final(buffer).bytes().len(),
            res is Ok ==> final(buffer).offset() > old(buffer).offset(),
    ;

    /// Appends the encoding of the wrapped record to `buffer`.
    fn write_to(&mut self, buffer: &mut Vec<u8>) -> (res: Result<(), SerializeError>)
        ensures
            final(self).record() == old(self).record(),
            res is Ok <==> Self::encodable(old(self).record()),
            res is Ok ==> final(buffer)@ == old(buffer)@ + Self::encoding(old(self).record()),
            res matches Err(e) ==> e == SerializeError::IO(crate::errors::IoFailure::InvalidInput)
                && final(buffer)@ == old(buffer)@,
    ;
}

} // verus!
