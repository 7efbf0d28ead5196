//! Error kinds reported by the codecs and by the two ledger operations.
use std::string::FromUtf8Error;
use vstd::prelude::*;

verus! {

/// Why a byte source or sink failed.
#[derive(Debug, Clone, Copy, PartialEq, Eq, Structural)]
pub enum IoFailure {
    /// The source ended before the bytes asked for were read.
    UnexpectedEof,
    /// The bytes read do not have the shape that the format prescribes.
    InvalidData,
    /// A value does not fit the field that the format reserves for it.
    InvalidInput,
}

/// Why a numeric field is not an unsigned 64-bit decimal number.
#[derive(Debug, Clone, Copy, PartialEq, Eq, Structural)]
pub enum IntErrorKind {
    /// The field is empty.
    Empty,
    /// The field has no digit, or a character that is not a digit.
    InvalidDigit,
    /// The digits denote a number above the 64-bit range.
    PosOverflow,
}

/// Failure to decode a transaction type.
#[derive(Debug)]
pub enum TxTypeError {
    /// The text is none of the three type names; holds the text.
    InvalidSting(String),
    /// The number is not a known ordinal; holds the number.
    InvalidNumber(u8),
    /// The wire ordinal stands for no transaction type.
    NotFound,
}

/// Failure to decode a transaction status.
#[derive(Debug)]
pub enum StatusTypeError {
    /// The text is none of the three status names; holds the text.
    InvalidSting(String),
    /// The number is not a known ordinal; holds the number.
    InvalidNumber(u8),
    /// The wire ordinal stands for no status.
    NotFound,
}

/// Failure to decode one record.
#[derive(Debug)]
pub enum ParsingError {
    /// The byte source ended early or held malformed text.
    IO(IoFailure),
    /// A numeric field failed to parse.
    ParseInt(IntErrorKind),
    /// The transaction type is unknown.
    ParseTxType(TxTypeError),
    /// The status is unknown.
    ParseStatus(StatusTypeError),
    /// The description of a binary frame is not well-formed UTF-8.
    ParseUtf8(FromUtf8Error),
    /// A binary frame contradicts itself.
    ParseBin { source: IoFailure, description: String },
    /// Any other failure, with its message.
    Custom(String),
}

/// Failure to encode one record.
#[derive(Debug, Clone, Copy, PartialEq, Eq, Structural)]
pub enum SerializeError {
    /// The record cannot be written in the chosen format.
    IO(IoFailure),
}

/// Mathematical model of [`TxTypeError`] and of [`StatusTypeError`].
pub enum NameErrorView {
    InvalidSting(Seq<char>),
    InvalidNumber(u8),
    NotFound,
}

/// Mathematical model of [`ParsingError`].
pub enum ParsingErrorView {
    IO(IoFailure),
    ParseInt(IntErrorKind),
    ParseTxType(NameErrorView),
    ParseStatus(NameErrorView),
    ParseUtf8,
    ParseBin { source: IoFailure, description: Seq<char> },
    Custom(Seq<char>),
}

impl View for TxTypeError {
    type V = NameErrorView;

    open spec fn view(&self) -> NameErrorView {
        match self {
            TxTypeError::InvalidSting(s) => NameErrorView::InvalidSting(s@),
            TxTypeError::InvalidNumber(n) => NameErrorView::InvalidNumber(*n),
            TxTypeError::NotFound => NameErrorView::NotFound,
        }
    }
}

impl View for StatusTypeError {
    type V = NameErrorView;

    open spec fn view(&self) -> NameErrorView {
        match self {
            StatusTypeError::InvalidSting(s) => NameErrorView::InvalidSting(s@),
            StatusTypeError::InvalidNumber(n) => NameErrorView::InvalidNumber(*n),
            StatusTypeError::NotFound => NameErrorView::NotFound,
        }
    }
}

impl View for ParsingError {
    type V = ParsingErrorView;

    open spec fn view(&self) -> ParsingErrorView {
        match self {
            ParsingError::IO(k) => ParsingErrorView::IO(*k),
            ParsingError::ParseInt(k) => ParsingErrorView::ParseInt(*k),
            ParsingError::ParseTxType(e) => ParsingErrorView::ParseTxType(e@),
            ParsingError::ParseStatus(e) => ParsingErrorView::ParseStatus(e@),
            ParsingError::ParseUtf8(_) => ParsingErrorView::ParseUtf8,
            ParsingError::ParseBin { source, description } => ParsingErrorView::ParseBin {
                source: *source,
                description: description@,
            },
            ParsingError::Custom(m) => ParsingErrorView::Custom(m@),
        }
    }
}

} // verus!
