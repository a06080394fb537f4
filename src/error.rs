use vstd::prelude::*;

verus! {

/// Where a lexing error occurred: the line it is on, and its 0-based row and column.
#[derive(Clone, Debug, PartialEq, Eq)]
pub struct ErrorPosition {
    pub file_path: Option<String>,
    pub code_row: String,
    pub row: usize,
    pub column: usize,
}

/// Why an integer literal could not be read.
#[derive(Clone, Copy, Debug, PartialEq, Eq, Structural)]
pub enum IntErrorKind {
    /// The literal has a radix prefix and no digits after it.
    Empty,
    /// The value does not fit in an `i64`.
    PosOverflow,
}

/// Why a float literal could not be read: its lexeme is not a decimal number.
#[derive(Clone, Copy, Debug, PartialEq, Eq, Structural)]
pub enum FloatErrorKind {
    Invalid,
}

/// A lexing error, with the position at which it was raised.
#[derive(Clone, Debug, PartialEq, Eq)]
pub enum Error {
    UnexpectedEOF(ErrorPosition, &'static str),
    InvalidIdentifier(ErrorPosition, &'static str),
    InvalidCharacter(ErrorPosition, char),
    InvalidLitFloat(ErrorPosition, FloatErrorKind),
    InvalidLitInt(ErrorPosition, IntErrorKind),
    InvalidLitChar(ErrorPosition, &'static str),
}

/// The model of an error position.
pub struct PositionModel {
    pub file_path: Option<Seq<char>>,
    pub code_row: Seq<char>,
    pub row: nat,
    pub column: nat,
}

/// The model of an error.
pub enum ErrorModel {
    UnexpectedEOF(PositionModel, Seq<char>),
    InvalidIdentifier(PositionModel, Seq<char>),
    InvalidCharacter(PositionModel, char),
    InvalidLitFloat(PositionModel, FloatErrorKind),
    InvalidLitInt(PositionModel, IntErrorKind),
    InvalidLitChar(PositionModel, Seq<char>),
}

impl View for ErrorPosition {
    type V = PositionModel;

    open spec fn view(&self) -> PositionModel {
        PositionModel {
            file_path: match self.file_path {
                Some(p) => Some(p@),
                None => None,
            },
            code_row: self.code_row@,
            row: self.row as nat,
            column: self.column as nat,
        }
    }
}

impl View for Error {
    type V = ErrorModel;

    open spec fn view(&self) -> ErrorModel {
        match self {
            Error::UnexpectedEOF(p, h) => ErrorModel::UnexpectedEOF(p@, h@),
            Error::InvalidIdentifier(p, h) => ErrorModel::InvalidIdentifier(p@, h@),
            Error::InvalidCharacter(p, c) => ErrorModel::InvalidCharacter(p@, *c),
            Error::InvalidLitFloat(p, k) => ErrorModel::InvalidLitFloat(p@, *k),
            Error::InvalidLitInt(p, k) => ErrorModel::InvalidLitInt(p@, *k),
            Error::InvalidLitChar(p, h) => ErrorModel::InvalidLitChar(p@, h@),
        }
    }
}

} // verus!
