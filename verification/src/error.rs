//! Errors are numeric codes with an optional position.
//!
//! The numbers are a wire contract with the host, whose message table is keyed
//! by them: they are pairwise distinct ([`code_numbers_are_distinct`]) and an
//! existing one never changes.

use vstd::prelude::*;

verus! {

/// Error codes.
#[derive(Clone, Copy, PartialEq, Eq, Structural, Debug)]
pub enum Code {
    // 1xx: corrupt input bytes
    UnexpectedEof,
    BadMagic,
    BadThrift,
    BadVarint,
    NestingTooDeep,
    BadPageHeader,
    BadCompressedData,
    ChecksumMismatch,
    // 2xx: unsupported Parquet features
    UnsupportedEncoding,
    UnsupportedCodec,
    UnsupportedType,
    UnsupportedNested,
    EncryptionUnsupported,
    // 3xx: SQL syntax
    SyntaxError,
    UnexpectedToken,
    UnterminatedString,
    NumberOverflow,
    ExpressionTooDeep,
    // 4xx: binding and semantic analysis
    TableNotFound,
    ColumnNotFound,
    AmbiguousColumn,
    FunctionNotFound,
    TypeMismatch,
    InvalidCast,
    WrongArgCount,
    NotAggregate,
    NotGrouped,
    UnsupportedFeature,
    DuplicateTable,
    ColumnCountMismatch,
    ReadOnlyTable,
    DuplicateColumn,
    // 5xx: runtime
    Oom,
    LimitExceeded,
    DivideByZero,
    ValueOutOfRange,
    IoFailed,
    RecursionLimitExceeded,
    MultipleRowsSubquery,
    // 9xx: internal inconsistency (a bug)
    Internal,
}

/// An error: a code, and a position whose meaning depends on the code (a byte
/// position in the SQL text, or an offset into a buffer). `u32::MAX` means
/// "no position".
#[derive(Clone, Copy, Debug)]
pub struct Error {
    pub code: Code,
    pub pos: u32,
}

/// The number a code has on the wire.
pub open spec fn code_number(code: Code) -> u16 {
    match code {
        Code::UnexpectedEof => 100,
        Code::BadMagic => 101,
        Code::BadThrift => 102,
        Code::BadVarint => 103,
        Code::NestingTooDeep => 104,
        Code::BadPageHeader => 105,
        Code::BadCompressedData => 106,
        Code::ChecksumMismatch => 107,
        Code::UnsupportedEncoding => 200,
        Code::UnsupportedCodec => 201,
        Code::UnsupportedType => 202,
        Code::UnsupportedNested => 203,
        Code::EncryptionUnsupported => 204,
        Code::SyntaxError => 300,
        Code::UnexpectedToken => 301,
        Code::UnterminatedString => 302,
        Code::NumberOverflow => 303,
        Code::ExpressionTooDeep => 304,
        Code::TableNotFound => 400,
        Code::ColumnNotFound => 401,
        Code::AmbiguousColumn => 402,
        Code::FunctionNotFound => 403,
        Code::TypeMismatch => 404,
        Code::InvalidCast => 405,
        Code::WrongArgCount => 406,
        Code::NotAggregate => 407,
        Code::NotGrouped => 408,
        Code::UnsupportedFeature => 409,
        Code::DuplicateTable => 410,
        Code::ColumnCountMismatch => 411,
        Code::ReadOnlyTable => 412,
        Code::DuplicateColumn => 413,
        Code::Oom => 500,
        Code::LimitExceeded => 501,
        Code::DivideByZero => 502,
        Code::ValueOutOfRange => 503,
        Code::IoFailed => 504,
        Code::RecursionLimitExceeded => 505,
        Code::MultipleRowsSubquery => 506,
        Code::Internal => 900,
    }
}

/// The English text of a code.
pub open spec fn code_message(code: Code) -> Seq<char> {
    match code {
        Code::UnexpectedEof => "unexpected end of input"@,
        Code::BadMagic => "not a parquet file (bad magic)"@,
        Code::BadThrift => "malformed thrift data"@,
        Code::BadVarint => "malformed varint"@,
        Code::NestingTooDeep => "nesting too deep"@,
        Code::BadPageHeader => "malformed page header"@,
        Code::BadCompressedData => "malformed compressed data"@,
        Code::ChecksumMismatch => "page checksum mismatch"@,
        Code::UnsupportedEncoding => "unsupported parquet encoding"@,
        Code::UnsupportedCodec => "unsupported compression codec"@,
        Code::UnsupportedType => "unsupported parquet type"@,
        Code::UnsupportedNested => "malformed or oversized nested parquet schema"@,
        Code::EncryptionUnsupported => "encrypted parquet files are not supported"@,
        Code::SyntaxError => "syntax error"@,
        Code::UnexpectedToken => "unexpected token"@,
        Code::UnterminatedString => "unterminated string literal"@,
        Code::NumberOverflow => "numeric literal out of range"@,
        Code::ExpressionTooDeep => "expression nesting too deep"@,
        Code::TableNotFound => "table not found"@,
        Code::ColumnNotFound => "column not found"@,
        Code::AmbiguousColumn => "ambiguous column reference"@,
        Code::FunctionNotFound => "function not found"@,
        Code::TypeMismatch => "type mismatch"@,
        Code::InvalidCast => "invalid cast"@,
        Code::WrongArgCount => "wrong number of arguments"@,
        Code::NotAggregate => "aggregate function required"@,
        Code::NotGrouped => "column must appear in GROUP BY"@,
        Code::UnsupportedFeature => "unsupported SQL feature"@,
        Code::DuplicateTable => "table already registered"@,
        Code::ColumnCountMismatch => "number of values does not match number of columns"@,
        Code::ReadOnlyTable => "table is read-only (not created by CREATE TABLE)"@,
        Code::DuplicateColumn => "column already exists"@,
        Code::Oom => "out of memory"@,
        Code::LimitExceeded => "resource limit exceeded"@,
        Code::DivideByZero => "division by zero"@,
        Code::ValueOutOfRange => "value out of range"@,
        Code::IoFailed => "io failed"@,
        Code::RecursionLimitExceeded => "recursive CTE exceeded the maximum number of iterations"@,
        Code::MultipleRowsSubquery => "scalar subquery returned more than one row"@,
        Code::Internal => "internal error"@,
    }
}

impl Error {
    pub fn new(code: Code) -> (e: Error)
        ensures
            e.code == code,
            e.pos == u32::MAX,
    {
        Error { code, pos: u32::MAX }
    }

    /// Only the low 32 bits of the position are kept.
    pub fn at(code: Code, pos: usize) -> (e: Error)
        ensures
            e.code == code,
            e.pos == pos as u32,
    {
        Error { code, pos: #[verifier::truncate] (pos as u32) }
    }

    pub fn code_u16(&self) -> (n: u16)
        ensures
            n == code_number(self.code),
    {
        match self.code {
            Code::UnexpectedEof => 100,
            Code::BadMagic => 101,
            Code::BadThrift => 102,
            Code::BadVarint => 103,
            Code::NestingTooDeep => 104,
            Code::BadPageHeader => 105,
            Code::BadCompressedData => 106,
            Code::ChecksumMismatch => 107,
            Code::UnsupportedEncoding => 200,
            Code::UnsupportedCodec => 201,
            Code::UnsupportedType => 202,
            Code::UnsupportedNested => 203,
            Code::EncryptionUnsupported => 204,
            Code::SyntaxError => 300,
            Code::UnexpectedToken => 301,
            Code::UnterminatedString => 302,
            Code::NumberOverflow => 303,
            Code::ExpressionTooDeep => 304,
            Code::TableNotFound => 400,
            Code::ColumnNotFound => 401,
            Code::AmbiguousColumn => 402,
            Code::FunctionNotFound => 403,
            Code::TypeMismatch => 404,
            Code::InvalidCast => 405,
            Code::WrongArgCount => 406,
            Code::NotAggregate => 407,
            Code::NotGrouped => 408,
            Code::UnsupportedFeature => 409,
            Code::DuplicateTable => 410,
            Code::ColumnCountMismatch => 411,
            Code::ReadOnlyTable => 412,
            Code::DuplicateColumn => 413,
            Code::Oom => 500,
            Code::LimitExceeded => 501,
            Code::DivideByZero => 502,
            Code::ValueOutOfRange => 503,
            Code::IoFailed => 504,
            Code::RecursionLimitExceeded => 505,
            Code::MultipleRowsSubquery => 506,
            Code::Internal => 900,
        }
    }

    pub fn message(&self) -> (text: &'static str)
        ensures
            text@ == code_message(self.code),
    {
        match self.code {
            Code::UnexpectedEof => "unexpected end of input",
            Code::BadMagic => "not a parquet file (bad magic)",
            Code::BadThrift => "malformed thrift data",
            Code::BadVarint => "malformed varint",
            Code::NestingTooDeep => "nesting too deep",
            Code::BadPageHeader => "malformed page header",
            Code::BadCompressedData => "malformed compressed data",
            Code::ChecksumMismatch => "page checksum mismatch",
            Code::UnsupportedEncoding => "unsupported parquet encoding",
            Code::UnsupportedCodec => "unsupported compression codec",
            Code::UnsupportedType => "unsupported parquet type",
            Code::UnsupportedNested => "malformed or oversized nested parquet schema",
            Code::EncryptionUnsupported => "encrypted parquet files are not supported",
            Code::SyntaxError => "syntax error",
            Code::UnexpectedToken => "unexpected token",
            Code::UnterminatedString => "unterminated string literal",
            Code::NumberOverflow => "numeric literal out of range",
            Code::ExpressionTooDeep => "expression nesting too deep",
            Code::TableNotFound => "table not found",
            Code::ColumnNotFound => "column not found",
            Code::AmbiguousColumn => "ambiguous column reference",
            Code::FunctionNotFound => "function not found",
            Code::TypeMismatch => "type mismatch",
            Code::InvalidCast => "invalid cast",
            Code::WrongArgCount => "wrong number of arguments",
            Code::NotAggregate => "aggregate function required",
            Code::NotGrouped => "column must appear in GROUP BY",
            Code::UnsupportedFeature => "unsupported SQL feature",
            Code::DuplicateTable => "table already registered",
            Code::ColumnCountMismatch => "number of values does not match number of columns",
            Code::ReadOnlyTable => "table is read-only (not created by CREATE TABLE)",
            Code::DuplicateColumn => "column already exists",
            Code::Oom => "out of memory",
            Code::LimitExceeded => "resource limit exceeded",
            Code::DivideByZero => "division by zero",
            Code::ValueOutOfRange => "value out of range",
            Code::IoFailed => "io failed",
            Code::RecursionLimitExceeded => "recursive CTE exceeded the maximum number of iterations",
            Code::MultipleRowsSubquery => "scalar subquery returned more than one row",
            Code::Internal => "internal error",
        }
    }
}

/// The code of a failed result, `None` for a successful one.
pub fn code_of<T>(r: Result<T, Error>) -> (code: Option<Code>)
    ensures
        match r {
            Ok(_) => code is None,
            Err(e) => code == Some(e.code),
        },
{
    match r {
        Ok(_) => None,
        Err(e) => Some(e.code),
    }
}

/// No two codes share a number, so the number identifies the code.
pub proof fn code_numbers_are_distinct(a: Code, b: Code)
    ensures
        code_number(a) == code_number(b) ==> a == b,
{
}

/// The length of a text, its first character and its last one.
spec fn mark(t: Seq<char>) -> (nat, char, char) {
    (t.len(), t[0], t[t.len() - 1])
}

/// The mark of a code's message.
spec fn code_mark(c: Code) -> (nat, char, char) {
    match c {
        Code::UnexpectedEof => (23nat, 'u', 't'),
        Code::BadMagic => (30nat, 'n', ')'),
        Code::BadThrift => (21nat, 'm', 'a'),
        Code::BadVarint => (16nat, 'm', 't'),
        Code::NestingTooDeep => (16nat, 'n', 'p'),
        Code::BadPageHeader => (21nat, 'm', 'r'),
        Code::BadCompressedData => (25nat, 'm', 'a'),
        Code::ChecksumMismatch => (22nat, 'p', 'h'),
        Code::UnsupportedEncoding => (28nat, 'u', 'g'),
        Code::UnsupportedCodec => (29nat, 'u', 'c'),
        Code::UnsupportedType => (24nat, 'u', 'e'),
        Code::UnsupportedNested => (44nat, 'm', 'a'),
        Code::EncryptionUnsupported => (41nat, 'e', 'd'),
        Code::SyntaxError => (12nat, 's', 'r'),
        Code::UnexpectedToken => (16nat, 'u', 'n'),
        Code::UnterminatedString => (27nat, 'u', 'l'),
        Code::NumberOverflow => (28nat, 'n', 'e'),
        Code::ExpressionTooDeep => (27nat, 'e', 'p'),
        Code::TableNotFound => (15nat, 't', 'd'),
        Code::ColumnNotFound => (16nat, 'c', 'd'),
        Code::AmbiguousColumn => (26nat, 'a', 'e'),
        Code::FunctionNotFound => (18nat, 'f', 'd'),
        Code::TypeMismatch => (13nat, 't', 'h'),
        Code::InvalidCast => (12nat, 'i', 't'),
        Code::WrongArgCount => (25nat, 'w', 's'),
        Code::NotAggregate => (27nat, 'a', 'd'),
        Code::NotGrouped => (30nat, 'c', 'Y'),
        Code::UnsupportedFeature => (23nat, 'u', 'e'),
        Code::DuplicateTable => (24nat, 't', 'd'),
        Code::ColumnCountMismatch => (49nat, 'n', 's'),
        Code::ReadOnlyTable => (48nat, 't', ')'),
        Code::DuplicateColumn => (21nat, 'c', 's'),
        Code::Oom => (13nat, 'o', 'y'),
        Code::LimitExceeded => (23nat, 'r', 'd'),
        Code::DivideByZero => (16nat, 'd', 'o'),
        Code::ValueOutOfRange => (18nat, 'v', 'e'),
        Code::IoFailed => (9nat, 'i', 'd'),
        Code::RecursionLimitExceeded => (55nat, 'r', 's'),
        Code::MultipleRowsSubquery => (42nat, 's', 'w'),
        Code::Internal => (14nat, 'i', 'r'),
    }
}

proof fn lemma_mark(c: Code)
    ensures
        mark(code_message(c)) == code_mark(c),
{
    match c {
        Code::UnexpectedEof => {
            reveal_strlit("unexpected end of input");
        },
        Code::BadMagic => {
            reveal_strlit("not a parquet file (bad magic)");
        },
        Code::BadThrift => {
            reveal_strlit("malformed thrift data");
        },
        Code::BadVarint => {
            reveal_strlit("malformed varint");
        },
        Code::NestingTooDeep => {
            reveal_strlit("nesting too deep");
        },
        Code::BadPageHeader => {
            reveal_strlit("malformed page header");
        },
        Code::BadCompressedData => {
            reveal_strlit("malformed compressed data");
        },
        Code::ChecksumMismatch => {
            reveal_strlit("page checksum mismatch");
        },
        Code::UnsupportedEncoding => {
            reveal_strlit("unsupported parquet encoding");
        },
        Code::UnsupportedCodec => {
            reveal_strlit("unsupported compression codec");
        },
        Code::UnsupportedType => {
            reveal_strlit("unsupported parquet type");
        },
        Code::UnsupportedNested => {
            reveal_strlit("malformed or oversized nested parquet schema");
        },
        Code::EncryptionUnsupported => {
            reveal_strlit("encrypted parquet files are not supported");
        },
        Code::SyntaxError => {
            reveal_strlit("syntax error");
        },
        Code::UnexpectedToken => {
            reveal_strlit("unexpected token");
        },
        Code::UnterminatedString => {
            reveal_strlit("unterminated string literal");
        },
        Code::NumberOverflow => {
            reveal_strlit("numeric literal out of range");
        },
        Code::ExpressionTooDeep => {
            reveal_strlit("expression nesting too deep");
        },
        Code::TableNotFound => {
            reveal_strlit("table not found");
        },
        Code::ColumnNotFound => {
            reveal_strlit("column not found");
        },
        Code::AmbiguousColumn => {
            reveal_strlit("ambiguous column reference");
        },
        Code::FunctionNotFound => {
            reveal_strlit("function not found");
        },
        Code::TypeMismatch => {
            reveal_strlit("type mismatch");
        },
        Code::InvalidCast => {
            reveal_strlit("invalid cast");
        },
        Code::WrongArgCount => {
            reveal_strlit("wrong number of arguments");
        },
        Code::NotAggregate => {
            reveal_strlit("aggregate function required");
        },
        Code::NotGrouped => {
            reveal_strlit("column must appear in GROUP BY");
        },
        Code::UnsupportedFeature => {
            reveal_strlit("unsupported SQL feature");
        },
        Code::DuplicateTable => {
            reveal_strlit("table already registered");
        },
        Code::ColumnCountMismatch => {
            reveal_strlit("number of values does not match number of columns");
        },
        Code::ReadOnlyTable => {
            reveal_strlit("table is read-only (not created by CREATE TABLE)");
        },
        Code::DuplicateColumn => {
            reveal_strlit("column already exists");
        },
        Code::Oom => {
            reveal_strlit("out of memory");
        },
        Code::LimitExceeded => {
            reveal_strlit("resource limit exceeded");
        },
        Code::DivideByZero => {
            reveal_strlit("division by zero");
        },
        Code::ValueOutOfRange => {
            reveal_strlit("value out of range");
        },
        Code::IoFailed => {
            reveal_strlit("io failed");
        },
        Code::RecursionLimitExceeded => {
            reveal_strlit("recursive CTE exceeded the maximum number of iterations");
        },
        Code::MultipleRowsSubquery => {
            reveal_strlit("scalar subquery returned more than one row");
        },
        Code::Internal => {
            reveal_strlit("internal error");
        },
    }
}

/// No two codes share a message.
pub proof fn code_messages_are_distinct(a: Code, b: Code)
    ensures
        code_message(a) == code_message(b) ==> a == b,
{
    lemma_mark(a);
    lemma_mark(b);
}

} // verus!
