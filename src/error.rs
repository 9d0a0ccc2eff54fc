use vstd::prelude::*;

verus! {

/// What went wrong, one variant per distinguishable failure.
#[derive(Clone, Copy, Debug, PartialEq, Eq, Structural)]
pub enum ErrorKind {
    /// A string literal reached the end of the input.
    UnterminatedString,
    /// An object reached the end of the input.
    UnterminatedObject,
    /// An array reached the end of the input.
    UnterminatedArray,
    /// An object key does not start with a double quote.
    InvalidKeyStart,
    /// An object key is not followed by a colon.
    ExpectedColon,
    /// An object member is followed by neither a comma nor a closing brace.
    InvalidObjectEnd,
    /// A number holds a second decimal point.
    DoubleDecimalPoint,
    /// A backslash escape outside the escape table.
    UnknownEscape,
    /// A character that cannot start a value, or no value where one is due.
    InvalidValue,
    /// A value starting with `n` that is not `null`.
    InvalidNull,
    /// Text after the top-level value.
    TrailingCharacters,
    /// An integer literal that does not fit in an `i64`.
    IntegerOverflow,
    /// A `%` not followed by two hex digits.
    InvalidPercentEscape,
    /// Bytes that are not valid UTF-8.
    InvalidUtf8,
    /// Bracket notation asks for an object where another kind of value stands.
    ExpectedObject,
    /// Bracket notation asks for an array where another kind of value stands.
    ExpectedArray,
    /// A header line without a colon.
    InvalidHeader,
    /// A status code that is not a number.
    InvalidStatusCode,
    /// A status code outside the supported set.
    UnknownStatusCode,
    /// A body is expected but no `content-length` header was sent.
    MissingContentLength,
    /// The `content-length` header is not a number.
    InvalidContentLength,
    /// The peer closed the connection before the message was complete.
    ConnectionClosed,
    /// A chunk arrived after the message was complete.
    AlreadyFinished,
    /// An empty chunk arrived while the body is being read.
    NoProgress,
    /// The message was asked for before it was complete.
    NotFinished,
    /// A key operation on a value that is not an object.
    NotObject,
    /// An index operation on a value that is not an array, or out of range.
    NotArray,
    /// A request names a method or a path that no route serves.
    RouteNotFound,
    /// An address that starts with neither `http://` nor `https://`.
    UnsupportedProtocol,
    /// A body could not be compressed for sending.
    CompressionFailed,
}

/// The four families of failure.
#[derive(Clone, Copy, Debug, PartialEq, Eq, Structural)]
pub enum ErrorCategory {
    Parse,
    Framing,
    Decode,
    ContractViolation,
}

pub open spec fn category_of(k: ErrorKind) -> ErrorCategory {
    match k {
        ErrorKind::InvalidPercentEscape | ErrorKind::InvalidUtf8 => ErrorCategory::Decode,
        ErrorKind::MissingContentLength | ErrorKind::InvalidContentLength
        | ErrorKind::ConnectionClosed | ErrorKind::AlreadyFinished | ErrorKind::NoProgress
        | ErrorKind::NotFinished | ErrorKind::CompressionFailed => ErrorCategory::Framing,
        ErrorKind::NotObject | ErrorKind::NotArray => ErrorCategory::ContractViolation,
        _ => ErrorCategory::Parse,
    }
}

/// The error value of every fallible operation of this crate.
#[derive(Clone, Copy, Debug, PartialEq, Eq, Structural)]
pub struct BacktraceError {
    pub kind: ErrorKind,
}

impl BacktraceError {
    pub fn new(kind: ErrorKind) -> (r: Self)
        ensures
            r.kind == kind,
    {
        BacktraceError { kind }
    }

    pub fn kind(&self) -> (r: ErrorKind)
        ensures
            r == self.kind,
    {
        self.kind
    }

    pub fn category(&self) -> (r: ErrorCategory)
        ensures
            r == category_of(self.kind),
    {
        match self.kind {
            ErrorKind::InvalidPercentEscape | ErrorKind::InvalidUtf8 => ErrorCategory::Decode,
            ErrorKind::MissingContentLength | ErrorKind::InvalidContentLength
            | ErrorKind::ConnectionClosed | ErrorKind::AlreadyFinished | ErrorKind::NoProgress
            | ErrorKind::NotFinished | ErrorKind::CompressionFailed => ErrorCategory::Framing,
            ErrorKind::NotObject | ErrorKind::NotArray => ErrorCategory::ContractViolation,
            _ => ErrorCategory::Parse,
        }
    }

    /// True where the peer closed the connection: an ordinary disconnect.
    pub fn is_connection_closed(&self) -> (r: bool)
        ensures
            r == (self.kind == ErrorKind::ConnectionClosed),
    {
        self.kind == ErrorKind::ConnectionClosed
    }
}

} // verus!
