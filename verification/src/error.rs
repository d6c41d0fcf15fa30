//! The ways in which decoding a byte buffer can fail.

use vstd::prelude::*;

verus! {

/// Why a buffer could not be decoded, as a wire message or as a snapshot.
#[derive(Debug, Clone, Copy, PartialEq, Eq, Structural)]
pub enum DecodeError {
    /// A read would have gone past the end of the buffer.
    Truncated,
    /// The snapshot does not begin with the magic constant.
    BadMagic,
    /// A byte stands where the format allows none of its kind.
    Corrupt,
    /// A value record with a type tag other than the plain string's.
    UnsupportedValueType(u8),
    /// A string stored in compressed form.
    UnsupportedCompression,
    /// A snapshot whose trailing checksum is set and would have to be validated.
    UnsupportedChecksum,
    /// A line that is not a number of the kind its marker announces.
    MalformedNumber,
    /// No line feed before the end of the buffer.
    UnterminatedLine,
    /// A line feed, or a bulk payload, that no carriage return precedes as it must.
    BadTerminator,
    /// Text that is not UTF-8.
    InvalidUtf8,
}

impl DecodeError {
    /// A short description, fit for an error reply.
    pub fn message(&self) -> (text: &'static str)
        ensures
            text@ == self.message_text(),
    {
        match self {
            DecodeError::Truncated => "input ends before the value does",
            DecodeError::BadMagic => "not a snapshot: bad magic",
            DecodeError::Corrupt => "corrupt input",
            DecodeError::UnsupportedValueType(_) => "unsupported value type",
            DecodeError::UnsupportedCompression => "compressed strings are not supported",
            DecodeError::UnsupportedChecksum => "checksum validation is not supported",
            DecodeError::MalformedNumber => "malformed number",
            DecodeError::UnterminatedLine => "line not terminated",
            DecodeError::BadTerminator => "bad terminator",
            DecodeError::InvalidUtf8 => "invalid UTF-8",
        }
    }

    /// The description that `message` returns.
    pub open spec fn message_text(&self) -> Seq<char> {
        match self {
            DecodeError::Truncated => "input ends before the value does"@,
            DecodeError::BadMagic => "not a snapshot: bad magic"@,
            DecodeError::Corrupt => "corrupt input"@,
            DecodeError::UnsupportedValueType(_) => "unsupported value type"@,
            DecodeError::UnsupportedCompression => "compressed strings are not supported"@,
            DecodeError::UnsupportedChecksum => "checksum validation is not supported"@,
            DecodeError::MalformedNumber => "malformed number"@,
            DecodeError::UnterminatedLine => "line not terminated"@,
            DecodeError::BadTerminator => "bad terminator"@,
            DecodeError::InvalidUtf8 => "invalid UTF-8"@,
        }
    }
}

} // verus!
