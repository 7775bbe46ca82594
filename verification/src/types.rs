//! Types shared by every codec of the crate.

use vstd::prelude::*;

verus! {

/// The codecs on offer.
#[derive(Debug, Clone, Copy, PartialEq, Eq)]
pub enum Codes {
    Huffman,
}

/// Why a stream could not be produced or read back.
#[derive(Debug, Clone, Copy, PartialEq, Eq)]
pub enum CodecError {
    /// There is no symbol to build a code tree from.
    EmptyInput,
    /// The serialized frequency table is cut short, declares more than the
    /// stream holds, or does not hold valid symbol data.
    CorruptFormat,
    /// The packed bits do not end on a symbol, or the pad length does not fit
    /// the payload.
    TruncatedOrInvalidStream,
    /// A symbol of the text has no entry in the dictionary.
    UnknownSymbol,
    /// The input is beyond what the format or this machine can hold.
    InputTooLarge,
}

impl CodecError {
    /// What went wrong, in words.
    pub fn message(&self) -> (text: &'static str)
        ensures
            text@ == match self {
                CodecError::EmptyInput => "cannot build a tree with no symbols"@,
                CodecError::CorruptFormat => "corrupt frequency table"@,
                CodecError::TruncatedOrInvalidStream => "invalid code or truncated stream"@,
                CodecError::UnknownSymbol => "symbol without a code"@,
                CodecError::InputTooLarge => "input too large"@,
            },
    {
        match self {
            CodecError::EmptyInput => "cannot build a tree with no symbols",
            CodecError::CorruptFormat => "corrupt frequency table",
            CodecError::TruncatedOrInvalidStream => "invalid code or truncated stream",
            CodecError::UnknownSymbol => "symbol without a code",
            CodecError::InputTooLarge => "input too large",
        }
    }
}

/// A codec from one byte stream to another.
pub trait Coder {
    /// Reads all of `reader` and appends its encoding to `writer`.
    fn encode(reader: &[u8], writer: &mut Vec<u8>) -> Result<usize, CodecError>;

    /// Reads all of `reader` and appends what it decodes to `writer`.
    fn decode(reader: &[u8], writer: &mut Vec<u8>) -> Result<usize, CodecError>;
}

/// A value with a byte format of its own.
pub trait Serializable: Sized {
    /// Appends the value's bytes to `writer` and returns how many there were.
    fn serialize(&self, writer: &mut Vec<u8>) -> (written: Result<usize, CodecError>)
        ensures
            written matches Ok(n) ==> final(writer)@.len() == old(writer)@.len() + n
                && final(writer)@.subrange(0, old(writer)@.len() as int) == old(writer)@,
            written is Err ==> final(writer)@ == old(writer)@,
    ;

    /// Reads a value from the front of `reader` and returns it with the number
    /// of bytes it took.
    fn deserialize(reader: &[u8]) -> (read: Result<(Self, usize), CodecError>)
        ensures
            read matches Ok((_, used)) ==> used <= reader@.len(),
    ;
}

} // verus!
