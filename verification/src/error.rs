//! The single error type of the decoder.

use vstd::prelude::*;

verus! {

/// Why a read gave no bytes. Every variant but the last two is a defect of the input; the
/// variants only tell the defects apart.
#[derive(Clone, Copy, Debug, PartialEq, Eq, Structural)]
pub enum Error {
    /// The byte source ended inside a header or a trailer.
    UnexpectedEof,
    /// The byte source ended while more bits were needed.
    UnexpectedEofInBits,
    /// The byte source ended inside the payload of a stored block.
    UnexpectedEofInBlock,
    /// No code of a prefix-code table matches the bits read.
    BadHuffmanData,
    /// A code length outside `1..=15` was given to a prefix-code table.
    InvalidCodeLength,
    /// A "repeat previous length" command came before any length.
    NoPreviousLength,
    /// A repeat command runs past the announced number of code lengths.
    TooManyCodeLengths,
    /// A length symbol beyond the 29 defined ones was decoded.
    InvalidLengthCode,
    /// A distance symbol beyond the 30 defined ones was decoded.
    InvalidDistanceCode,
    /// A back-reference points before the first byte of the output.
    DistanceTooFar,
    /// The block header names the reserved block type.
    ReservedBlockType,
    /// In a stored block, `NLEN` is not the complement of `LEN`.
    LengthMismatch,
    /// The zlib header names a compression method other than deflate.
    UnsupportedMethod,
    /// The zlib header names a window size other than 32 KiB.
    UnsupportedWindow,
    /// The two bytes of the zlib header are not a multiple of 31.
    HeaderChecksum,
    /// The Adler-32 trailer differs from the checksum of the decoded bytes.
    ChecksumMismatch,
    /// An earlier read failed; the decoder cannot be used any more.
    Poisoned,
    /// The data that has arrived so far ends too early for the decoder to go on, and more
    /// is to come. This is no failure: the decoder goes on once it was fed.
    NeedInput,
}

impl Error {
    /// The text of [`Error::message`], as a sequence of characters.
    pub open spec fn message_text(self) -> Seq<char> {
        match self {
            Error::UnexpectedEof => "Unexpected EOF"@,
            Error::UnexpectedEofInBits => "Unexpected EOF in bits stream"@,
            Error::UnexpectedEofInBlock => "Unexpected EOF inside uncompressed block"@,
            Error::BadHuffmanData => "Bad huffman data"@,
            Error::InvalidCodeLength => "Code length outside 1..=15"@,
            Error::NoPreviousLength => "Can't repeat the previous code length as there is none"@,
            Error::TooManyCodeLengths => "Too many code lengths"@,
            Error::InvalidLengthCode => "Invalid length code"@,
            Error::InvalidDistanceCode => "Invalid distance code"@,
            Error::DistanceTooFar => "Distance exceeds the data decoded so far"@,
            Error::ReservedBlockType => "Reserved block type 0b11"@,
            Error::LengthMismatch => "Failed to match nlen and len"@,
            Error::UnsupportedMethod => "Unsupported zlib compression method"@,
            Error::UnsupportedWindow => "Unsupported value for CInfo in zlib header"@,
            Error::HeaderChecksum => "Wrong value for zlib header checksum"@,
            Error::ChecksumMismatch => "Checksum mismatch"@,
            Error::Poisoned => "I/O errors in the inflater are unrecoverable"@,
            Error::NeedInput => "More input is needed"@,
        }
    }

    /// The error says that the data ended too early.
    pub open spec fn is_end_of_data(self) -> bool {
        self == Error::UnexpectedEof || self == Error::UnexpectedEofInBits || self
            == Error::UnexpectedEofInBlock
    }

    /// The error names a defect of the data: it is neither the request for more input nor
    /// the answer of a decoder that has failed before.
    pub open spec fn is_data_error(self) -> bool {
        self != Error::NeedInput && self != Error::Poisoned
    }

    /// Whether the error says that the data ended too early.
    pub fn ends_early(&self) -> (b: bool)
        ensures
            b == self.is_end_of_data(),
    {
        match self {
            Error::UnexpectedEof => true,
            Error::UnexpectedEofInBits => true,
            Error::UnexpectedEofInBlock => true,
            _ => false,
        }
    }

    /// A short description of the error.
    pub fn message(&self) -> (text: &'static str)
        ensures
            text@ == self.message_text(),
    {
        match self {
            Error::UnexpectedEof => "Unexpected EOF",
            Error::UnexpectedEofInBits => "Unexpected EOF in bits stream",
            Error::UnexpectedEofInBlock => "Unexpected EOF inside uncompressed block",
            Error::BadHuffmanData => "Bad huffman data",
            Error::InvalidCodeLength => "Code length outside 1..=15",
            Error::NoPreviousLength => "Can't repeat the previous code length as there is none",
            Error::TooManyCodeLengths => "Too many code lengths",
            Error::InvalidLengthCode => "Invalid length code",
            Error::InvalidDistanceCode => "Invalid distance code",
            Error::DistanceTooFar => "Distance exceeds the data decoded so far",
            Error::ReservedBlockType => "Reserved block type 0b11",
            Error::LengthMismatch => "Failed to match nlen and len",
            Error::UnsupportedMethod => "Unsupported zlib compression method",
            Error::UnsupportedWindow => "Unsupported value for CInfo in zlib header",
            Error::HeaderChecksum => "Wrong value for zlib header checksum",
            Error::ChecksumMismatch => "Checksum mismatch",
            Error::Poisoned => "I/O errors in the inflater are unrecoverable",
            Error::NeedInput => "More input is needed",
        }
    }
}

} // verus!
