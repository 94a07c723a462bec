use vstd::prelude::*;

verus! {

/// What went wrong while writing or reading a layer.
#[derive(Clone, Copy, PartialEq, Eq, Structural, Debug, Hash)]
pub enum Error {
    /// A track of more than 0xFFFF rows.
    TooManyRows,
    /// A dictionary of more than 0xFFFF entries.
    DictTooLarge,
    /// More than 256 tracks in a block.
    TooManyTracks,
    /// More than 256 blocks in a layer.
    TooManyBlocks,
    /// More than 256 chunks in a track.
    TooManyChunks,
    /// The file does not start with the layer magic.
    BadMagic,
    /// The layer was written by a later version of the format.
    FutureVersion,
    /// A footer declares a negative length.
    NegativeFooterLen,
    /// A footer's length reaches before the start of the content.
    FooterSeekUnderflow,
    /// A negative count or offset.
    NegativeCount,
    /// A count above its limit.
    CountTooLarge,
    /// A block or track number past the end of its parent.
    OutOfRange,
    /// The content ends before a field does.
    UnexpectedEof,
    /// Two arrays that must be of one length are not.
    LengthMismatch,
    /// A message claims another source than the peer it came from.
    MismatchedSource,
    /// A second response to one request.
    DuplicateResponse,
    /// A completed request is filed under another sequence number.
    UnexpectedSequence,
    /// A completed request is itself a response.
    RequestIsResponse,
    /// A response carries another sequence number than its request.
    MismatchedSequence,
    /// A response is not marked as one.
    ResponseNotResponse,
    /// A request is marked complete without a response.
    MissingResponse,
    /// A request is marked complete but is not pending.
    MissingRequest,
}

impl Error {
    /// A short description of the error.
    pub fn message(&self) -> (r: &'static str) {
        match self {
            Error::TooManyRows => "track longer than 64k rows",
            Error::DictTooLarge => "dictionary larger than 64k entries",
            Error::TooManyTracks => "track count > 255",
            Error::TooManyBlocks => "block count > 255",
            Error::TooManyChunks => "chunk count > 255",
            Error::BadMagic => "bad magic number",
            Error::FutureVersion => "unsupported future version number",
            Error::NegativeFooterLen => "negative footer len",
            Error::FooterSeekUnderflow => "footer seek underflow",
            Error::NegativeCount => "negative count or offset",
            Error::CountTooLarge => "count too large",
            Error::OutOfRange => "number out of range",
            Error::UnexpectedEof => "unexpected end of content",
            Error::LengthMismatch => "length mismatch",
            Error::MismatchedSource => "Mismatched source",
            Error::DuplicateResponse => "Duplicate response",
            Error::UnexpectedSequence => "Unexpected sequence",
            Error::RequestIsResponse => "Request is a response",
            Error::MismatchedSequence => "Mismatched sequence",
            Error::ResponseNotResponse => "Response is not a response",
            Error::MissingResponse => "Missing response in complete request",
            Error::MissingRequest => "Missing request",
        }
    }
}

} // verus!
