use vstd::prelude::*;

verus! {

/// Why a stream stopped making sense as a sequence of WARC records.
///
/// There is no way to find the start of the next record after one of these,
/// so the stream is abandoned at the first of them.
#[derive(Clone, Copy, Debug, PartialEq, Eq, Structural)]
pub enum FramingError {
    /// A line of at most two bytes, or the end of the stream, came before the
    /// header line that was looked for.
    MissingHeader,
    /// A header line holds no space or does not end in CR LF.
    MalformedHeader,
    /// The value of the content length header is not a decimal number that
    /// fits the machine's word.
    InvalidContentLength,
    /// The stream ended before the declared number of body bytes.
    TruncatedBody,
}

} // verus!
