use crate::bytes::starts_with;
use crate::error::FramingError;
use vstd::prelude::*;
use vstd::slice::slice_subrange;

verus! {

/// The line feed that ends every line.
pub const LF: u8 = 0x0a;

/// Where the line that starts at `start` ends: just past the first line feed
/// at or after `start`, or at the end of `input` when there is none.
pub open spec fn line_end(input: Seq<u8>, start: int) -> int
    decreases input.len() - start,
{
    if start < 0 || start >= input.len() {
        input.len() as int
    } else if input[start] == LF {
        start + 1
    } else {
        line_end(input, start + 1)
    }
}

/// Whether the line from `start` to `end` is closed by its line feed, so that
/// bytes arriving later cannot belong to it.
pub open spec fn is_terminated(input: Seq<u8>, start: int, end: int) -> bool {
    0 <= start < end <= input.len() && input[end - 1] == LF
}

/// What a search for a header line finds, from `start` on.
///
/// Lines are taken one after another. One that begins with `header` is
/// the answer, given with the position that follows it. A line of at most two
/// bytes before that (a bare line end, or nothing at the end of the stream) is
/// an error. `Ok(None)` says that the buffered input ends inside a line while
/// the stream goes on: nothing can be decided yet.
pub open spec fn spec_read_until_header(
    input: Seq<u8>,
    start: int,
    header: Seq<u8>,
    at_eof: bool,
) -> Result<Option<(Seq<u8>, int)>, FramingError>
    recommends
        0 <= start <= input.len(),
    decreases input.len() - start,
    via read_until_header_terminates
{
    let end = line_end(input, start);
    if !at_eof && !is_terminated(input, start, end) {
        Ok(None)
    } else if end - start <= 2 {
        Err(FramingError::MissingHeader)
    } else if header.is_prefix_of(input.subrange(start, end)) {
        Ok(Some((input.subrange(start, end), end)))
    } else {
        spec_read_until_header(input, end, header, at_eof)
    }
}

#[via_fn]
proof fn read_until_header_terminates(input: Seq<u8>, start: int, header: Seq<u8>, at_eof: bool) {
    if 0 <= start <= input.len() {
        lemma_line_end(input, start);
    }
}

/// The line end lies between `start` and the end of the input, no line feed
/// stands before its last byte, and it is where the first line feed is.
pub proof fn lemma_line_end(input: Seq<u8>, start: int)
    requires
        0 <= start <= input.len(),
    ensures
        start <= line_end(input, start) <= input.len(),
        forall|k: int| start <= k < line_end(input, start) - 1 ==> input[k] != LF,
        line_end(input, start) < input.len() ==> is_terminated(
            input,
            start,
            line_end(input, start),
        ),
        line_end(input, start) == start <==> start == input.len(),
    decreases input.len() - start,
{
    if start < input.len() && input[start] != LF {
        lemma_line_end(input, start + 1);
    }
}

/// Whether the line from `start` to `end` is closed by its line feed.
pub fn line_is_terminated(input: &[u8], start: usize, end: usize) -> (yes: bool)
    ensures
        yes == is_terminated(input@, start as int, end as int),
{
    start < end && end <= input.len() && input[end - 1] == LF
}

/// Finds the end of the line that starts at `start`.
pub fn find_line_end(input: &[u8], start: usize) -> (end: usize)
    ensures
        end == line_end(input@, start as int),
        end <= input@.len(),
        start <= input@.len() ==> start <= end,
{
    proof {
        if start <= input@.len() {
            lemma_line_end(input@, start as int);
        }
    }
    let mut i: usize = start;
    while i < input.len() && input[i] != LF
        invariant
            line_end(input@, start as int) == line_end(input@, i as int),
        decreases input@.len() - i,
    {
        i = i + 1;
    }
    if i < input.len() {
        i + 1
    } else {
        input.len()
    }
}

/// Reads lines from `start` on until one begins with `header`, and returns
/// that line, line end included, with the position that follows it.
///
/// `at_eof` says whether `input` holds the stream to its end. While it does
/// not, a line that the input cuts short is not judged: the answer is
/// `Ok(None)`, and the call is to be made again with more input.
pub fn read_until_header<'a>(input: &'a [u8], start: usize, header: &[u8], at_eof: bool) -> (found:
    Result<Option<(&'a [u8], usize)>, FramingError>)
    ensures
        match spec_read_until_header(input@, start as int, header@, at_eof) {
            Ok(Some((line, next))) => found matches Ok(Some((l, n))) && l@ == line && n == next,
            Ok(None) => found matches Ok(None),
            Err(e) => found == Err::<Option<(&[u8], usize)>, FramingError>(e),
        },
{
    let mut pos: usize = start;
    loop
        invariant
            spec_read_until_header(input@, start as int, header@, at_eof)
                == spec_read_until_header(input@, pos as int, header@, at_eof),
        decreases input@.len() - pos,
    {
        let end = find_line_end(input, pos);
        if !at_eof && !line_is_terminated(input, pos, end) {
            return Ok(None);
        }
        if end <= pos || end - pos <= 2 {
            return Err(FramingError::MissingHeader);
        }
        let line = slice_subrange(input, pos, end);
        if starts_with(line, header) {
            return Ok(Some((line, end)));
        }
        pos = end;
    }
}

/// A header line that is found lies behind `start` and within the input, is
/// longer than two bytes and begins with the header. At the end of the stream
/// the search always comes to an answer, and the only error is a missing
/// header.
pub proof fn lemma_read_until_header_found(
    input: Seq<u8>,
    start: int,
    header: Seq<u8>,
    at_eof: bool,
)
    requires
        0 <= start <= input.len(),
    ensures
        match spec_read_until_header(input, start, header, at_eof) {
            Ok(Some((line, next))) => {
                &&& line.len() > 2
                &&& start <= next - line.len()
                &&& next <= input.len()
                &&& line == input.subrange(next - line.len(), next)
                &&& header.is_prefix_of(line)
                &&& next == line_end(input, next - line.len())
            },
            Ok(None) => !at_eof,
            Err(e) => e == FramingError::MissingHeader,
        },
    decreases input.len() - start,
{
    lemma_line_end(input, start);
    let end = line_end(input, start);
    if !at_eof && !is_terminated(input, start, end) {
    } else if end - start <= 2 {
    } else if header.is_prefix_of(input.subrange(start, end)) {
    } else {
        lemma_read_until_header_found(input, end, header, at_eof);
    }
}

/// Bytes that arrive behind a closed line do not move its end.
pub proof fn lemma_line_end_stable(input: Seq<u8>, more: Seq<u8>, start: int)
    requires
        0 <= start <= input.len(),
        is_terminated(input, start, line_end(input, start)),
    ensures
        line_end(input + more, start) == line_end(input, start),
    decreases input.len() - start,
{
    lemma_line_end(input, start);
    assert((input + more)[start] == input[start]);
    if input[start] != LF {
        lemma_line_end_stable(input, more, start + 1);
    }
}

/// Once a search for a header has come to an answer before the end of the
/// stream, the answer stays, whatever arrives later and whether or not the
/// stream ends there.
pub proof fn lemma_read_until_header_stable(
    input: Seq<u8>,
    more: Seq<u8>,
    start: int,
    header: Seq<u8>,
    at_eof: bool,
)
    requires
        0 <= start <= input.len(),
        !(spec_read_until_header(input, start, header, false) matches Ok(None)),
    ensures
        spec_read_until_header(input + more, start, header, at_eof) == spec_read_until_header(
            input,
            start,
            header,
            false,
        ),
    decreases input.len() - start,
{
    lemma_line_end(input, start);
    let end = line_end(input, start);
    lemma_line_end_stable(input, more, start);
    assert((input + more)[end - 1] == input[end - 1]);
    assert((input + more).subrange(start, end) =~= input.subrange(start, end));
    if end - start > 2 && !header.is_prefix_of(input.subrange(start, end)) {
        lemma_read_until_header_stable(input, more, end, header, at_eof);
    }
}

} // verus!
