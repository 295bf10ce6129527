use crate::bytes::same_bytes;
use crate::error::FramingError;
use crate::header::{header_value, parse_content_length, spec_content_length, spec_header_value};
use crate::lines::{
    find_line_end, is_terminated, lemma_line_end, lemma_line_end_stable,
    lemma_read_until_header_found, lemma_read_until_header_stable, line_end, line_is_terminated,
    read_until_header, spec_read_until_header,
};
use vstd::prelude::*;
use vstd::slice::slice_subrange;

verus! {

/// `WARC-Type: `, which begins the header line that names a record's type.
pub const TYPE_HEADER: [u8; 11] = [0x57, 0x41, 0x52, 0x43, 0x2d, 0x54, 0x79, 0x70, 0x65, 0x3a, 0x20];

/// `Content-Length: `, which begins the header line that gives the number of
/// bytes of a record's body.
pub const LENGTH_HEADER: [u8; 16] = [
    0x43, 0x6f, 0x6e, 0x74, 0x65, 0x6e, 0x74, 0x2d, 0x4c, 0x65, 0x6e, 0x67, 0x74, 0x68, 0x3a, 0x20,
];

/// `metadata`, the type of the records whose bodies are kept.
pub const METADATA: [u8; 8] = [0x6d, 0x65, 0x74, 0x61, 0x64, 0x61, 0x74, 0x61];

/// One record of the stream: the value of its type header and its body.
/// Both are borrowed from the input that the record was read from.
#[derive(Clone, Copy, Debug)]
pub struct Record<'a> {
    pub record_type: &'a [u8],
    pub body: &'a [u8],
}

/// A record as mathematics sees it.
pub struct RecordView {
    pub record_type: Seq<u8>,
    pub body: Seq<u8>,
}

impl RecordView {
    /// Whether the record's type is `metadata`.
    pub open spec fn is_metadata(self) -> bool {
        self.record_type == METADATA@
    }
}

impl<'a> View for Record<'a> {
    type V = RecordView;

    open spec fn view(&self) -> RecordView {
        RecordView { record_type: self.record_type@, body: self.body@ }
    }
}

impl<'a> Record<'a> {
    /// Whether the record's type is `metadata`, so that its body is handed on.
    pub fn is_metadata(&self) -> (yes: bool)
        ensures
            yes == self@.is_metadata(),
    {
        same_bytes(self.record_type, METADATA.as_slice())
    }
}

/// What the headers at the start of `input` say: the record's type, the
/// length of its body, and the position behind the content length line.
///
/// The type header is looked for first and its value taken; then, from the
/// line behind it, the content length header, whose value must be a number.
pub open spec fn spec_read_headers(input: Seq<u8>, at_eof: bool) -> Result<
    Option<(Seq<u8>, nat, int)>,
    FramingError,
> {
    match spec_read_until_header(input, 0, TYPE_HEADER@, at_eof) {
        Err(e) => Err(e),
        Ok(None) => Ok(None),
        Ok(Some((type_line, after_type))) => match spec_header_value(type_line) {
            Err(e) => Err(e),
            Ok(record_type) => match spec_read_until_header(
                input,
                after_type,
                LENGTH_HEADER@,
                at_eof,
            ) {
                Err(e) => Err(e),
                Ok(None) => Ok(None),
                Ok(Some((length_line, after_length))) => match spec_header_value(length_line) {
                    Err(e) => Err(e),
                    Ok(text) => match spec_content_length(text) {
                        None => Err(FramingError::InvalidContentLength),
                        Some(length) => Ok(Some((record_type, length, after_length))),
                    },
                },
            },
        },
    }
}

/// The body that follows the headers, and the position behind the record.
///
/// The rest of the line at `start` is passed over. The next `length` bytes
/// are the body, whatever they hold. Two more lines are passed over behind
/// it. At the end of the stream a body cut short is an error, while the two
/// lines may be short or missing.
pub open spec fn spec_read_body(input: Seq<u8>, start: int, length: nat, at_eof: bool) -> Result<
    Option<(Seq<u8>, int)>,
    FramingError,
> {
    let body_start = line_end(input, start);
    let body_end = body_start + length;
    let first = line_end(input, body_end);
    let second = line_end(input, first);
    if !at_eof && !is_terminated(input, start, body_start) {
        Ok(None)
    } else if body_end > input.len() {
        if at_eof {
            Err(FramingError::TruncatedBody)
        } else {
            Ok(None)
        }
    } else if !at_eof && !(is_terminated(input, body_end, first) && is_terminated(
        input,
        first,
        second,
    )) {
        Ok(None)
    } else {
        Ok(Some((input.subrange(body_start, body_end), second)))
    }
}

/// The first record of `input`, with the number of bytes that it takes up.
///
/// `Ok(None)` means that there is no record to give: at the end of the stream
/// because nothing is left of it, before the end because the record is not
/// whole yet.
pub open spec fn spec_next_record(input: Seq<u8>, at_eof: bool) -> Result<
    Option<(RecordView, int)>,
    FramingError,
> {
    if input.len() == 0 {
        Ok(None)
    } else {
        match spec_read_headers(input, at_eof) {
            Err(e) => Err(e),
            Ok(None) => Ok(None),
            Ok(Some((record_type, length, after_headers))) => match spec_read_body(
                input,
                after_headers,
                length,
                at_eof,
            ) {
                Err(e) => Err(e),
                Ok(None) => Ok(None),
                Ok(Some((body, consumed))) => Ok(
                    Some((RecordView { record_type, body }, consumed)),
                ),
            },
        }
    }
}

/// Reads the two headers that a record is known by.
pub fn read_headers<'a>(input: &'a [u8], at_eof: bool) -> (headers: Result<
    Option<(&'a [u8], usize, usize)>,
    FramingError,
>)
    ensures
        match spec_read_headers(input@, at_eof) {
            Ok(Some((record_type, length, next))) => headers matches Ok(Some((t, l, n))) && t@
                == record_type && l == length && n == next,
            Ok(None) => headers matches Ok(None),
            Err(e) => headers == Err::<Option<(&[u8], usize, usize)>, FramingError>(e),
        },
{
    let (type_line, after_type) = match read_until_header(
        input,
        0,
        TYPE_HEADER.as_slice(),
        at_eof,
    ) {
        Err(e) => { return Err(e); },
        Ok(None) => { return Ok(None); },
        Ok(Some(found)) => found,
    };
    let record_type = match header_value(type_line) {
        Err(e) => { return Err(e); },
        Ok(value) => value,
    };
    let (length_line, after_length) = match read_until_header(
        input,
        after_type,
        LENGTH_HEADER.as_slice(),
        at_eof,
    ) {
        Err(e) => { return Err(e); },
        Ok(None) => { return Ok(None); },
        Ok(Some(found)) => found,
    };
    let text = match header_value(length_line) {
        Err(e) => { return Err(e); },
        Ok(value) => value,
    };
    match parse_content_length(text) {
        Err(e) => Err(e),
        Ok(length) => Ok(Some((record_type, length, after_length))),
    }
}

/// Reads the body that the headers announced, and passes over what
/// separates the record from the next.
pub fn read_body<'a>(input: &'a [u8], start: usize, length: usize, at_eof: bool) -> (body: Result<
    Option<(&'a [u8], usize)>,
    FramingError,
>)
    ensures
        match spec_read_body(input@, start as int, length as nat, at_eof) {
            Ok(Some((bytes, next))) => body matches Ok(Some((b, n))) && b@ == bytes && n == next,
            Ok(None) => body matches Ok(None),
            Err(e) => body == Err::<Option<(&[u8], usize)>, FramingError>(e),
        },
{
    let body_start = find_line_end(input, start);
    if !at_eof && !line_is_terminated(input, start, body_start) {
        return Ok(None);
    }
    if length > input.len() - body_start {
        return if at_eof {
            Err(FramingError::TruncatedBody)
        } else {
            Ok(None)
        };
    }
    let body_end = body_start + length;
    let first = find_line_end(input, body_end);
    let second = find_line_end(input, first);
    if !at_eof && !(line_is_terminated(input, body_end, first) && line_is_terminated(
        input,
        first,
        second,
    )) {
        return Ok(None);
    }
    Ok(Some((slice_subrange(input, body_start, body_end), second)))
}

/// Reads the record at the start of `input`.
///
/// `at_eof` says whether `input` holds the stream to its end. The answer is
/// the record and the number of bytes that it takes up, so that the next
/// record starts there; or `Ok(None)`, when `input` is empty or, before the
/// end of the stream, stops short of the record's end; or the error that
/// makes the stream unreadable.
pub fn next_record<'a>(input: &'a [u8], at_eof: bool) -> (next: Result<
    Option<(Record<'a>, usize)>,
    FramingError,
>)
    ensures
        match spec_next_record(input@, at_eof) {
            Ok(Some((record, consumed))) => next matches Ok(Some((r, c))) && r@ == record && c
                == consumed,
            Ok(None) => next matches Ok(None),
            Err(e) => next matches Err(got) && got == e,
        },
{
    if input.len() == 0 {
        return Ok(None);
    }
    let (record_type, length, after_headers) = match read_headers(input, at_eof) {
        Err(e) => { return Err(e); },
        Ok(None) => { return Ok(None); },
        Ok(Some(headers)) => headers,
    };
    match read_body(input, after_headers, length, at_eof) {
        Err(e) => Err(e),
        Ok(None) => Ok(None),
        Ok(Some((body, consumed))) => Ok(Some((Record { record_type, body }, consumed))),
    }
}

/// A record that is read takes up at least one byte and no more than the
/// input holds; and at the end of the stream the reader always has an
/// answer, which is `Ok(None)` only when nothing is left.
pub proof fn lemma_next_record_progress(input: Seq<u8>, at_eof: bool)
    ensures
        match spec_next_record(input, at_eof) {
            Ok(Some((_, consumed))) => 0 < consumed <= input.len(),
            Ok(None) => !at_eof || input.len() == 0,
            Err(_) => true,
        },
{
    lemma_read_until_header_found(input, 0, TYPE_HEADER@, at_eof);
    if let Ok(Some((_, after_type))) = spec_read_until_header(input, 0, TYPE_HEADER@, at_eof) {
        lemma_read_until_header_found(input, after_type, LENGTH_HEADER@, at_eof);
        if let Ok(Some((_, after_length))) = spec_read_until_header(
            input,
            after_type,
            LENGTH_HEADER@,
            at_eof,
        ) {
            lemma_line_end(input, after_length);
            let body_start = line_end(input, after_length);
            if let Ok(Some((_, length, _))) = spec_read_headers(input, at_eof) {
                if body_start + length <= input.len() {
                    lemma_line_end(input, body_start + length);
                    lemma_line_end(input, line_end(input, body_start + length));
                }
            }
        }
    }
}

/// How the input is cut into pieces does not change what is read from it:
/// once the reader has given a record or an error before the end of the
/// stream, it gives the same for every continuation of the input, whether or
/// not the stream ends there.
pub proof fn lemma_next_record_stable(input: Seq<u8>, more: Seq<u8>, at_eof: bool)
    requires
        !(spec_next_record(input, false) matches Ok(None)),
    ensures
        spec_next_record(input + more, at_eof) == spec_next_record(input, false),
{
    let longer = input + more;
    lemma_read_until_header_found(input, 0, TYPE_HEADER@, false);
    lemma_read_until_header_stable(input, more, 0, TYPE_HEADER@, at_eof);
    if let Ok(Some((type_line, after_type))) = spec_read_until_header(
        input,
        0,
        TYPE_HEADER@,
        false,
    ) {
        if spec_header_value(type_line) is Ok {
            lemma_read_until_header_found(input, after_type, LENGTH_HEADER@, false);
            lemma_read_until_header_stable(input, more, after_type, LENGTH_HEADER@, at_eof);
            if let Ok(Some((_, length, start))) = spec_read_headers(input, false) {
                let body_start = line_end(input, start);
                let body_end = body_start + length;
                let first = line_end(input, body_end);
                lemma_line_end_stable(input, more, start);
                lemma_line_end_stable(input, more, body_end);
                lemma_line_end_stable(input, more, first);
                assert(longer[body_start - 1] == input[body_start - 1]);
                assert(longer[first - 1] == input[first - 1]);
                assert(longer[line_end(input, first) - 1] == input[line_end(input, first) - 1]);
                assert(longer.subrange(body_start, body_end) =~= input.subrange(
                    body_start,
                    body_end,
                ));
            }
        }
    }
}

} // verus!
