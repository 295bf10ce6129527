use crate::error::FramingError;
use crate::header::{
    all_digits, decimal_value, is_digit, spec_content_length, spec_header_value, without_sign, CR,
    SPACE,
};
use crate::lines::{is_terminated, line_end, spec_read_until_header, LF};
use crate::record::{
    spec_next_record, spec_read_body, spec_read_headers, RecordView, LENGTH_HEADER, TYPE_HEADER,
};
use crate::scan::{spec_scan_records, ScanView};
use vstd::prelude::*;

verus! {

/// The two bytes that end a header line.
pub open spec fn crlf() -> Seq<u8> {
    seq![CR, LF]
}

/// The decimal digits that write `n`, without leading zeros.
pub open spec fn decimal_digits(n: nat) -> Seq<u8>
    decreases n,
{
    if n < 10 {
        seq![(0x30 + n) as u8]
    } else {
        decimal_digits(n / 10).push((0x30 + n % 10) as u8)
    }
}

/// Whether `line` is one whole line: it ends in a line feed and holds no
/// other.
pub open spec fn is_whole_line(line: Seq<u8>) -> bool {
    &&& line.len() > 0
    &&& line.last() == LF
    &&& forall|k: int| 0 <= k < line.len() - 1 ==> line[k] != LF
}

/// Whether `line` is a header line that a search for `header` passes over:
/// a whole line of more than two bytes that does not begin with `header`.
pub open spec fn is_other_header(line: Seq<u8>, header: Seq<u8>) -> bool {
    is_whole_line(line) && line.len() > 2 && !header.is_prefix_of(line)
}

/// A record as it is written into a stream.
pub struct WireRecord {
    /// The header lines before the type header, line ends included.
    pub before_type: Seq<Seq<u8>>,
    /// The value of the type header.
    pub record_type: Seq<u8>,
    /// The header lines between the type header and the content length
    /// header, line ends included.
    pub before_length: Seq<Seq<u8>>,
    /// The body.
    pub body: Seq<u8>,
}

impl WireRecord {
    /// What a reader is to make of the record.
    pub open spec fn record(self) -> RecordView {
        RecordView { record_type: self.record_type, body: self.body }
    }

    /// The type header line.
    pub open spec fn type_line(self) -> Seq<u8> {
        TYPE_HEADER@ + self.record_type + crlf()
    }

    /// The content length header line.
    pub open spec fn length_line(self) -> Seq<u8> {
        LENGTH_HEADER@ + decimal_digits(self.body.len()) + crlf()
    }

    /// The header lines, the content length header last.
    pub open spec fn head(self) -> Seq<u8> {
        self.before_type.flatten() + self.type_line() + self.before_length.flatten()
            + self.length_line()
    }

    /// The bytes of the record: its header lines, an empty line, the body,
    /// and two empty lines.
    pub open spec fn bytes(self) -> Seq<u8> {
        self.head() + crlf() + self.body + crlf() + crlf()
    }

    /// Whether the record is written as the format asks: the other header
    /// lines can be told from the two that are looked for, the type's value
    /// stays within its line, and the body's length fits the machine's word.
    pub open spec fn well_formed(self) -> bool {
        &&& forall|i: int|
            0 <= i < self.before_type.len() ==> is_other_header(
                #[trigger] self.before_type[i],
                TYPE_HEADER@,
            )
        &&& forall|i: int|
            0 <= i < self.before_length.len() ==> is_other_header(
                #[trigger] self.before_length[i],
                LENGTH_HEADER@,
            )
        &&& forall|k: int| 0 <= k < self.record_type.len() ==> self.record_type[k] != LF
        &&& self.body.len() <= usize::MAX
    }
}

/// The stream that holds `records` one behind the other.
pub open spec fn stream_of(records: Seq<WireRecord>) -> Seq<u8> {
    records.map_values(|w: WireRecord| w.bytes()).flatten()
}

/// The bodies of the `metadata` records among `records`, in their order.
pub open spec fn metadata_bodies(records: Seq<WireRecord>) -> Seq<Seq<u8>> {
    records.filter(|w: WireRecord| w.record().is_metadata()).map_values(|w: WireRecord| w.body)
}

/// Whether `piece` stands in `input` at position `at`.
pub open spec fn stands_at(input: Seq<u8>, at: int, piece: Seq<u8>) -> bool {
    0 <= at && at + piece.len() <= input.len() && input.subrange(at, at + piece.len()) == piece
}

/// The digits of a number are digits, at least one, and write that number.
pub proof fn lemma_decimal_digits(n: nat)
    ensures
        decimal_digits(n).len() > 0,
        all_digits(decimal_digits(n)),
        decimal_value(decimal_digits(n)) == n,
    decreases n,
{
    if n >= 10 {
        lemma_decimal_digits(n / 10);
        let digits = decimal_digits(n);
        assert(digits.drop_last() =~= decimal_digits(n / 10));
        assert forall|i: int| 0 <= i < digits.len() implies is_digit(#[trigger] digits[i]) by {
            if i < digits.len() - 1 {
                assert(digits[i] == decimal_digits(n / 10)[i]);
            }
        }
    } else {
        let digits = decimal_digits(n);
        assert(digits.drop_last() =~= Seq::<u8>::empty());
        reveal_with_fuel(decimal_value, 2);
    }
}

/// A line's end is where its line feed stands.
proof fn lemma_line_end_at(input: Seq<u8>, start: int, end: int)
    requires
        0 <= start < end <= input.len(),
        input[end - 1] == LF,
        forall|k: int| start <= k < end - 1 ==> input[k] != LF,
    ensures
        line_end(input, start) == end,
    decreases end - start,
{
    if input[start] != LF {
        lemma_line_end_at(input, start + 1, end);
    }
}

/// Where a whole line stands in the input, it ends where the line does.
proof fn lemma_line_in_place(input: Seq<u8>, start: int, line: Seq<u8>)
    requires
        stands_at(input, start, line),
        is_whole_line(line),
    ensures
        line_end(input, start) == start + line.len(),
        is_terminated(input, start, start + line.len()),
{
    let end = start + line.len();
    assert forall|k: int| start <= k < end implies input[k] == line[k - start] by {
        assert(input.subrange(start, end)[k - start] == input[k]);
    }
    lemma_line_end_at(input, start, end);
}

/// A search passes over header lines of other names.
proof fn lemma_passes_other_headers(
    input: Seq<u8>,
    start: int,
    lines: Seq<Seq<u8>>,
    header: Seq<u8>,
    at_eof: bool,
)
    requires
        stands_at(input, start, lines.flatten()),
        forall|i: int| 0 <= i < lines.len() ==> is_other_header(#[trigger] lines[i], header),
    ensures
        spec_read_until_header(input, start, header, at_eof) == spec_read_until_header(
            input,
            start + lines.flatten().len(),
            header,
            at_eof,
        ),
    decreases lines.len(),
{
    if lines.len() > 0 {
        let line = lines.first();
        let others = lines.drop_first();
        let all = lines.flatten();
        assert(all == line + others.flatten());
        assert(is_other_header(lines[0], header));
        assert(input.subrange(start, start + line.len()) =~= line) by {
            assert(all.subrange(0, line.len() as int) =~= line);
        }
        assert(input.subrange(start + line.len(), start + all.len()) =~= others.flatten()) by {
            assert(all.subrange(line.len() as int, all.len() as int) =~= others.flatten());
        }
        lemma_line_in_place(input, start, line);
        assert forall|i: int| 0 <= i < others.len() implies is_other_header(
            #[trigger] others[i],
            header,
        ) by {
            assert(others[i] == lines[i + 1]);
        }
        lemma_passes_other_headers(input, start + line.len(), others, header, at_eof);
    } else {
        assert(lines.flatten().len() == 0);
    }
}

/// A search stops at the line that begins with the header.
proof fn lemma_stops_at_header(
    input: Seq<u8>,
    start: int,
    line: Seq<u8>,
    header: Seq<u8>,
    at_eof: bool,
)
    requires
        stands_at(input, start, line),
        is_whole_line(line),
        line.len() > 2,
        header.is_prefix_of(line),
    ensures
        spec_read_until_header(input, start, header, at_eof) == Ok::<
            Option<(Seq<u8>, int)>,
            FramingError,
        >(Some((line, start + line.len()))),
{
    lemma_line_in_place(input, start, line);
}

/// The value of a header line is what was written between the header's name,
/// which ends in its only space, and the line's end.
proof fn lemma_header_value_of(name: Seq<u8>, value: Seq<u8>)
    requires
        name.len() > 0,
        name.last() == SPACE,
        forall|k: int| 0 <= k < name.len() - 1 ==> name[k] != SPACE,
    ensures
        spec_header_value(name + value + crlf()) == Ok::<Seq<u8>, FramingError>(value),
{
    let line = name + value + crlf();
    let space = name.len() - 1;
    assert(line[space] == SPACE);
    assert(line.contains(SPACE));
    line.index_of_first_ensures(SPACE);
    let found = line.index_of_first(SPACE).unwrap();
    assert(found == space) by {
        if found < space {
            assert(line[found] == name[found]);
        }
    }
    assert(line.subrange(space + 1, line.len() - 2) =~= value);
}

/// Neither header name holds a line feed, and each ends in its only space.
proof fn lemma_header_names()
    ensures
        forall|k: int| 0 <= k < TYPE_HEADER@.len() ==> TYPE_HEADER@[k] != LF,
        forall|k: int| 0 <= k < TYPE_HEADER@.len() - 1 ==> TYPE_HEADER@[k] != SPACE,
        TYPE_HEADER@.last() == SPACE,
        forall|k: int| 0 <= k < LENGTH_HEADER@.len() ==> LENGTH_HEADER@[k] != LF,
        forall|k: int| 0 <= k < LENGTH_HEADER@.len() - 1 ==> LENGTH_HEADER@[k] != SPACE,
        LENGTH_HEADER@.last() == SPACE,
{
}

/// A header line written from a name without a line feed and a value without
/// one is one whole line of more than two bytes that begins with the name.
proof fn lemma_written_header_line(name: Seq<u8>, value: Seq<u8>)
    requires
        name.len() > 0,
        forall|k: int| 0 <= k < name.len() ==> name[k] != LF,
        forall|k: int| 0 <= k < value.len() ==> value[k] != LF,
    ensures
        is_whole_line(name + value + crlf()),
        (name + value + crlf()).len() > 2,
        name.is_prefix_of(name + value + crlf()),
{
    let line = name + value + crlf();
    assert(line.subrange(0, name.len() as int) =~= name);
    assert forall|k: int| 0 <= k < line.len() - 1 implies line[k] != LF by {
        if k < name.len() {
            assert(line[k] == name[k]);
        } else if k < name.len() + value.len() {
            assert(line[k] == value[k - name.len()]);
        }
    }
}

/// What is written last stands at the end.
proof fn lemma_stands_at_end(front: Seq<u8>, piece: Seq<u8>)
    ensures
        stands_at(front + piece, front.len() as int, piece),
{
    assert((front + piece).subrange(front.len() as int, (front.len() + piece.len()) as int) =~= piece);
}

/// What stands in the input stays where it is when more is written behind.
proof fn lemma_stands_still(input: Seq<u8>, at: int, piece: Seq<u8>, more: Seq<u8>)
    requires
        stands_at(input, at, piece),
    ensures
        stands_at(input + more, at, piece),
{
    assert((input + more).subrange(at, at + piece.len()) =~= input.subrange(
        at,
        at + piece.len(),
    ));
}

/// Where the lines of a written record's head stand in the head.
proof fn lemma_head_layout(w: WireRecord)
    ensures
        ({
            let type_at = w.before_type.flatten().len() as int;
            let after_type = type_at + w.type_line().len();
            let length_at = after_type + w.before_length.flatten().len();
            &&& stands_at(w.head(), 0, w.before_type.flatten())
            &&& stands_at(w.head(), type_at, w.type_line())
            &&& stands_at(w.head(), after_type, w.before_length.flatten())
            &&& stands_at(w.head(), length_at, w.length_line())
            &&& w.head().len() == length_at + w.length_line().len()
        }),
{
    let lead = w.before_type.flatten();
    let mid = w.before_length.flatten();
    let s1 = lead;
    let s2 = s1 + w.type_line();
    let s3 = s2 + mid;
    lemma_stands_at_end(Seq::empty(), lead);
    assert(Seq::<u8>::empty() + lead =~= lead);
    lemma_stands_at_end(s1, w.type_line());
    lemma_stands_at_end(s2, mid);
    lemma_stands_at_end(s3, w.length_line());
    lemma_stands_still(s1, 0, lead, w.type_line());
    lemma_stands_still(s2, 0, lead, mid);
    lemma_stands_still(s3, 0, lead, w.length_line());
    lemma_stands_still(s2, s1.len() as int, w.type_line(), mid);
    lemma_stands_still(s3, s1.len() as int, w.type_line(), w.length_line());
    lemma_stands_still(s3, s2.len() as int, mid, w.length_line());
}

/// What stands in a record's head stands at the same place in any stream
/// that begins with the record.
proof fn lemma_stands_in_stream(w: WireRecord, rest: Seq<u8>, at: int, piece: Seq<u8>)
    requires
        stands_at(w.head(), at, piece),
    ensures
        stands_at(w.bytes() + rest, at, piece),
{
    let s1 = w.head() + crlf();
    let s2 = s1 + w.body;
    let s3 = s2 + crlf();
    let s4 = s3 + crlf();
    lemma_stands_still(w.head(), at, piece, crlf());
    lemma_stands_still(s1, at, piece, w.body);
    lemma_stands_still(s2, at, piece, crlf());
    lemma_stands_still(s3, at, piece, crlf());
    lemma_stands_still(s4, at, piece, rest);
}

/// In a stream that begins with a written record, the search for the type
/// header stops at the record's type line.
proof fn lemma_finds_type_line(w: WireRecord, rest: Seq<u8>, at_eof: bool)
    requires
        w.well_formed(),
    ensures
        spec_read_until_header(w.bytes() + rest, 0, TYPE_HEADER@, at_eof) == Ok::<
            Option<(Seq<u8>, int)>,
            FramingError,
        >(Some((w.type_line(), (w.before_type.flatten().len() + w.type_line().len()) as int))),
{
    let input = w.bytes() + rest;
    let type_at = w.before_type.flatten().len() as int;
    lemma_head_layout(w);
    lemma_stands_in_stream(w, rest, 0, w.before_type.flatten());
    lemma_stands_in_stream(w, rest, type_at, w.type_line());
    lemma_header_names();
    lemma_written_header_line(TYPE_HEADER@, w.record_type);
    lemma_passes_other_headers(input, 0, w.before_type, TYPE_HEADER@, at_eof);
    lemma_stops_at_header(input, type_at, w.type_line(), TYPE_HEADER@, at_eof);
}

/// In a stream that begins with a written record, the search for the content
/// length header, from behind the type line on, stops at the record's
/// content length line, which is where the record's head ends.
proof fn lemma_finds_length_line(w: WireRecord, rest: Seq<u8>, at_eof: bool)
    requires
        w.well_formed(),
    ensures
        spec_read_until_header(
            w.bytes() + rest,
            (w.before_type.flatten().len() + w.type_line().len()) as int,
            LENGTH_HEADER@,
            at_eof,
        ) == Ok::<Option<(Seq<u8>, int)>, FramingError>(
            Some((w.length_line(), w.head().len() as int)),
        ),
{
    let input = w.bytes() + rest;
    let digits = decimal_digits(w.body.len());
    let after_type = (w.before_type.flatten().len() + w.type_line().len()) as int;
    let length_at = after_type + w.before_length.flatten().len();
    lemma_head_layout(w);
    lemma_stands_in_stream(w, rest, after_type, w.before_length.flatten());
    lemma_stands_in_stream(w, rest, length_at, w.length_line());
    lemma_header_names();
    lemma_decimal_digits(w.body.len());
    assert forall|k: int| 0 <= k < digits.len() implies digits[k] != LF by {
        assert(is_digit(digits[k]));
    }
    lemma_written_header_line(LENGTH_HEADER@, digits);
    lemma_passes_other_headers(input, after_type, w.before_length, LENGTH_HEADER@, at_eof);
    lemma_stops_at_header(input, length_at, w.length_line(), LENGTH_HEADER@, at_eof);
}

/// The digits of a number are read as that number.
pub proof fn lemma_content_length_of_digits(n: nat)
    requires
        n <= usize::MAX,
    ensures
        spec_content_length(decimal_digits(n)) == Some(n),
{
    let digits = decimal_digits(n);
    lemma_decimal_digits(n);
    assert(is_digit(digits[0]));
    assert(without_sign(digits) == digits);
}

/// The reader takes from a stream that begins with a written record the
/// record's type and the length of its body, and stops behind the record's
/// head.
pub proof fn lemma_reads_headers_back(w: WireRecord, rest: Seq<u8>, at_eof: bool)
    requires
        w.well_formed(),
    ensures
        spec_read_headers(w.bytes() + rest, at_eof) == Ok::<
            Option<(Seq<u8>, nat, int)>,
            FramingError,
        >(Some((w.record_type, w.body.len(), w.head().len() as int))),
{
    let digits = decimal_digits(w.body.len());
    lemma_finds_type_line(w, rest, at_eof);
    lemma_finds_length_line(w, rest, at_eof);
    lemma_header_names();
    lemma_header_value_of(TYPE_HEADER@, w.record_type);
    lemma_header_value_of(LENGTH_HEADER@, digits);
    lemma_content_length_of_digits(w.body.len());
}

/// The reader takes from what is written behind a record's head the body,
/// and stops behind the two empty lines that end the record.
pub proof fn lemma_reads_body_back(head: Seq<u8>, body: Seq<u8>, rest: Seq<u8>, at_eof: bool)
    ensures
        spec_read_body(
            head + crlf() + body + crlf() + crlf() + rest,
            head.len() as int,
            body.len(),
            at_eof,
        ) == Ok::<Option<(Seq<u8>, int)>, FramingError>(
            Some((body, (head.len() + body.len() + 6) as int)),
        ),
{
    let s1 = head + crlf();
    let s2 = s1 + body;
    let s3 = s2 + crlf();
    let s4 = s3 + crlf();
    let input = s4 + rest;
    let blank_at = head.len() as int;
    let body_at = blank_at + 2;
    let body_end = body_at + body.len();
    let last_at = body_end + 2;
    lemma_stands_at_end(head, crlf());
    lemma_stands_at_end(s1, body);
    lemma_stands_at_end(s2, crlf());
    lemma_stands_at_end(s3, crlf());
    lemma_stands_still(s1, blank_at, crlf(), body);
    lemma_stands_still(s2, blank_at, crlf(), crlf());
    lemma_stands_still(s3, blank_at, crlf(), crlf());
    lemma_stands_still(s4, blank_at, crlf(), rest);
    lemma_stands_still(s2, body_at, body, crlf());
    lemma_stands_still(s3, body_at, body, crlf());
    lemma_stands_still(s4, body_at, body, rest);
    lemma_stands_still(s3, body_end, crlf(), crlf());
    lemma_stands_still(s4, body_end, crlf(), rest);
    lemma_stands_still(s4, last_at, crlf(), rest);
    assert(is_whole_line(crlf()));
    lemma_line_in_place(input, blank_at, crlf());
    lemma_line_in_place(input, body_end, crlf());
    lemma_line_in_place(input, last_at, crlf());
}

/// Reading gives back what was written: the reader takes from a stream that
/// begins with a well-formed record the record's type and body, and takes up
/// exactly the record's bytes.
pub proof fn lemma_reads_back(w: WireRecord, rest: Seq<u8>, at_eof: bool)
    requires
        w.well_formed(),
    ensures
        spec_next_record(w.bytes() + rest, at_eof) == Ok::<Option<(RecordView, int)>, FramingError>(
            Some((w.record(), w.bytes().len() as int)),
        ),
{
    let input = w.bytes() + rest;
    let end = w.bytes().len() as int;
    assert(spec_read_headers(input, at_eof) == Ok::<Option<(Seq<u8>, nat, int)>, FramingError>(
        Some((w.record_type, w.body.len(), w.head().len() as int)),
    )) by {
        lemma_reads_headers_back(w, rest, at_eof);
    }
    assert(spec_read_body(input, w.head().len() as int, w.body.len(), at_eof) == Ok::<
        Option<(Seq<u8>, int)>,
        FramingError,
    >(Some((w.body, end)))) by {
        lemma_reads_body_back(w.head(), w.body, rest, at_eof);
    }
    assert(input.len() > 0);
}

/// The stream of some records is the bytes of the first, then the stream of
/// the others.
proof fn lemma_stream_unfolds(records: Seq<WireRecord>)
    requires
        records.len() > 0,
    ensures
        stream_of(records) == records.first().bytes() + stream_of(records.drop_first()),
{
    let written = records.map_values(|w: WireRecord| w.bytes());
    assert(written.drop_first() =~= records.drop_first().map_values(|w: WireRecord| w.bytes()));
}

/// The `metadata` bodies of some records are that of the first, if it is
/// one, then those of the others.
proof fn lemma_metadata_bodies_unfold(records: Seq<WireRecord>)
    requires
        records.len() > 0,
    ensures
        metadata_bodies(records) == if records.first().record().is_metadata() {
            seq![records.first().body] + metadata_bodies(records.drop_first())
        } else {
            metadata_bodies(records.drop_first())
        },
{
    let keep = |w: WireRecord| w.record().is_metadata();
    let body = |w: WireRecord| w.body;
    let first = records.first();
    let others = records.drop_first();
    assert(records =~= seq![first] + others);
    others.lemma_filter_prepend(first, keep);
    let kept = others.filter(keep);
    if keep(first) {
        assert((seq![first] + kept).map_values(body) =~= seq![first.body] + kept.map_values(body));
    } else {
        assert(Seq::<WireRecord>::empty() + kept =~= kept);
    }
}

/// A stream written from well-formed records is read without error, and
/// what is handed on is the bodies of its `metadata` records and no others,
/// each as it was written and in the order of the stream.
pub proof fn lemma_scan_of_stream(records: Seq<WireRecord>)
    requires
        forall|i: int| 0 <= i < records.len() ==> (#[trigger] records[i]).well_formed(),
    ensures
        spec_scan_records(stream_of(records)) == (ScanView {
            forwarded: metadata_bodies(records),
            error: None,
        }),
    decreases records.len(),
{
    if records.len() == 0 {
        reveal(Seq::filter);
        assert(metadata_bodies(records) =~= Seq::<Seq<u8>>::empty());
        assert(stream_of(records) =~= Seq::<u8>::empty());
    } else {
        let first = records.first();
        let others = records.drop_first();
        let stream = stream_of(records);
        lemma_stream_unfolds(records);
        lemma_metadata_bodies_unfold(records);
        assert(first.well_formed());
        assert(spec_next_record(stream, true) == Ok::<Option<(RecordView, int)>, FramingError>(
            Some((first.record(), first.bytes().len() as int)),
        )) by {
            lemma_reads_back(first, stream_of(others), true);
        }
        assert(stream.skip(first.bytes().len() as int) =~= stream_of(others));
        assert forall|i: int| 0 <= i < others.len() implies (#[trigger] others[i]).well_formed() by {
            assert(others[i] == records[i + 1]);
        }
        lemma_scan_of_stream(others);
    }
}

} // verus!
