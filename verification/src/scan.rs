use crate::error::FramingError;
use crate::record::{lemma_next_record_progress, next_record, spec_next_record};
use vstd::prelude::*;
use vstd::slice::{slice_subrange, slice_to_vec};

verus! {

/// What reading a whole stream gave: the bodies that are handed on to the
/// workers, in the order of the stream, and the error that ended the reading
/// early, if one did.
#[derive(Debug)]
pub struct ScanReport {
    pub forwarded: Vec<Vec<u8>>,
    pub error: Option<FramingError>,
}

/// A report as mathematics sees it.
pub struct ScanView {
    pub forwarded: Seq<Seq<u8>>,
    pub error: Option<FramingError>,
}

impl View for ScanReport {
    type V = ScanView;

    open spec fn view(&self) -> ScanView {
        ScanView { forwarded: self.forwarded@.map_values(|body: Vec<u8>| body@), error: self.error }
    }
}

impl ScanView {
    /// The report with `front` put before the bodies.
    pub open spec fn after(self, front: Seq<Seq<u8>>) -> ScanView {
        ScanView { forwarded: front + self.forwarded, error: self.error }
    }
}

/// What reading the whole of `input` gives.
///
/// Records are read one behind the other until nothing is left. The body of
/// each `metadata` record is handed on; the body of any other record is
/// dropped. An error ends the reading, and what was handed on before stays.
pub open spec fn spec_scan_records(input: Seq<u8>) -> ScanView
    decreases input.len(),
    via scan_records_terminates
{
    match spec_next_record(input, true) {
        Ok(None) => ScanView { forwarded: Seq::empty(), error: None },
        Err(e) => ScanView { forwarded: Seq::empty(), error: Some(e) },
        Ok(Some((record, consumed))) => {
            let rest = spec_scan_records(input.skip(consumed));
            if record.is_metadata() {
                rest.after(seq![record.body])
            } else {
                rest
            }
        },
    }
}

#[via_fn]
proof fn scan_records_terminates(input: Seq<u8>) {
    lemma_next_record_progress(input, true);
}

/// Reads a whole stream and collects the bodies of its `metadata` records.
pub fn scan_records(input: &[u8]) -> (report: ScanReport)
    ensures
        report@ == spec_scan_records(input@),
{
    let mut forwarded: Vec<Vec<u8>> = Vec::new();
    let mut pos: usize = 0;
    proof {
        let whole = spec_scan_records(input@);
        assert(input@.skip(0) =~= input@);
        assert(forwarded@.map_values(|body: Vec<u8>| body@) + whole.forwarded =~= whole.forwarded);
    }
    loop
        invariant
            pos <= input@.len(),
            spec_scan_records(input@) == spec_scan_records(input@.skip(pos as int)).after(
                forwarded@.map_values(|body: Vec<u8>| body@),
            ),
        decreases input@.len() - pos,
    {
        let rest = slice_subrange(input, pos, input.len());
        let ghost seen = forwarded@.map_values(|body: Vec<u8>| body@);
        proof {
            lemma_next_record_progress(rest@, true);
            assert(input@.skip(pos as int) =~= rest@);
        }
        match next_record(rest, true) {
            Err(e) => {
                assert(seen + Seq::<Seq<u8>>::empty() =~= seen);
                return ScanReport { forwarded, error: Some(e) };
            },
            Ok(None) => {
                assert(seen + Seq::<Seq<u8>>::empty() =~= seen);
                return ScanReport { forwarded, error: None };
            },
            Ok(Some((record, consumed))) => {
                let ghost tail = spec_scan_records(rest@.skip(consumed as int));
                assert(rest@.skip(consumed as int) =~= input@.skip(pos + consumed));
                if record.is_metadata() {
                    forwarded.push(slice_to_vec(record.body));
                    assert(forwarded@.map_values(|body: Vec<u8>| body@) =~= seen + seq![
                        record.body@,
                    ]);
                    assert((seen + seq![record.body@]) + tail.forwarded =~= seen + (seq![
                        record.body@,
                    ] + tail.forwarded));
                }
                pos = pos + consumed;
            },
        }
    }
}

/// A record of another type than `metadata` adds nothing to what is handed
/// on: the stream gives what the stream behind that record gives.
pub proof fn lemma_other_types_are_dropped(input: Seq<u8>)
    requires
        spec_next_record(input, true) matches Ok(Some((record, _))) && !record.is_metadata(),
    ensures
        spec_next_record(input, true) matches Ok(Some((_, consumed))) && spec_scan_records(input)
            == spec_scan_records(input.skip(consumed)),
{
}

/// The body of a `metadata` record is handed on as it stands, before
/// whatever the stream behind the record gives.
pub proof fn lemma_metadata_is_forwarded(input: Seq<u8>)
    requires
        spec_next_record(input, true) matches Ok(Some((record, _))) && record.is_metadata(),
    ensures
        spec_next_record(input, true) matches Ok(Some((record, consumed))) && spec_scan_records(
            input,
        ) == spec_scan_records(input.skip(consumed)).after(seq![record.body]),
{
}

} // verus!
