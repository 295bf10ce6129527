use crate::error::FramingError;
use crate::record::{
    lemma_next_record_progress, lemma_next_record_stable, next_record, spec_next_record,
};
use crate::scan::{spec_scan_records, ScanView};
use vstd::prelude::*;
use vstd::slice::{slice_subrange, slice_to_vec};

verus! {

/// What one step of a [`StreamReader`] came to.
#[derive(Debug)]
pub enum Step {
    /// A `metadata` record was read: its body is to be handed to a worker.
    Forward(Vec<u8>),
    /// A record of another type was read and dropped.
    Dropped,
    /// The record at hand is not whole yet: more input is to be fed.
    NeedInput,
    /// The stream has ended and nothing is left of it.
    Finished,
    /// The stream cannot be read any further.
    Failed(FramingError),
}

/// Reads the records of a stream whose bytes arrive piece by piece.
///
/// The reader keeps the bytes that were fed to it and not yet read. Each
/// step reads the record at their start, if it can be judged.
pub struct StreamReader {
    buffer: Vec<u8>,
    start: usize,
    ended: bool,
}

impl StreamReader {
    /// Whether the reader is in order: what it has read lies within what
    /// it holds. Every reader made by [`StreamReader::new`] is, and stays so.
    pub closed spec fn wf(self) -> bool {
        self.start <= self.buffer@.len()
    }

    /// The bytes that were fed and not yet read.
    pub closed spec fn unread(self) -> Seq<u8> {
        self.buffer@.skip(self.start as int)
    }

    /// Whether the end of the stream was announced.
    pub closed spec fn ended(self) -> bool {
        self.ended
    }

    /// A reader at the start of a stream.
    pub fn new() -> (reader: StreamReader)
        ensures
            reader.wf(),
            reader.unread() == Seq::<u8>::empty(),
            !reader.ended(),
    {
        let reader = StreamReader { buffer: Vec::new(), start: 0, ended: false };
        assert(reader.buffer@.skip(0) =~= Seq::<u8>::empty());
        reader
    }

    /// Takes the next piece of the stream. An empty piece announces the end
    /// of the stream.
    pub fn feed(&mut self, chunk: &[u8])
        requires
            old(self).wf(),
        ensures
            final(self).wf(),
            final(self).unread() == old(self).unread() + chunk@,
            final(self).ended() == (old(self).ended() || chunk@.len() == 0),
    {
        if self.start > 0 {
            let rest = self.buffer.split_off(self.start);
            self.start = 0;
            self.buffer = rest;
        }
        assert(self.buffer@ =~= old(self).unread());
        self.buffer.extend_from_slice(chunk);
        if chunk.len() == 0 {
            self.ended = true;
        }
        assert(self.buffer@.skip(0) =~= self.buffer@);
    }

    /// The bytes that were fed and not yet read.
    pub fn pending(&self) -> (bytes: &[u8])
        requires
            self.wf(),
        ensures
            bytes@ == self.unread(),
    {
        slice_subrange(self.buffer.as_slice(), self.start, self.buffer.len())
    }

    /// Reads the record at the start of the unread bytes.
    ///
    /// A record that is read leaves the unread bytes; its body is given out
    /// if its type is `metadata`. Where no record can be read, nothing
    /// changes, and the step says why: more input is needed, the stream has
    /// ended, or it is broken.
    pub fn step(&mut self) -> (step: Step)
        requires
            old(self).wf(),
        ensures
            final(self).wf(),
            final(self).ended() == old(self).ended(),
            match spec_next_record(old(self).unread(), old(self).ended()) {
                Ok(Some((record, consumed))) => {
                    &&& final(self).unread() == old(self).unread().skip(consumed)
                    &&& if record.is_metadata() {
                        step matches Step::Forward(body) && body@ == record.body
                    } else {
                        step is Dropped
                    }
                },
                Ok(None) => {
                    &&& final(self).unread() == old(self).unread()
                    &&& if old(self).ended() {
                        step is Finished
                    } else {
                        step is NeedInput
                    }
                },
                Err(e) => {
                    &&& final(self).unread() == old(self).unread()
                    &&& step matches Step::Failed(got)
                    &&& got == e
                },
            },
    {
        proof {
            lemma_next_record_progress(self.unread(), self.ended);
        }
        let rest = slice_subrange(self.buffer.as_slice(), self.start, self.buffer.len());
        match next_record(rest, self.ended) {
            Err(e) => Step::Failed(e),
            Ok(None) => if self.ended {
                Step::Finished
            } else {
                Step::NeedInput
            },
            Ok(Some((record, consumed))) => {
                let step = if record.is_metadata() {
                    Step::Forward(slice_to_vec(record.body))
                } else {
                    Step::Dropped
                };
                assert(self.buffer@.skip(self.start as int).skip(consumed as int)
                    =~= self.buffer@.skip(self.start + consumed));
                self.start = self.start + consumed;
                step
            },
        }
    }
}

/// What a reader gives in all that holds `unread` and is then fed `pieces`
/// one by one, each when a step asks for input, and told of the end of the
/// stream when a step asks for input and no piece is left.
pub open spec fn spec_read_in_pieces(unread: Seq<u8>, pieces: Seq<Seq<u8>>) -> ScanView
    decreases pieces.len(), unread.len(),
    via read_in_pieces_terminates
{
    match spec_next_record(unread, false) {
        Err(e) => ScanView { forwarded: Seq::empty(), error: Some(e) },
        Ok(Some((record, consumed))) => {
            let rest = spec_read_in_pieces(unread.skip(consumed), pieces);
            if record.is_metadata() {
                rest.after(seq![record.body])
            } else {
                rest
            }
        },
        Ok(None) => if pieces.len() == 0 {
            spec_scan_records(unread)
        } else {
            spec_read_in_pieces(unread + pieces.first(), pieces.drop_first())
        },
    }
}

#[via_fn]
proof fn read_in_pieces_terminates(unread: Seq<u8>, pieces: Seq<Seq<u8>>) {
    lemma_next_record_progress(unread, false);
}

/// How a stream is cut into pieces does not matter: a reader that is fed the
/// pieces as it asks for them gives what reading the whole stream at once
/// gives.
pub proof fn lemma_pieces_do_not_matter(unread: Seq<u8>, pieces: Seq<Seq<u8>>)
    ensures
        spec_read_in_pieces(unread, pieces) == spec_scan_records(unread + pieces.flatten()),
    decreases pieces.len(), unread.len(),
{
    let more = pieces.flatten();
    let whole = unread + more;
    lemma_next_record_progress(unread, false);
    match spec_next_record(unread, false) {
        Err(e) => {
            lemma_next_record_stable(unread, more, true);
        },
        Ok(Some((record, consumed))) => {
            lemma_next_record_stable(unread, more, true);
            assert(whole.skip(consumed) =~= unread.skip(consumed) + more);
            lemma_pieces_do_not_matter(unread.skip(consumed), pieces);
        },
        Ok(None) => {
            if pieces.len() == 0 {
                assert(whole =~= unread);
            } else {
                assert(whole =~= (unread + pieces.first()) + pieces.drop_first().flatten());
                lemma_pieces_do_not_matter(unread + pieces.first(), pieces.drop_first());
            }
        },
    }
}

} // verus!
