//! What one worker does with the records it is sent, and the same done in
//! line for a stream that is not handed out to workers.
//!
//! A worker owns a partial graph and two counters. Each message is the bytes
//! of one record: a JSON object is folded into the graph and counted as
//! processed, malformed bytes are counted as an error and skipped, and a JSON
//! value that is no object is dropped without a count. An empty message is
//! the sign to stop.

use crate::debtors::{empty_debtors, fold_result, inserted, Debtors, DebtorsView};
use crate::extract::{decode, decoded, malformed};
use crate::framer::{
    buffers, frame, interleaved, is_gap, is_object, lemma_frame_stream, lemma_scan_concat,
    scan_objects, scan_state, Framer, ScanState,
};
use crate::laws::folded;
use vstd::prelude::*;

verus! {

/// After how many processed records a worker reports its count.
pub const PRN_COUNT: u64 = 100000;

/// A worker in contracts.
pub struct WorkerView {
    /// The partial graph.
    pub result: DebtorsView,
    /// How many records were folded into the graph.
    pub processed: nat,
    /// How many records were skipped as malformed.
    pub errors: nat,
}

/// A worker that has seen nothing.
pub open spec fn idle() -> WorkerView {
    WorkerView { result: empty_debtors(), processed: 0, errors: 0 }
}

/// The worker `w` after the bytes of one record: malformed bytes are one
/// error more, an object is folded in and is one processed record more, and
/// a value of another kind changes nothing.
pub open spec fn handled(w: WorkerView, bytes: Seq<u8>) -> WorkerView {
    if malformed(bytes) {
        WorkerView { result: w.result, processed: w.processed, errors: w.errors + 1 }
    } else {
        match decoded(bytes) {
            Some(dr) => WorkerView {
                result: inserted(w.result, dr),
                processed: w.processed + 1,
                errors: w.errors,
            },
            None => w,
        }
    }
}

/// The worker `w` after a list of records, one after the other.
pub open spec fn handled_all(w: WorkerView, records: Seq<Seq<u8>>) -> WorkerView
    decreases records.len(),
{
    if records.len() == 0 {
        w
    } else {
        handled(handled_all(w, records.drop_last()), records.last())
    }
}

/// The count that the worker `w` reports after the bytes of one record: the
/// number of processed records where the record was processed and that
/// number is a multiple of [`PRN_COUNT`].
pub open spec fn report_after(w: WorkerView, bytes: Seq<u8>) -> Option<u64> {
    if decoded(bytes) is Some && (w.processed + 1) % (PRN_COUNT as nat) == 0 {
        Some((w.processed + 1) as u64)
    } else {
        None
    }
}

/// The counts that the worker `w` reports over a list of records.
pub open spec fn reports_over(w: WorkerView, records: Seq<Seq<u8>>) -> Seq<u64>
    decreases records.len(),
{
    if records.len() == 0 {
        Seq::empty()
    } else {
        let before = handled_all(w, records.drop_last());
        let earlier = reports_over(w, records.drop_last());
        match report_after(before, records.last()) {
            Some(n) => earlier.push(n),
            None => earlier,
        }
    }
}

/// The total after the worker `part` was joined to it: the graphs folded,
/// the first one taken as it is and every later one merged in, and the
/// counts added.
pub open spec fn joined_to(total: WorkerView, part: WorkerView) -> WorkerView {
    WorkerView {
        result: folded(total.result, part.result),
        processed: total.processed + part.processed,
        errors: total.errors + part.errors,
    }
}

/// What to do after a message.
#[derive(Debug, Clone, Copy, PartialEq, Eq, Structural)]
pub enum Step {
    /// The message was the sign to stop.
    Stop,
    /// Go on with the next message.
    Continue,
    /// Report this count of processed records, then go on.
    Report(u64),
}

/// One worker: a partial graph, and the counts of the records processed and
/// of those skipped.
pub struct Worker {
    result: Debtors,
    processed: u64,
    errors: u64,
}

impl View for Worker {
    type V = WorkerView;

    closed spec fn view(&self) -> WorkerView {
        WorkerView {
            result: self.result@,
            processed: self.processed as nat,
            errors: self.errors as nat,
        }
    }
}

impl Worker {
    /// The worker's graph is well formed.
    pub closed spec fn wf(&self) -> bool {
        self.result.wf()
    }

    /// A worker that has seen nothing.
    pub fn new() -> (w: Worker)
        ensures
            w.wf(),
            w@ == idle(),
    {
        Worker { result: Debtors::new(), processed: 0, errors: 0 }
    }

    /// The partial graph.
    pub fn result(&self) -> (g: &Debtors)
        ensures
            g@ == self@.result,
            g.wf() == self.wf(),
    {
        &self.result
    }

    /// How many records were folded into the graph.
    pub fn processed_count(&self) -> (n: u64)
        ensures
            n == self@.processed,
    {
        self.processed
    }

    /// How many records were skipped as malformed.
    pub fn error_count(&self) -> (n: u64)
        ensures
            n == self@.errors,
    {
        self.errors
    }

    /// Whether one more record can be counted.
    pub fn has_room(&self) -> (room: bool)
        ensures
            room == (self@.processed + self@.errors < u64::MAX),
    {
        self.errors < u64::MAX - self.processed
    }

    /// Handles the bytes of one record: folds a JSON object into the graph
    /// and counts it as processed, counts malformed bytes as an error, and
    /// drops a JSON value that is no object. Returns the count to report, if
    /// one is due.
    pub fn process(&mut self, bytes: &[u8]) -> (report: Option<u64>)
        requires
            old(self).wf(),
            old(self)@.processed + old(self)@.errors < u64::MAX,
        ensures
            final(self).wf(),
            final(self)@ == handled(old(self)@, bytes@),
            report == report_after(old(self)@, bytes@),
    {
        match decode(bytes) {
            Ok(Some(dr)) => {
                self.result.insert(dr);
                self.processed = self.processed + 1;
                if self.processed % PRN_COUNT == 0 {
                    Some(self.processed)
                } else {
                    None
                }
            },
            Ok(None) => None,
            Err(_) => {
                self.errors = self.errors + 1;
                None
            },
        }
    }

    /// Handles one message from the queue. An empty message is the sign to
    /// stop and changes nothing; any other is the bytes of one record.
    pub fn handle(&mut self, msg: &[u8]) -> (step: Step)
        requires
            old(self).wf(),
            msg@.len() > 0 ==> old(self)@.processed + old(self)@.errors < u64::MAX,
        ensures
            final(self).wf(),
            msg@.len() == 0 ==> step == Step::Stop && final(self)@ == old(self)@,
            msg@.len() > 0 ==> final(self)@ == handled(old(self)@, msg@) && step == match report_after(
                old(self)@,
                msg@,
            ) {
                Some(n) => Step::Report(n),
                None => Step::Continue,
            },
    {
        if msg.len() == 0 {
            return Step::Stop;
        }
        match self.process(msg) {
            Some(n) => Step::Report(n),
            None => Step::Continue,
        }
    }

    /// Adds what another worker has gathered: its graph is folded into this
    /// one's, as the first graph taken or by a merge, and its counts are
    /// added.
    pub fn join(&mut self, part: Worker)
        requires
            old(self).wf(),
            part.wf(),
            old(self)@.processed + part@.processed <= u64::MAX,
            old(self)@.errors + part@.errors <= u64::MAX,
        ensures
            final(self).wf(),
            final(self)@ == joined_to(old(self)@, part@),
    {
        fold_result(part.result, &mut self.result);
        self.processed = self.processed + part.processed;
        self.errors = self.errors + part.errors;
    }

    /// The graph and the two counts, processed and errors.
    pub fn into_parts(self) -> (parts: (Debtors, u64, u64))
        ensures
            parts.0@ == self@.result,
            parts.0.wf() == self.wf(),
            parts.1 == self@.processed,
            parts.2 == self@.errors,
    {
        (self.result, self.processed, self.errors)
    }
}

/// The message that tells a worker to stop: an empty buffer.
pub fn sentinel() -> (msg: Vec<u8>)
    ensures
        msg@.len() == 0,
{
    Vec::new()
}

/// A stream handled in line: a framer, and one worker that takes every
/// object as soon as it is complete.
pub struct Pipeline {
    framer: Framer,
    worker: Worker,
}

impl Pipeline {
    /// The framer and the worker are well formed.
    pub closed spec fn wf(&self) -> bool {
        self.framer.wf() && self.worker.wf()
    }

    /// The scanner's state.
    pub closed spec fn scanner(&self) -> ScanState {
        self.framer@
    }

    /// The worker's state.
    pub closed spec fn state(&self) -> WorkerView {
        self.worker@
    }

    /// A pipeline at the start of a stream.
    pub fn new() -> (p: Pipeline)
        ensures
            p.wf(),
            p.scanner() == crate::framer::rest(),
            p.state() == idle(),
    {
        Pipeline { framer: Framer::new(), worker: Worker::new() }
    }

    /// How many records were folded into the graph so far.
    pub fn processed_count(&self) -> (n: u64)
        ensures
            n == self.state().processed,
    {
        self.worker.processed_count()
    }

    /// How many records were skipped as malformed so far.
    pub fn error_count(&self) -> (n: u64)
        ensures
            n == self.state().errors,
    {
        self.worker.error_count()
    }

    /// Whether a chunk of `len` bytes can be fed without a counter running
    /// over.
    pub fn has_room(&self, len: usize) -> (room: bool)
        ensures
            room == (self.state().processed + self.state().errors + len <= u64::MAX),
    {
        let seen: u128 = self.worker.processed_count() as u128 + self.worker.error_count() as u128;
        seen + len as u128 <= u64::MAX as u128
    }

    /// Reads the next chunk of the stream and handles every object that ends
    /// in it, in stream order. Returns the counts to report.
    pub fn feed(&mut self, chunk: &[u8]) -> (reports: Vec<u64>)
        requires
            old(self).wf(),
            old(self).state().processed + old(self).state().errors + chunk@.len() <= u64::MAX,
        ensures
            final(self).wf(),
            final(self).scanner() == scan_state(old(self).scanner(), chunk@),
            final(self).state() == handled_all(
                old(self).state(),
                scan_objects(old(self).scanner(), chunk@),
            ),
            reports@ == reports_over(old(self).state(), scan_objects(old(self).scanner(), chunk@)),
    {
        let ghost start = self.worker@;
        let ghost found = scan_objects(self.framer@, chunk@);
        proof {
            lemma_objects_count(self.framer@, chunk@);
        }
        let objects = self.framer.feed(chunk);
        let mut reports: Vec<u64> = Vec::new();
        let mut i: usize = 0;
        assert(found.take(0) =~= Seq::<Seq<u8>>::empty());
        while i < objects.len()
            invariant
                i <= objects@.len(),
                buffers(objects@) == found,
                found.len() <= chunk@.len(),
                self.framer.wf(),
                self.framer@ == scan_state(old(self).framer@, chunk@),
                self.worker.wf(),
                self.worker@ == handled_all(start, found.take(i as int)),
                reports@ == reports_over(start, found.take(i as int)),
                start.processed + start.errors + chunk@.len() <= u64::MAX,
            decreases objects@.len() - i,
        {
            proof {
                lemma_handled_count(start, found.take(i as int));
                assert(found.take(i + 1).drop_last() =~= found.take(i as int));
                assert(found.take(i + 1).last() == objects@[i as int]@);
            }
            match self.worker.process(objects[i].as_slice()) {
                Some(n) => {
                    reports.push(n);
                },
                None => {},
            }
            i += 1;
        }
        assert(found.take(i as int) =~= found);
        reports
    }

    /// Ends the stream: an object that is still open is dropped. Returns the
    /// worker with what was gathered.
    pub fn finish(self) -> (w: Worker)
        ensures
            w@ == self.state(),
            self.wf() ==> w.wf(),
    {
        self.worker
    }
}

/// No more objects end in a run of bytes than it has bytes.
pub proof fn lemma_objects_count(s: ScanState, bytes: Seq<u8>)
    ensures
        scan_objects(s, bytes).len() <= bytes.len(),
    decreases bytes.len(),
{
    if bytes.len() > 0 {
        lemma_objects_count(s, bytes.drop_last());
    }
}

/// No record is counted twice: the counts of processed records and of
/// errors grow by the number of records at most.
pub proof fn lemma_handled_count(w: WorkerView, records: Seq<Seq<u8>>)
    ensures
        handled_all(w, records).processed + handled_all(w, records).errors <= w.processed
            + w.errors + records.len(),
    decreases records.len(),
{
    if records.len() > 0 {
        lemma_handled_count(w, records.drop_last());
    }
}

/// Every record of the list is a JSON object.
pub open spec fn all_valid(records: Seq<Seq<u8>>) -> bool {
    forall|i: int| 0 <= i < records.len() ==> decoded(#[trigger] records[i]) is Some
}

/// Where every record is a JSON object, every record is processed: the count of
/// processed records grows by their number, and no error is counted.
pub proof fn lemma_all_valid_processed(w: WorkerView, records: Seq<Seq<u8>>)
    requires
        all_valid(records),
    ensures
        handled_all(w, records).processed == w.processed + records.len(),
        handled_all(w, records).errors == w.errors,
    decreases records.len(),
{
    if records.len() > 0 {
        assert(all_valid(records.drop_last())) by {
            assert forall|i: int| 0 <= i < records.drop_last().len() implies decoded(
                #[trigger] records.drop_last()[i],
            ) is Some by {
                assert(records.drop_last()[i] == records[i]);
            }
        }
        lemma_all_valid_processed(w, records.drop_last());
        assert(records.last() == records[records.len() - 1]);
    }
}

/// Handling one list of records and then another is handling the two in a
/// row.
pub proof fn lemma_handled_concat(w: WorkerView, a: Seq<Seq<u8>>, b: Seq<Seq<u8>>)
    ensures
        handled_all(w, a + b) == handled_all(handled_all(w, a), b),
    decreases b.len(),
{
    if b.len() == 0 {
        assert(a + b =~= a);
    } else {
        lemma_handled_concat(w, a, b.drop_last());
        assert((a + b).drop_last() =~= a + b.drop_last());
        assert((a + b).last() == b.last());
    }
}

/// Cutting a stream into chunks changes nothing: the worker that took the
/// objects of one chunk and then those of the next is the worker that took
/// the objects of the two chunks read as one.
pub proof fn lemma_chunks(w: WorkerView, s: ScanState, a: Seq<u8>, b: Seq<u8>)
    ensures
        handled_all(handled_all(w, scan_objects(s, a)), scan_objects(scan_state(s, a), b))
            == handled_all(w, scan_objects(s, a + b)),
{
    lemma_scan_concat(s, a, b);
    lemma_handled_concat(w, scan_objects(s, a), scan_objects(scan_state(s, a), b));
}

/// Every object of a stream is processed: where a stream is made of
/// balanced objects with gaps between them, and every one is a JSON object,
/// the count of processed records is the number of objects, and no error is
/// counted.
pub proof fn lemma_stream_processed(gaps: Seq<Seq<u8>>, objects: Seq<Seq<u8>>)
    requires
        gaps.len() == objects.len() + 1,
        forall|i: int| 0 <= i < gaps.len() ==> is_gap(#[trigger] gaps[i]),
        forall|i: int| 0 <= i < objects.len() ==> is_object(#[trigger] objects[i]),
        all_valid(objects),
    ensures
        handled_all(idle(), frame(interleaved(gaps, objects))).processed == objects.len(),
        handled_all(idle(), frame(interleaved(gaps, objects))).errors == 0,
{
    lemma_frame_stream(gaps, objects);
    lemma_all_valid_processed(idle(), objects);
}

} // verus!
