//! Which worker gets the next record.
//!
//! Records go round the workers in turn. A worker whose queue is full is
//! passed over, and after a whole round of refusals the sender should pause
//! before it tries again. The dispatcher decides only: the caller makes the
//! send and tells the dispatcher how it went.

use vstd::prelude::*;

verus! {

/// A dispatcher in contracts.
pub struct DispatcherView {
    /// The number of workers.
    pub workers: usize,
    /// The worker that was tried last.
    pub cursor: usize,
    /// How many sends were refused in a row since the last pause.
    pub refused: usize,
}

/// The worker after `cursor` in the round.
pub open spec fn next_in_round(workers: usize, cursor: usize) -> usize {
    ((cursor + 1) % (workers as int)) as usize
}

/// The round-robin cursor over the workers of one file.
pub struct Dispatcher {
    workers: usize,
    tid: usize,
    refused: usize,
}

impl View for Dispatcher {
    type V = DispatcherView;

    closed spec fn view(&self) -> DispatcherView {
        DispatcherView { workers: self.workers, cursor: self.tid, refused: self.refused }
    }
}

impl Dispatcher {
    /// The cursor and the count of refusals lie below the number of workers.
    pub open spec fn wf(&self) -> bool {
        self@.cursor < self@.workers && self@.refused < self@.workers
    }

    /// A dispatcher for `workers` workers. The first record goes to worker 1,
    /// or to worker 0 where there is only one.
    pub fn new(workers: usize) -> (d: Dispatcher)
        requires
            workers >= 1,
        ensures
            d.wf(),
            d@ == (DispatcherView { workers, cursor: 0, refused: 0 }),
    {
        Dispatcher { workers, tid: 0, refused: 0 }
    }

    /// Moves on to the next worker in the round and returns its number: the
    /// worker to try now.
    pub fn advance(&mut self) -> (tid: usize)
        requires
            old(self).wf(),
        ensures
            final(self).wf(),
            tid == next_in_round(old(self)@.workers, old(self)@.cursor),
            final(self)@ == (DispatcherView { cursor: tid, ..old(self)@ }),
    {
        self.tid = if self.tid < self.workers - 1 {
            self.tid + 1
        } else {
            0
        };
        assert(self.tid == next_in_round(self.workers, old(self).tid)) by {
            let n = self.workers as int;
            let c = old(self).tid as int;
            if c < n - 1 {
                assert((c + 1) % n == c + 1) by (nonlinear_arith)
                    requires
                        0 <= c + 1 < n,
                ;
            } else {
                assert((c + 1) % n == 0) by (nonlinear_arith)
                    requires
                        c + 1 == n,
                        n > 0,
                ;
            }
        }
        self.tid
    }

    /// Notes that the worker tried last took the record.
    pub fn accepted(&mut self)
        requires
            old(self).wf(),
        ensures
            final(self).wf(),
            final(self)@ == (DispatcherView { refused: 0, ..old(self)@ }),
    {
        self.refused = 0;
    }

    /// Notes that the worker tried last refused the record, and says whether
    /// to pause before the next try: after every whole round of refusals.
    pub fn refused(&mut self) -> (pause: bool)
        requires
            old(self).wf(),
        ensures
            final(self).wf(),
            pause == (old(self)@.refused + 1 == old(self)@.workers),
            final(self)@ == (DispatcherView {
                refused: if pause {
                    0
                } else {
                    (old(self)@.refused + 1) as usize
                },
                ..old(self)@
            }),
    {
        if self.refused + 1 == self.workers {
            self.refused = 0;
            true
        } else {
            self.refused = self.refused + 1;
            false
        }
    }
}

/// The worker that is tried after `tries` tries in a row.
pub open spec fn tried_after(workers: usize, cursor: usize, tries: nat) -> usize
    decreases tries,
{
    if tries == 0 {
        cursor
    } else {
        next_in_round(workers, tried_after(workers, cursor, (tries - 1) as nat))
    }
}

/// The tries go round: the worker tried after `tries` tries is `tries`
/// places further on in the round.
pub proof fn lemma_round(workers: usize, cursor: usize, tries: nat)
    requires
        workers >= 1,
        cursor < workers,
    ensures
        tried_after(workers, cursor, tries) == (cursor + tries) % (workers as int),
        tried_after(workers, cursor, tries) < workers,
    decreases tries,
{
    let n = workers as int;
    if tries == 0 {
        assert(cursor as int % n == cursor) by (nonlinear_arith)
            requires
                0 <= cursor < n,
        ;
    } else {
        lemma_round(workers, cursor, (tries - 1) as nat);
        let prev = tried_after(workers, cursor, (tries - 1) as nat) as int;
        let k = (cursor + tries - 1) as int;
        assert(((k % n) + 1) % n == (k + 1) % n) by (nonlinear_arith)
            requires
                n > 0,
                k >= 0,
        ;
        assert(0 <= (k + 1) % n < n) by (nonlinear_arith)
            requires
                n > 0,
                k >= 0,
        ;
    }
}

/// Within one round no worker is tried twice: two tries less than a round
/// apart go to two workers.
pub proof fn lemma_round_distinct(workers: usize, cursor: usize, first: nat, second: nat)
    requires
        workers >= 1,
        cursor < workers,
        first < second < first + workers,
    ensures
        tried_after(workers, cursor, first) != tried_after(workers, cursor, second),
{
    lemma_round(workers, cursor, first);
    lemma_round(workers, cursor, second);
    let n = workers as int;
    let x = (cursor + first) as int;
    let y = (cursor + second) as int;
    vstd::arithmetic::div_mod::lemma_fundamental_div_mod(x, n);
    vstd::arithmetic::div_mod::lemma_fundamental_div_mod(y, n);
    if x % n == y % n {
        let d = y / n - x / n;
        assert(y - x == n * d) by (nonlinear_arith)
            requires
                x == n * (x / n) + x % n,
                y == n * (y / n) + y % n,
                x % n == y % n,
                d == y / n - x / n,
        ;
        assert(false) by (nonlinear_arith)
            requires
                0 < y - x < n,
                y - x == n * d,
        ;
    }
}

} // verus!
