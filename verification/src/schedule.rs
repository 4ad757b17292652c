//! When the log is flushed, when a checkpoint is made, and when progress is reported.
//!
//! Times are in nanoseconds from a common origin.

use vstd::prelude::*;

verus! {

/// How long after a flush of the log the next one is due.
pub const FLUSH_AFTER: u64 = 60_000_000_000;

/// How long after a checkpoint the next one is due.
pub const CHECKPOINT_AFTER: u64 = 300_000_000_000;

/// How long after a checkpoint has failed it is tried again.
pub const RETRY_AFTER: u64 = 60_000_000_000;

/// How long after a report of progress the next one is due.
pub const REPORT_AFTER: u64 = 30_000_000_000;

/// What is due, and when.
#[derive(Clone, Copy, Debug)]
pub struct Schedule {
    pub flush_at: u128,
    pub checkpoint_at: u128,
    pub report_at: u128,
    /// The generation of the next checkpoint.
    pub current_gen: u64,
    /// The checkpoint that was asked for and is not answered yet.
    pub pending: Option<u64>,
}

impl Schedule {
    /// What is waited for is the checkpoint of the current generation.
    pub open spec fn wf(&self) -> bool {
        self.pending is Some ==> self.pending == Some(self.current_gen)
    }

    /// A schedule from a point in time on.
    pub fn new(current_gen: u64, now: u64) -> (r: Schedule)
        ensures
            r.wf(),
            r.flush_at == now + FLUSH_AFTER,
            r.checkpoint_at == now + CHECKPOINT_AFTER,
            r.report_at == now + REPORT_AFTER,
            r.current_gen == current_gen,
            r.pending is None,
    {
        Schedule {
            flush_at: now as u128 + FLUSH_AFTER as u128,
            checkpoint_at: now as u128 + CHECKPOINT_AFTER as u128,
            report_at: now as u128 + REPORT_AFTER as u128,
            current_gen,
            pending: None,
        }
    }

    /// Whether a flush of the log is due.
    pub fn flush_due(&self, now: u64) -> (r: bool)
        ensures
            r == (now >= self.flush_at),
    {
        now as u128 >= self.flush_at
    }

    /// Notes that a flush was asked for.
    pub fn flush_sent(&mut self, now: u64)
        ensures
            *final(self) == (Schedule { flush_at: (now + FLUSH_AFTER) as u128, ..*old(self) }),
    {
        self.flush_at = now as u128 + FLUSH_AFTER as u128;
    }

    /// The checkpoint that is due.
    pub open spec fn due(&self, now: u64) -> Option<u64> {
        if self.pending is None && now >= self.checkpoint_at {
            Some(self.current_gen)
        } else {
            None
        }
    }

    /// The generation of the checkpoint that is due; none while one is waited for.
    pub fn checkpoint_due(&self, now: u64) -> (r: Option<u64>)
        ensures
            r == self.due(now),
    {
        if self.pending.is_none() && now as u128 >= self.checkpoint_at {
            Some(self.current_gen)
        } else {
            None
        }
    }

    /// Notes that the checkpoint of the current generation was asked for.
    pub fn checkpoint_sent(&mut self)
        ensures
            *final(self) == (Schedule { pending: Some(old(self).current_gen), ..*old(self) }),
            final(self).wf(),
    {
        self.pending = Some(self.current_gen);
    }

    /// An answer says that the checkpoint that is waited for was made.
    pub open spec fn confirms(&self, gen: u64, success: bool) -> bool {
        self.pending == Some(gen) && success
    }

    /// The schedule after an answer to a checkpoint.
    pub open spec fn answered(self, gen: u64, success: bool, at: u64) -> Schedule {
        if self.confirms(gen, success) {
            Schedule {
                current_gen: (self.current_gen + 1) as u64,
                checkpoint_at: (at + CHECKPOINT_AFTER) as u128,
                pending: None,
                ..self
            }
        } else {
            Schedule { checkpoint_at: (at + RETRY_AFTER) as u128, pending: None, ..self }
        }
    }

    /// Takes the answer to a checkpoint. The generation moves on only if the checkpoint that was
    /// waited for was made; else it is tried again sooner.
    pub fn acknowledged(&mut self, gen: u64, success: bool, at: u64)
        requires
            old(self).wf(),
            old(self).confirms(gen, success) ==> old(self).current_gen < u64::MAX,
        ensures
            *final(self) == old(self).answered(gen, success, at),
            final(self).wf(),
    {
        let expected: bool = match self.pending {
            Some(expected_gen) => expected_gen == gen,
            None => false,
        };
        if expected && success {
            self.current_gen = self.current_gen + 1;
            self.checkpoint_at = at as u128 + CHECKPOINT_AFTER as u128;
        } else {
            self.checkpoint_at = at as u128 + RETRY_AFTER as u128;
        }
        self.pending = None;
    }

    /// The generation of the last checkpoint of a run, given the answer to the checkpoint that was
    /// still waited for, if there is one.
    pub fn final_generation(&self, answer: Option<(u64, bool)>) -> (r: u64)
        requires
            self.wf(),
            answer matches Some((gen, success)) ==> self.confirms(gen, success)
                ==> self.current_gen < u64::MAX,
        ensures
            r == match answer {
                Some((gen, success)) if self.confirms(gen, success) => self.current_gen + 1,
                _ => self.current_gen as int,
            },
    {
        match (self.pending, answer) {
            (Some(expected_gen), Some((gen, success))) => {
                if gen == expected_gen && success {
                    self.current_gen + 1
                } else {
                    self.current_gen
                }
            },
            _ => self.current_gen,
        }
    }

    /// Whether a report of progress is due.
    pub fn report_due(&self, now: u64) -> (r: bool)
        ensures
            r == (now >= self.report_at),
    {
        now as u128 >= self.report_at
    }

    /// Notes that progress was reported.
    pub fn reported(&mut self, now: u64)
        ensures
            *final(self) == (Schedule { report_at: (now + REPORT_AFTER) as u128, ..*old(self) }),
    {
        self.report_at = now as u128 + REPORT_AFTER as u128;
    }
}

/// Whether an answer says that the last checkpoint of a run was made.
pub fn final_checkpoint_made(current_gen: u64, gen: u64, success: bool) -> (r: bool)
    ensures
        r == (gen == current_gen && success),
{
    gen == current_gen && success
}

/// Once a checkpoint has been asked for, none is due before its answer has come.
pub proof fn law_one_checkpoint_at_a_time(s: Schedule, gen: u64, now: u64)
    ensures
        (Schedule { pending: Some(gen), ..s }).due(now) is None,
{
}

/// A checkpoint that failed is tried again, under the same generation, after its wait; one that
/// was made is followed by the next generation's after the longer wait.
pub proof fn law_checkpoint_follows(s: Schedule, gen: u64, success: bool, at: u64, now: u64)
    requires
        s.wf(),
        s.pending is Some,
        s.current_gen < u64::MAX,
    ensures
        ({
            let next = s.answered(gen, success, at);
            if success && gen == s.current_gen {
                &&& next.due(now) is Some <==> now >= at + CHECKPOINT_AFTER
                &&& next.due(now) is Some ==> next.due(now) == Some((s.current_gen + 1) as u64)
            } else {
                &&& next.due(now) is Some <==> now >= at + RETRY_AFTER
                &&& next.due(now) is Some ==> next.due(now) == Some(s.current_gen)
            }
        }),
{
}

/// How sending a message ended.
#[derive(Clone, Copy, Debug, PartialEq, Eq, Structural)]
pub enum SendOutcome {
    /// It was taken.
    Sent,
    /// The queue stayed full for as long as was waited.
    TimedOut,
    /// Nobody takes messages any more.
    Disconnected,
}

/// Whether a message is sent once more: only if the queue was full, and the search goes on.
pub fn sends_again(outcome: SendOutcome, running: bool) -> (r: bool)
    ensures
        r == (outcome is TimedOut && running),
{
    match outcome {
        SendOutcome::TimedOut => running,
        SendOutcome::Sent => false,
        SendOutcome::Disconnected => false,
    }
}

/// The sum of counts.
pub open spec fn sum_of(counts: Seq<u64>) -> nat
    decreases counts.len(),
{
    if counts.len() == 0 {
        0
    } else {
        sum_of(counts.drop_last()) + counts.last() as nat
    }
}

/// How many hops all the workers have made.
pub fn total_hops(counts: &Vec<u64>) -> (r: u128)
    ensures
        r == sum_of(counts@),
{
    let mut total: u128 = 0;
    let n: usize = counts.len();
    let mut i: usize = 0;
    assert(counts@.take(0) =~= Seq::<u64>::empty());
    while i < n
        invariant
            i <= n,
            n == counts@.len(),
            total == sum_of(counts@.take(i as int)),
            total <= i * u64::MAX,
        decreases n - i,
    {
        proof {
            assert(counts@.take(i + 1).drop_last() =~= counts@.take(i as int));
            assert(i * u64::MAX + u64::MAX == (i + 1) * u64::MAX) by (nonlinear_arith);
            assert((i + 1) * u64::MAX <= u128::MAX) by (nonlinear_arith)
                requires
                    i < usize::MAX,
            ;
        }
        total = total + counts[i] as u128;
        i = i + 1;
    }
    assert(counts@.take(i as int) =~= counts@);
    total
}

/// The waits: a minute between flushes, five minutes between checkpoints, one minute before a
/// failed checkpoint is tried again, and half a minute between reports.
pub proof fn law_waits()
    ensures
        FLUSH_AFTER == 60 * 1_000_000_000,
        CHECKPOINT_AFTER == 300 * 1_000_000_000,
        RETRY_AFTER == 60 * 1_000_000_000,
        REPORT_AFTER == 30 * 1_000_000_000,
{
}

/// A checkpoint is due as soon as its time has come, under the current generation, unless one is
/// waited for.
pub proof fn law_checkpoint_comes_due(s: Schedule, now: u64)
    ensures
        s.pending is Some ==> s.due(now) is None,
        s.pending is None && now >= s.checkpoint_at ==> s.due(now) == Some(s.current_gen),
        s.pending is None && now < s.checkpoint_at ==> s.due(now) is None,
{
}

/// An answer ends the wait, counts a generation exactly if it confirms the one that is waited for,
/// and leaves flushes and reports alone.
pub proof fn law_answer_ends_the_wait(s: Schedule, gen: u64, success: bool, at: u64)
    requires
        s.current_gen < u64::MAX,
    ensures
        ({
            let next = s.answered(gen, success, at);
            let made = success && s.pending == Some(gen);
            &&& next.pending is None
            &&& next.flush_at == s.flush_at
            &&& next.report_at == s.report_at
            &&& next.current_gen == s.current_gen + (if made {
                1int
            } else {
                0int
            })
            &&& next.checkpoint_at == at + (if made {
                300_000_000_000int
            } else {
                60_000_000_000int
            })
        }),
{
}

/// Sums add up: of nothing it is zero, of one count that count, and of two lists the two sums.
pub proof fn law_sums_add_up(a: Seq<u64>, b: Seq<u64>, x: u64)
    ensures
        sum_of(Seq::empty()) == 0,
        sum_of(seq![x]) == x,
        sum_of(a + b) == sum_of(a) + sum_of(b),
    decreases b.len(),
{
    assert(seq![x].drop_last() =~= Seq::<u64>::empty());
    assert(sum_of(seq![x].drop_last()) == 0);
    if b.len() == 0 {
        assert(a + b =~= a);
    } else {
        law_sums_add_up(a, b.drop_last(), x);
        assert((a + b).drop_last() =~= a + b.drop_last());
        assert((a + b).last() == b.last());
    }
}

/// An answer confirms a checkpoint if it is a success and names the one that is waited for.
pub proof fn law_what_confirms(s: Schedule, gen: u64, success: bool)
    ensures
        s.confirms(gen, success) <==> success && s.pending == Some(gen),
{
}

} // verus!
