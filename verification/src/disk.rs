//! What the writer of the log does next: a state machine over the messages it gets and the
//! outcomes of its work on disk.

use vstd::prelude::*;

use crate::checkpoint::{retired, retired_generation};
use crate::collect::{law_log_keeps_step, log_holds};
use crate::dp_map::{with_path, Path, PointKey};
use crate::record::{record_bytes, DpMessage};

verus! {

/// What the writer is at.
#[derive(Clone, Copy, Debug, PartialEq, Eq, Structural)]
pub enum Phase {
    /// It waits for a message.
    Idle,
    /// It writes a record.
    Writing,
    /// It flushes the log.
    Flushing,
    /// It takes what is left in the queue, for a checkpoint.
    Draining { gen: u64, is_final: bool },
    /// It writes a record that was left in the queue.
    DrainWriting { gen: u64, is_final: bool },
    /// It flushes the log, for a checkpoint.
    Syncing { gen: u64, is_final: bool },
    /// It makes a checkpoint.
    Committing { gen: u64, is_final: bool },
    /// It is done.
    Stopped,
}

/// What reaches the writer.
#[derive(Clone, Copy, Debug, PartialEq, Eq, Structural)]
pub enum DiskEvent {
    /// A record came out of the queue.
    Record,
    /// A request to flush came out of the queue.
    LocalFlush,
    /// A request for a checkpoint came out of the queue.
    Barrier { gen: u64, is_final: bool },
    /// There is nothing in the queue.
    Nothing,
    /// Nothing will come any more.
    Closed,
    /// The work in hand is done, or has failed.
    Done(bool),
}

/// What the writer does next.
#[derive(Clone, Copy, Debug, PartialEq, Eq, Structural)]
pub enum DiskAction {
    /// Wait for a message.
    Receive,
    /// Write the record that came.
    Write,
    /// Flush the log and have it on disk.
    Sync,
    /// Look whether there is a message.
    Poll,
    /// Make the checkpoint of a generation, with the sequence number that is due next.
    Commit { gen: u64, seq: u64 },
    /// Stop, after a flush if the log is sound.
    Finish { sync: bool },
}

/// What comes of an event.
#[derive(Clone, Copy, Debug, PartialEq, Eq)]
pub struct DiskReply {
    /// The search is to end, because the log cannot be written.
    pub halt: bool,
    /// The checkpoint that is given up.
    pub retire: Option<u64>,
    /// The answer to a request for a checkpoint.
    pub ack: Option<(u64, bool)>,
    /// What to do next.
    pub action: DiskAction,
}

/// The writer of the log.
#[derive(Clone, Copy, Debug, PartialEq, Eq, Structural)]
pub struct DiskState {
    pub phase: Phase,
    /// The sequence number of the next record.
    pub seq: u64,
    /// The log could not be written at some point.
    pub failed: bool,
}

/// What a writer in this state is to do.
pub open spec fn work_of(s: DiskState) -> DiskAction {
    match s.phase {
        Phase::Idle => DiskAction::Receive,
        Phase::Writing => DiskAction::Write,
        Phase::Flushing => DiskAction::Sync,
        Phase::Draining { .. } => DiskAction::Poll,
        Phase::DrainWriting { .. } => DiskAction::Write,
        Phase::Syncing { .. } => DiskAction::Sync,
        Phase::Committing { gen, .. } => DiskAction::Commit { gen, seq: s.seq },
        Phase::Stopped => DiskAction::Finish { sync: !s.failed },
    }
}

/// Where a request for a checkpoint leaves off: the writer stops after the last one.
pub open spec fn after_barrier(is_final: bool) -> Phase {
    if is_final {
        Phase::Stopped
    } else {
        Phase::Idle
    }
}

/// The phase after an event.
pub open spec fn next_phase(s: DiskState, e: DiskEvent) -> Phase {
    match (s.phase, e) {
        (Phase::Idle, DiskEvent::Record) => if s.failed {
            Phase::Idle
        } else {
            Phase::Writing
        },
        (Phase::Idle, DiskEvent::LocalFlush) => if s.failed {
            Phase::Idle
        } else {
            Phase::Flushing
        },
        (Phase::Idle, DiskEvent::Barrier { gen, is_final }) => if s.failed {
            after_barrier(is_final)
        } else {
            Phase::Draining { gen, is_final }
        },
        (Phase::Idle, DiskEvent::Closed) => Phase::Stopped,
        (Phase::Writing, DiskEvent::Done(_)) => Phase::Idle,
        (Phase::Flushing, DiskEvent::Done(_)) => Phase::Idle,
        (Phase::Draining { gen, is_final }, DiskEvent::Record) => Phase::DrainWriting {
            gen,
            is_final,
        },
        (Phase::Draining { gen, is_final }, DiskEvent::Nothing) => if s.failed {
            after_barrier(is_final)
        } else {
            Phase::Syncing { gen, is_final }
        },
        (Phase::DrainWriting { gen, is_final }, DiskEvent::Done(_)) => Phase::Draining {
            gen,
            is_final,
        },
        (Phase::Syncing { gen, is_final }, DiskEvent::Done(ok)) => if ok {
            Phase::Committing { gen, is_final }
        } else {
            after_barrier(is_final)
        },
        (Phase::Committing { is_final, .. }, DiskEvent::Done(_)) => after_barrier(is_final),
        _ => s.phase,
    }
}

/// The event says that the log could not be written. A checkpoint that cannot be made leaves the
/// log sound.
pub open spec fn breaks_log(s: DiskState, e: DiskEvent) -> bool {
    e == DiskEvent::Done(false) && (s.phase is Writing || s.phase is Flushing
        || s.phase is DrainWriting || s.phase is Syncing)
}

/// The event says that a record was written.
pub open spec fn writes_record(s: DiskState, e: DiskEvent) -> bool {
    e == DiskEvent::Done(true) && (s.phase is Writing || s.phase is DrainWriting)
}

/// The event shows that the checkpoint in hand cannot be made, because the log is broken.
pub open spec fn gives_up(s: DiskState, e: DiskEvent) -> bool {
    ||| s.phase is Draining && e is Nothing && s.failed
    ||| s.phase is Syncing && e == DiskEvent::Done(false)
}

/// The answer that an event brings. A broken log is told of only to the last request.
pub open spec fn answer_of(s: DiskState, e: DiskEvent) -> Option<(u64, bool)> {
    match (s.phase, e) {
        (Phase::Idle, DiskEvent::Barrier { gen, is_final }) => if s.failed && is_final {
            Some((gen, false))
        } else {
            None
        },
        (Phase::Draining { gen, is_final }, _) => if gives_up(s, e) && is_final {
            Some((gen, false))
        } else {
            None
        },
        (Phase::Syncing { gen, is_final }, _) => if gives_up(s, e) && is_final {
            Some((gen, false))
        } else {
            None
        },
        (Phase::Committing { gen, .. }, DiskEvent::Done(ok)) => Some((gen, ok)),
        _ => None,
    }
}

/// The checkpoint that an event makes superfluous.
pub open spec fn retired_by(s: DiskState, e: DiskEvent) -> Option<u64> {
    match (s.phase, e) {
        (Phase::Committing { gen, .. }, DiskEvent::Done(true)) => retired(gen),
        _ => None,
    }
}

/// The state after an event.
pub open spec fn next_state(s: DiskState, e: DiskEvent) -> DiskState {
    DiskState {
        phase: next_phase(s, e),
        seq: if writes_record(s, e) {
            (s.seq + 1) as u64
        } else {
            s.seq
        },
        failed: s.failed || breaks_log(s, e),
    }
}

/// What comes of an event. A failure to write ends the search at once, but for one while the
/// queue is drained, which ends it when the queue is empty.
pub open spec fn reply_to(s: DiskState, e: DiskEvent) -> DiskReply {
    DiskReply {
        halt: gives_up(s, e) || (breaks_log(s, e) && !(s.phase is DrainWriting)),
        retire: retired_by(s, e),
        ack: answer_of(s, e),
        action: work_of(next_state(s, e)),
    }
}

impl DiskState {
    /// A log that is broken is neither written nor made a checkpoint of, but for records that are
    /// left in the queue when it breaks.
    pub open spec fn wf(&self) -> bool {
        self.failed ==> !(self.phase is Writing || self.phase is Flushing || self.phase is Syncing
            || self.phase is Committing)
    }

    /// A writer that waits for its first message, with the sequence number of the next record.
    pub fn new(seq: u64) -> (r: DiskState)
        ensures
            r.wf(),
            r.phase is Idle,
            r.seq == seq,
            !r.failed,
    {
        DiskState { phase: Phase::Idle, seq, failed: false }
    }

    /// What the writer is to do in its present state.
    pub fn work(&self) -> (r: DiskAction)
        ensures
            r == work_of(*self),
    {
        match self.phase {
            Phase::Idle => DiskAction::Receive,
            Phase::Writing => DiskAction::Write,
            Phase::Flushing => DiskAction::Sync,
            Phase::Draining { .. } => DiskAction::Poll,
            Phase::DrainWriting { .. } => DiskAction::Write,
            Phase::Syncing { .. } => DiskAction::Sync,
            Phase::Committing { gen, .. } => DiskAction::Commit { gen, seq: self.seq },
            Phase::Stopped => DiskAction::Finish { sync: !self.failed },
        }
    }

    fn leave_barrier(&mut self, is_final: bool)
        ensures
            *final(self) == (DiskState { phase: after_barrier(is_final), ..*old(self) }),
    {
        self.phase = if is_final {
            Phase::Stopped
        } else {
            Phase::Idle
        };
    }

    /// Takes an event: what comes of it, and what to do next. An event that does not belong to
    /// the work in hand changes nothing.
    pub fn step(&mut self, event: DiskEvent) -> (r: DiskReply)
        requires
            old(self).wf(),
            writes_record(*old(self), event) ==> old(self).seq < u64::MAX,
        ensures
            *final(self) == next_state(*old(self), event),
            final(self).wf(),
            r == reply_to(*old(self), event),
    {
        let mut halt: bool = false;
        let mut retire: Option<u64> = None;
        let mut ack: Option<(u64, bool)> = None;
        match (self.phase, event) {
            (Phase::Idle, DiskEvent::Record) => {
                if !self.failed {
                    self.phase = Phase::Writing;
                }
            },
            (Phase::Idle, DiskEvent::LocalFlush) => {
                if !self.failed {
                    self.phase = Phase::Flushing;
                }
            },
            (Phase::Idle, DiskEvent::Barrier { gen, is_final }) => {
                if self.failed {
                    if is_final {
                        ack = Some((gen, false));
                    }
                    self.leave_barrier(is_final);
                } else {
                    self.phase = Phase::Draining { gen, is_final };
                }
            },
            (Phase::Idle, DiskEvent::Closed) => {
                self.phase = Phase::Stopped;
            },
            (Phase::Writing, DiskEvent::Done(ok)) => {
                if ok {
                    self.seq = self.seq + 1;
                } else {
                    self.failed = true;
                    halt = true;
                }
                self.phase = Phase::Idle;
            },
            (Phase::Flushing, DiskEvent::Done(ok)) => {
                if !ok {
                    self.failed = true;
                    halt = true;
                }
                self.phase = Phase::Idle;
            },
            (Phase::Draining { gen, is_final }, DiskEvent::Record) => {
                self.phase = Phase::DrainWriting { gen, is_final };
            },
            (Phase::Draining { gen, is_final }, DiskEvent::Nothing) => {
                if self.failed {
                    halt = true;
                    if is_final {
                        ack = Some((gen, false));
                    }
                    self.leave_barrier(is_final);
                } else {
                    self.phase = Phase::Syncing { gen, is_final };
                }
            },
            (Phase::DrainWriting { gen, is_final }, DiskEvent::Done(ok)) => {
                if ok {
                    self.seq = self.seq + 1;
                } else {
                    self.failed = true;
                }
                self.phase = Phase::Draining { gen, is_final };
            },
            (Phase::Syncing { gen, is_final }, DiskEvent::Done(ok)) => {
                if ok {
                    self.phase = Phase::Committing { gen, is_final };
                } else {
                    self.failed = true;
                    halt = true;
                    if is_final {
                        ack = Some((gen, false));
                    }
                    self.leave_barrier(is_final);
                }
            },
            (Phase::Committing { gen, is_final }, DiskEvent::Done(ok)) => {
                if ok {
                    retire = retired_generation(gen);
                }
                ack = Some((gen, ok));
                self.leave_barrier(is_final);
            },
            _ => {},
        }
        DiskReply { halt, retire, ack, action: self.work() }
    }
}

/// A broken log stays so, and no checkpoint is reported as made after it broke.
pub proof fn law_broken_log_is_never_committed(s: DiskState, e: DiskEvent)
    requires
        s.wf(),
        s.failed,
    ensures
        next_state(s, e).failed,
        next_state(s, e).wf(),
        !(reply_to(s, e).action is Commit),
        reply_to(s, e).ack matches Some((_, made)) ==> !made,
        reply_to(s, e).retire is None,
{
}

/// A checkpoint is reported as made only when it was, and an old one is given up only then.
pub proof fn law_checkpoint_is_made_before_it_is_reported(s: DiskState, e: DiskEvent, gen: u64)
    requires
        s.wf(),
        reply_to(s, e).ack == Some((gen, true)) || reply_to(s, e).retire is Some,
    ensures
        s.phase is Committing,
        e == DiskEvent::Done(true),
        work_of(s) is Commit,
        reply_to(s, e).ack == Some((s.phase->Committing_gen, true)),
{
}

/// The request for a checkpoint that the writer is at.
pub open spec fn barrier_of(p: Phase) -> Option<(u64, bool)> {
    match p {
        Phase::Draining { gen, is_final } => Some((gen, is_final)),
        Phase::DrainWriting { gen, is_final } => Some((gen, is_final)),
        Phase::Syncing { gen, is_final } => Some((gen, is_final)),
        Phase::Committing { gen, is_final } => Some((gen, is_final)),
        _ => None,
    }
}

/// The last request for a checkpoint is answered exactly once, for its own generation, and then
/// the writer stops; until it is answered the writer is at it.
pub proof fn law_last_barrier_is_answered(s: DiskState, e: DiskEvent, gen: u64)
    requires
        s.wf(),
        barrier_of(s.phase) == Some((gen, true)) || (s.phase is Idle && e == (
        DiskEvent::Barrier { gen, is_final: true })),
    ensures
        ({
            let next = next_state(s, e);
            let ack = reply_to(s, e).ack;
            match ack {
                None => barrier_of(next.phase) == Some((gen, true)),
                Some((answered, _)) => answered == gen && next.phase is Stopped,
            }
        }),
{
}

/// A writer that has stopped stays so, and answers nothing.
pub proof fn law_stopped_is_the_end(s: DiskState, e: DiskEvent)
    requires
        s.phase is Stopped,
    ensures
        next_state(s, e) == s,
        reply_to(s, e).ack is None,
        !reply_to(s, e).halt,
{
}

/// The writer keeps step with the log: once the record with the number that is due is written,
/// the log holds it, and the next number is due.
pub proof fn law_writer_keeps_step(
    s: DiskState,
    e: DiskEvent,
    log: Seq<u8>,
    map: Map<PointKey, Seq<Path>>,
    points: nat,
    msg: DpMessage,
)
    requires
        s.seq < u64::MAX,
        writes_record(s, e),
        log_holds(log, map, s.seq as nat, points),
    ensures
        log_holds(
            log + record_bytes(s.seq as nat, msg.key.limbs(), msg.path()),
            with_path(map, msg.key.limbs(), msg.path()),
            next_state(s, e).seq as nat,
            points + 1,
        ),
{
    law_log_keeps_step(log, map, s.seq, points, msg);
}

/// A failure to write the log ends the search: at once, or, while the queue is drained, when it
/// is found empty.
pub proof fn law_failure_halts(s: DiskState, e: DiskEvent)
    requires
        s.wf(),
        breaks_log(s, e),
    ensures
        next_state(s, e).failed,
        reply_to(s, e).halt || (next_state(s, e).phase is Draining && reply_to(
            next_state(s, e),
            DiskEvent::Nothing,
        ).halt),
{
}

/// A sound writer does what it is asked: a record that comes is written, a request to flush is
/// followed by a flush, and one for a checkpoint by draining the queue, a flush and the
/// checkpoint, with the number that is due.
pub proof fn law_sound_writer_serves(s: DiskState, gen: u64, is_final: bool)
    requires
        !s.failed,
    ensures
        s.phase is Idle ==> reply_to(s, DiskEvent::Record).action is Write,
        s.phase is Idle ==> reply_to(s, DiskEvent::LocalFlush).action is Sync,
        s.phase is Idle ==> reply_to(s, DiskEvent::Barrier { gen, is_final }).action is Poll
            && barrier_of(next_state(s, DiskEvent::Barrier { gen, is_final }).phase) == Some(
            (gen, is_final),
        ),
        s.phase is Idle ==> reply_to(s, DiskEvent::Closed).action == (DiskAction::Finish {
            sync: true,
        }),
        s.phase == (Phase::Draining { gen, is_final }) ==> reply_to(
            s,
            DiskEvent::Nothing,
        ).action is Sync && next_state(s, DiskEvent::Nothing).phase == (Phase::Syncing {
            gen,
            is_final,
        }),
        s.phase == (Phase::Syncing { gen, is_final }) ==> reply_to(
            s,
            DiskEvent::Done(true),
        ).action == (DiskAction::Commit { gen, seq: s.seq }),
        s.phase == (Phase::Committing { gen, is_final }) ==> reply_to(
            s,
            DiskEvent::Done(true),
        ).ack == Some((gen, true)) && reply_to(s, DiskEvent::Done(false)).ack == Some((gen, false)),
        s.phase == (Phase::Committing { gen, is_final: false }) ==> reply_to(
            s,
            DiskEvent::Done(true),
        ).action is Receive && reply_to(s, DiskEvent::Done(false)).action is Receive,
        s.phase == (Phase::Committing { gen, is_final }) ==> reply_to(
            s,
            DiskEvent::Done(true),
        ).retire == if gen > 3 {
            Some((gen - 3) as u64)
        } else {
            None
        },
{
}

/// While the queue is drained, sound log or not, each record in it is written, and other messages
/// are passed over.
pub proof fn law_queue_is_drained(s: DiskState, e: DiskEvent)
    requires
        s.phase is Draining,
    ensures
        e is Record ==> reply_to(s, e).action is Write && barrier_of(next_state(s, e).phase)
            == barrier_of(s.phase),
        e is LocalFlush || e is Barrier ==> reply_to(s, e).action is Poll && next_state(s, e) == s,
        !(e is Nothing) ==> reply_to(s, e).ack is None && !reply_to(s, e).halt,
{
}

/// After a write the writer goes on where it was: it waits for a message, or looks into the queue
/// again; after a flush it waits for a message.
pub proof fn law_writer_goes_on(s: DiskState, ok: bool)
    ensures
        s.phase is Writing || s.phase is Flushing ==> reply_to(
            s,
            DiskEvent::Done(ok),
        ).action is Receive && reply_to(s, DiskEvent::Done(ok)).ack is None,
        s.phase is DrainWriting ==> reply_to(s, DiskEvent::Done(ok)).action is Poll && barrier_of(
            next_state(s, DiskEvent::Done(ok)).phase,
        ) == barrier_of(s.phase),
{
}

/// The number that is due goes up by one with each record that was written, and by nothing else;
/// and the log counts as broken from the first write or flush on that fails, and through nothing
/// else.
pub proof fn law_what_the_writer_counts(s: DiskState, e: DiskEvent)
    requires
        s.seq < u64::MAX,
    ensures
        ({
            let at_work = work_of(s) is Write || work_of(s) is Sync;
            let next = next_state(s, e);
            &&& next.seq == s.seq + (if work_of(s) is Write && e == DiskEvent::Done(true) {
                1int
            } else {
                0int
            })
            &&& next.failed <==> s.failed || (at_work && e == DiskEvent::Done(false))
        }),
{
}

/// A writer with a broken log that waits for messages passes over all of them, but for the last
/// request for a checkpoint, which it answers with a failure, and the end of the queue. It stops
/// without a flush.
pub proof fn law_broken_writer_passes_over(s: DiskState, gen: u64)
    requires
        s.phase is Idle,
        s.failed,
    ensures
        next_state(s, DiskEvent::Record) == s,
        next_state(s, DiskEvent::LocalFlush) == s,
        next_state(s, DiskEvent::Barrier { gen, is_final: false }) == s,
        reply_to(s, DiskEvent::Barrier { gen, is_final: false }).ack is None,
        reply_to(s, DiskEvent::Barrier { gen, is_final: true }).ack == Some((gen, false)),
        reply_to(s, DiskEvent::Barrier { gen, is_final: true }).action == (DiskAction::Finish {
            sync: false,
        }),
        reply_to(s, DiskEvent::Closed).action == (DiskAction::Finish { sync: false }),
{
}

/// The search is told to end exactly when a write or a flush outside of draining fails, or the
/// queue is found empty after a write from it has failed.
pub proof fn law_when_the_search_ends(s: DiskState, e: DiskEvent)
    ensures
        reply_to(s, e).halt <==> (e == DiskEvent::Done(false) && (s.phase is Writing
            || s.phase is Flushing || s.phase is Syncing)) || (e is Nothing && s.phase is Draining
            && s.failed),
{
}

/// A checkpoint that cannot be made because the log broke is answered only if it is the last; a
/// periodic one is then given up without an answer.
pub proof fn law_broken_checkpoint_is_answered_if_last(s: DiskState, gen: u64, is_final: bool)
    ensures
        s.phase == (Phase::Syncing { gen, is_final }) ==> reply_to(
            s,
            DiskEvent::Done(false),
        ).ack == if is_final {
            Some((gen, false))
        } else {
            None
        },
        s.phase == (Phase::Draining { gen, is_final }) && s.failed ==> reply_to(
            s,
            DiskEvent::Nothing,
        ).ack == if is_final {
            Some((gen, false))
        } else {
            None
        },
        (s.phase == (Phase::Syncing { gen, is_final: false })) ==> next_state(
            s,
            DiskEvent::Done(false),
        ).phase is Idle,
        (s.phase == (Phase::Draining { gen, is_final: false })) && s.failed ==> next_state(
            s,
            DiskEvent::Nothing,
        ).phase is Idle,
{
}

/// An event that does not belong to the work in hand changes nothing and brings nothing.
pub proof fn law_stray_events_are_passed_over(s: DiskState, e: DiskEvent)
    requires
        ({
            ||| s.phase is Idle && (e is Nothing || e is Done)
            ||| s.phase is Draining && (e is Closed || e is Done)
            ||| !(s.phase is Idle || s.phase is Draining || e is Done)
        }),
    ensures
        next_state(s, e) == s,
        reply_to(s, e).ack is None,
        reply_to(s, e).retire is None,
        !reply_to(s, e).halt,
{
}

} // verus!
