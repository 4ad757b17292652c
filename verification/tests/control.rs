use kangputus::disk::{DiskAction, DiskEvent, DiskState, Phase};
use kangputus::schedule::{
    final_checkpoint_made, sends_again, total_hops, Schedule, SendOutcome, CHECKPOINT_AFTER,
    FLUSH_AFTER, REPORT_AFTER, RETRY_AFTER,
};

const SECOND: u64 = 1_000_000_000;

#[test]
fn waits_in_seconds() {
    assert_eq!(FLUSH_AFTER, 60 * SECOND);
    assert_eq!(CHECKPOINT_AFTER, 300 * SECOND);
    assert_eq!(RETRY_AFTER, 60 * SECOND);
    assert_eq!(REPORT_AFTER, 30 * SECOND);
}

#[test]
fn flushes_and_reports_recur() {
    let mut s = Schedule::new(1, 5);
    assert!(!s.flush_due(60 * SECOND + 4));
    assert!(s.flush_due(60 * SECOND + 5));
    s.flush_sent(70 * SECOND);
    assert!(!s.flush_due(129 * SECOND));
    assert!(s.flush_due(130 * SECOND));
    assert!(!s.report_due(30 * SECOND + 4));
    assert!(s.report_due(30 * SECOND + 5));
    s.reported(31 * SECOND);
    assert!(!s.report_due(60 * SECOND));
    assert!(s.report_due(61 * SECOND));
}

#[test]
fn one_checkpoint_at_a_time() {
    let mut s = Schedule::new(7, 0);
    assert_eq!(s.checkpoint_due(300 * SECOND - 1), None);
    assert_eq!(s.checkpoint_due(300 * SECOND), Some(7));
    s.checkpoint_sent();
    assert_eq!(s.pending, Some(7));
    assert_eq!(s.checkpoint_due(900 * SECOND), None);
}

#[test]
fn a_made_checkpoint_is_followed_by_the_next_generation() {
    let mut s = Schedule::new(7, 0);
    s.checkpoint_sent();
    s.acknowledged(7, true, 310 * SECOND);
    assert_eq!(s.current_gen, 8);
    assert_eq!(s.checkpoint_due(610 * SECOND - 1), None);
    assert_eq!(s.checkpoint_due(610 * SECOND), Some(8));
}

#[test]
fn a_failed_checkpoint_is_tried_again_sooner() {
    let mut s = Schedule::new(7, 0);
    s.checkpoint_sent();
    s.acknowledged(7, false, 310 * SECOND);
    assert_eq!(s.current_gen, 7);
    assert_eq!(s.pending, None);
    assert_eq!(s.checkpoint_due(370 * SECOND - 1), None);
    assert_eq!(s.checkpoint_due(370 * SECOND), Some(7));
}

#[test]
fn an_answer_for_another_generation_does_not_count() {
    let mut s = Schedule::new(7, 0);
    s.checkpoint_sent();
    s.acknowledged(6, true, 310 * SECOND);
    assert_eq!(s.current_gen, 7);
    assert_eq!(s.checkpoint_due(370 * SECOND), Some(7));
}

#[test]
fn the_last_generation() {
    let mut s = Schedule::new(7, 0);
    assert_eq!(s.final_generation(None), 7);
    assert_eq!(s.final_generation(Some((7, true))), 7);
    s.checkpoint_sent();
    assert_eq!(s.final_generation(None), 7);
    assert_eq!(s.final_generation(Some((7, true))), 8);
    assert_eq!(s.final_generation(Some((7, false))), 7);
    assert_eq!(s.final_generation(Some((6, true))), 7);
    assert!(final_checkpoint_made(8, 8, true));
    assert!(!final_checkpoint_made(8, 7, true));
    assert!(!final_checkpoint_made(8, 8, false));
}

#[test]
fn only_a_full_queue_is_tried_again() {
    assert!(sends_again(SendOutcome::TimedOut, true));
    assert!(!sends_again(SendOutcome::TimedOut, false));
    assert!(!sends_again(SendOutcome::Sent, true));
    assert!(!sends_again(SendOutcome::Disconnected, true));
}

#[test]
fn the_last_number_is_needed_only_to_write() {
    let mut d = DiskState::new(u64::MAX);
    assert_eq!(d.step(DiskEvent::LocalFlush).action, DiskAction::Sync);
    assert_eq!(d.step(DiskEvent::Done(true)).action, DiskAction::Receive);
    assert_eq!(d.step(DiskEvent::Closed).action, DiskAction::Finish { sync: true });
}

#[test]
fn hops_add_up() {
    assert_eq!(total_hops(&vec![]), 0);
    assert_eq!(total_hops(&vec![1, 2, u64::MAX]), u64::MAX as u128 + 3);
}

#[test]
fn records_are_written_and_counted() {
    let mut d = DiskState::new(10);
    assert_eq!(d.work(), DiskAction::Receive);
    assert_eq!(d.step(DiskEvent::Record).action, DiskAction::Write);
    let r = d.step(DiskEvent::Done(true));
    assert_eq!(r.action, DiskAction::Receive);
    assert!(!r.halt);
    assert_eq!(d.seq, 11);
    assert_eq!(d.step(DiskEvent::LocalFlush).action, DiskAction::Sync);
    assert_eq!(d.step(DiskEvent::Done(true)).action, DiskAction::Receive);
    assert_eq!(d.seq, 11);
    assert!(!d.failed);
}

#[test]
fn a_checkpoint_drains_syncs_and_commits() {
    let mut d = DiskState::new(3);
    assert_eq!(d.step(DiskEvent::Barrier { gen: 5, is_final: false }).action, DiskAction::Poll);
    assert_eq!(d.step(DiskEvent::Record).action, DiskAction::Write);
    assert_eq!(d.step(DiskEvent::Done(true)).action, DiskAction::Poll);
    // Other requests in the queue are dropped.
    assert_eq!(d.step(DiskEvent::LocalFlush).action, DiskAction::Poll);
    assert_eq!(d.step(DiskEvent::Barrier { gen: 9, is_final: true }).action, DiskAction::Poll);
    assert_eq!(d.step(DiskEvent::Nothing).action, DiskAction::Sync);
    assert_eq!(d.step(DiskEvent::Done(true)).action, DiskAction::Commit { gen: 5, seq: 4 });
    let r = d.step(DiskEvent::Done(true));
    assert_eq!(r.ack, Some((5, true)));
    assert_eq!(r.retire, Some(2));
    assert_eq!(r.action, DiskAction::Receive);
}

#[test]
fn a_checkpoint_that_cannot_be_made_leaves_the_log_sound() {
    let mut d = DiskState::new(3);
    d.step(DiskEvent::Barrier { gen: 5, is_final: false });
    d.step(DiskEvent::Nothing);
    d.step(DiskEvent::Done(true));
    let r = d.step(DiskEvent::Done(false));
    assert_eq!(r.ack, Some((5, false)));
    assert_eq!(r.retire, None);
    assert!(!r.halt);
    assert!(!d.failed);
    assert_eq!(r.action, DiskAction::Receive);
}

#[test]
fn the_last_checkpoint_stops_the_writer() {
    let mut d = DiskState::new(3);
    d.step(DiskEvent::Barrier { gen: 2, is_final: true });
    d.step(DiskEvent::Nothing);
    d.step(DiskEvent::Done(true));
    let r = d.step(DiskEvent::Done(true));
    assert_eq!(r.ack, Some((2, true)));
    assert_eq!(r.retire, None);
    assert_eq!(r.action, DiskAction::Finish { sync: true });
    assert_eq!(d.phase, Phase::Stopped);
    assert_eq!(d.step(DiskEvent::Record).action, DiskAction::Finish { sync: true });
}

#[test]
fn a_failed_write_ends_the_search() {
    let mut d = DiskState::new(3);
    d.step(DiskEvent::Record);
    let r = d.step(DiskEvent::Done(false));
    assert!(r.halt);
    assert!(d.failed);
    assert_eq!(d.seq, 3);
    // Nothing is written any more.
    assert_eq!(d.step(DiskEvent::Record).action, DiskAction::Receive);
    assert_eq!(d.step(DiskEvent::LocalFlush).action, DiskAction::Receive);
    let periodic = d.step(DiskEvent::Barrier { gen: 4, is_final: false });
    assert_eq!((periodic.ack, periodic.action), (None, DiskAction::Receive));
    let last = d.step(DiskEvent::Barrier { gen: 4, is_final: true });
    assert_eq!(last.ack, Some((4, false)));
    assert_eq!(last.action, DiskAction::Finish { sync: false });
}

#[test]
fn a_failure_while_draining_is_told_when_the_queue_is_empty() {
    let mut d = DiskState::new(3);
    d.step(DiskEvent::Barrier { gen: 4, is_final: true });
    d.step(DiskEvent::Record);
    let r = d.step(DiskEvent::Done(false));
    assert!(!r.halt);
    assert!(d.failed);
    // What is left in the queue is still written.
    assert_eq!(d.step(DiskEvent::Record).action, DiskAction::Write);
    d.step(DiskEvent::Done(true));
    assert_eq!(d.seq, 4);
    let end = d.step(DiskEvent::Nothing);
    assert!(end.halt);
    assert_eq!(end.ack, Some((4, false)));
    assert_eq!(end.action, DiskAction::Finish { sync: false });
}

#[test]
fn a_failed_flush_ends_the_search() {
    let mut d = DiskState::new(0);
    d.step(DiskEvent::LocalFlush);
    assert!(d.step(DiskEvent::Done(false)).halt);
    let mut e = DiskState::new(0);
    e.step(DiskEvent::Barrier { gen: 4, is_final: false });
    e.step(DiskEvent::Nothing);
    let r = e.step(DiskEvent::Done(false));
    assert!(r.halt);
    assert_eq!(r.ack, None);
    assert_eq!(r.action, DiskAction::Receive);
}

#[test]
fn a_closed_queue_stops_the_writer() {
    let mut d = DiskState::new(0);
    assert_eq!(d.step(DiskEvent::Closed).action, DiskAction::Finish { sync: true });
}
