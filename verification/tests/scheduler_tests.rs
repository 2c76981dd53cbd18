use framegraph::scheduler::FrameScheduler;
use framegraph::scheduler::SchedulerError;

#[test]
fn new_scheduler_is_idle() {
    let s = FrameScheduler::new(3);
    assert_eq!(s.slot_count(), 3);
    assert_eq!(s.current_slot(), 0);
    assert_eq!(s.wait_target(), 0);
    assert!(!s.frame_open());
    assert!(s.ready(0));
}

#[test]
fn scenario_three_slots_then_block() {
    let mut s = FrameScheduler::new(3);
    // Three frames complete without the GPU ever signaling: the
    // completed marker stays at 0, which every fresh slot accepts.
    let slot0 = s.begin_frame(0);
    assert_eq!(slot0, 0);
    assert_eq!(s.end_frame(slot0, true), Ok(1));
    let slot1 = s.begin_frame(0);
    assert_eq!(slot1, 1);
    assert_eq!(s.end_frame(slot1, true), Ok(2));
    let slot2 = s.begin_frame(0);
    assert_eq!(slot2, 2);
    assert_eq!(s.end_frame(slot2, true), Ok(3));
    // The fourth frame wants slot 0 back and must wait until the GPU
    // reaches the marker signaled when slot 0 was last submitted.
    assert_eq!(s.wait_target(), 1);
    assert!(!s.ready(0));
    assert!(s.ready(1));
    let slot3 = s.begin_frame(1);
    assert_eq!(slot3, 0);
}

#[test]
fn presentation_failure_changes_nothing() {
    let mut s = FrameScheduler::new(2);
    let slot = s.begin_frame(0);
    assert_eq!(slot, 0);
    assert_eq!(s.end_frame(slot, false), Err(SchedulerError::PresentationFailure));
    // The tick may be retried: the frame is still open on the same
    // slot, no marker was consumed.
    assert!(s.frame_open());
    assert_eq!(s.wait_target(), 0);
    assert_eq!(s.end_frame(slot, true), Ok(1));
    assert_eq!(s.wait_target(), 0);
    assert_eq!(s.begin_frame(0), 1);
}

#[test]
fn slots_cycle_round_robin() {
    let mut s = FrameScheduler::new(2);
    let a = s.begin_frame(0);
    assert_eq!(a, 0);
    assert_eq!(s.end_frame(a, true), Ok(1));
    let b = s.begin_frame(0);
    assert_eq!(b, 1);
    assert_eq!(s.end_frame(b, true), Ok(2));
    // Slot 0 again: its previous frame signaled marker 1.
    assert_eq!(s.wait_target(), 1);
    assert!(!s.ready(0));
    let c = s.begin_frame(1);
    assert_eq!(c, 0);
    assert_eq!(s.end_frame(c, true), Ok(3));
    // Slot 1 again: its previous frame signaled marker 2.
    assert_eq!(s.wait_target(), 2);
    assert!(!s.ready(1));
    assert_eq!(s.begin_frame(2), 1);
}

#[test]
fn single_slot_waits_every_frame() {
    let mut s = FrameScheduler::new(1);
    let a = s.begin_frame(0);
    assert_eq!(a, 0);
    assert_eq!(s.end_frame(a, true), Ok(1));
    assert_eq!(s.wait_target(), 1);
    assert!(!s.ready(0));
    let b = s.begin_frame(1);
    assert_eq!(b, 0);
    assert_eq!(s.end_frame(b, true), Ok(2));
    assert_eq!(s.wait_target(), 2);
}

#[test]
fn markers_increase_monotonically() {
    let mut s = FrameScheduler::new(3);
    let mut completed: u64 = 0;
    let mut last_signal: u64 = 0;
    for _ in 0..9 {
        assert!(s.ready(completed));
        let slot = s.begin_frame(completed);
        let signal = s.end_frame(slot, true).unwrap();
        assert!(signal > last_signal);
        last_signal = signal;
        // Model a GPU that finishes each frame right away.
        completed = signal;
    }
    assert_eq!(last_signal, 9);
}
