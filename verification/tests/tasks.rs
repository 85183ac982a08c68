use thorn::tasks::{Tasks, EVERY_FRAME};

#[test]
fn repeating_fires_after_interval_and_restarts() {
    let mut q: Tasks<u32> = Tasks::new();
    q.repeating(10, 7);
    // interval 10 ns: ticks of 3 ns advance the internal clock; the timer
    // fires whenever strictly more than 10 ns elapsed since its restart
    let mut fired = 0usize;
    for _ in 0..10 {
        q.on_tick(3);
        fired += q.take_handover().len();
    }
    // 30 ns elapsed at interval 10: floor(30 / 10) = 3, give or take a tick
    assert!(fired == 2 || fired == 3, "fired {} times", fired);
}

#[test]
fn every_frame_interval_fires_each_tick() {
    let mut q: Tasks<u32> = Tasks::new();
    q.repeating(EVERY_FRAME, 5);
    q.on_tick(1);
    assert_eq!(q.take_handover(), vec![5]);
    q.on_tick(1);
    assert_eq!(q.take_handover(), vec![5]);
}

#[test]
fn oneshot_fires_once_and_is_dropped() {
    let mut q: Tasks<u32> = Tasks::new();
    q.oneshot(10, 9);
    q.on_tick(5);
    assert!(q.take_handover().is_empty());
    q.on_tick(6);
    assert_eq!(q.take_handover(), vec![9]);
    q.on_tick(100);
    assert!(q.take_handover().is_empty());
}

#[test]
fn cancel_before_scan_prevents_firing() {
    // Cancelling before the per-tick scan guarantees the task never fires
    // again, even though it is already past due at that point.
    let mut q: Tasks<u32> = Tasks::new();
    let id = q.repeating(EVERY_FRAME, 9);
    q.on_tick(5);
    assert_eq!(q.take_handover(), vec![9]);
    // the task is past due again, but cancellation precedes the next scan
    q.cancel(id);
    q.on_tick(5);
    assert!(q.take_handover().is_empty());
}

#[test]
fn cancel_unknown_id_is_a_no_op() {
    let mut q: Tasks<u32> = Tasks::new();
    q.repeating(EVERY_FRAME, 1);
    q.cancel(999);
    q.on_tick(1);
    assert_eq!(q.take_handover(), vec![1]);
}

#[test]
fn cancel_drops_oneshots_too() {
    let mut q: Tasks<u32> = Tasks::new();
    let id = q.oneshot(1, 4);
    q.cancel(id);
    q.on_tick(10);
    assert!(q.take_handover().is_empty());
}

#[test]
fn handover_batches_accumulate_until_collected() {
    let mut q: Tasks<u32> = Tasks::new();
    q.repeating(EVERY_FRAME, 1);
    q.repeating(EVERY_FRAME, 2);
    q.oneshot(0, 3);
    q.on_tick(5);
    // repeating tasks first, then one-shots, each batch in task order
    assert_eq!(q.take_handover(), vec![1, 2, 3]);
}

#[test]
fn ids_are_distinct() {
    let mut q: Tasks<u32> = Tasks::new();
    let a = q.repeating(10, 1);
    let b = q.oneshot(10, 2);
    let c = q.repeating(10, 3);
    assert!(a != b && b != c && a != c);
}
