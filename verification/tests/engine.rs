use thorn::engine::{
    fps_cap_duration, pace, run_deferred, run_finish, run_prepare, run_tick, Core, CountingTask,
    FrameInfo, MainLoopMsg, MainLoopState, PhaseRecorder, DEFAULT_FPS_CAP, MIN_FRAME_TIME,
};

#[test]
fn fps_cap_arithmetic() {
    // 120 Hz: 8_333_333 ns per frame, within one nanosecond of 1/120 s
    assert_eq!(fps_cap_duration(120), 8_333_333);
    assert_eq!(fps_cap_duration(DEFAULT_FPS_CAP), 8_333_333);
    // anything above 1000 Hz clamps to the hard 1 ms ceiling
    assert_eq!(fps_cap_duration(2000), MIN_FRAME_TIME);
    assert_eq!(fps_cap_duration(1000), MIN_FRAME_TIME);
    assert_eq!(fps_cap_duration(1), 1_000_000_000);
}

#[test]
fn pace_sleeps_remainder_and_reports_full_budget() {
    // a fast frame sleeps the remainder; the reported delta is the budget,
    // so the delta never under-represents the configured period
    let (sleep, delta) = pace(5_000_000, 8_333_333);
    assert_eq!(sleep, 3_333_333);
    assert_eq!(delta, 8_333_333);
    assert!(delta >= 8_333_333);
}

#[test]
fn pace_reports_true_duration_when_over_budget() {
    let (sleep, delta) = pace(9_000_000, 8_333_333);
    assert_eq!(sleep, 0);
    assert_eq!(delta, 9_000_000);
}

#[test]
fn handle_msgs_applies_in_order() {
    let mut st: MainLoopState<u32, u8> = MainLoopState::new();
    assert_eq!(st.fps_cap, 8_333_333);
    let cont = st.handle_msgs(vec![
        MainLoopMsg::SetFpsCap(60),
        MainLoopMsg::SetTasks(vec![1, 2]),
        MainLoopMsg::AddHooks(vec![9]),
        MainLoopMsg::SetTasks(vec![3]),
    ]);
    assert!(cont);
    assert_eq!(st.fps_cap, 16_666_666);
    assert_eq!(st.tasks, vec![1, 2, 3]);
    assert_eq!(st.hooks, vec![9]);
}

#[test]
fn terminate_stops_the_batch_at_once() {
    let mut st: MainLoopState<u32, u8> = MainLoopState::new();
    let cont = st.handle_msgs(vec![
        MainLoopMsg::SetTasks(vec![1]),
        MainLoopMsg::Terminate,
        MainLoopMsg::SetTasks(vec![2]),
    ]);
    assert!(!cont);
    // the message after Terminate was dropped
    assert_eq!(st.tasks, vec![1]);
}

#[test]
fn run_deferred_is_lifo_exactly_once_and_failures_do_not_abort() {
    let mut tasks = vec![
        CountingTask::new(1),
        CountingTask::failing(2),
        CountingTask::new(3),
    ];
    let (done, errors) = run_deferred(&mut tasks, &FrameInfo { delta: 16 });
    assert!(tasks.is_empty());
    // most recently handed over first, each run exactly once
    let tags: Vec<u64> = done.iter().map(|t| t.tag).collect();
    assert_eq!(tags, vec![3, 2, 1]);
    for t in &done {
        assert_eq!(t.times_run, 1);
        assert_eq!(t.last_delta, 16);
    }
    // the failing callable reported its error without stopping the rest
    assert_eq!(errors, vec![String::from("this callable always fails")]);
}

#[test]
fn run_deferred_on_nothing_returns_nothing() {
    let mut tasks: Vec<CountingTask> = Vec::new();
    let (done, errors) = run_deferred(&mut tasks, &FrameInfo { delta: 1 });
    assert!(done.is_empty());
    assert!(errors.is_empty());
}

#[test]
fn hook_phases_reach_every_hook() {
    let mut hooks = vec![PhaseRecorder::new(), PhaseRecorder::new()];
    run_prepare(&mut hooks);
    run_tick(&mut hooks, &FrameInfo { delta: 16 });
    run_tick(&mut hooks, &FrameInfo { delta: 8 });
    run_finish(&mut hooks);
    for h in &hooks {
        assert_eq!(h.prepares, 1);
        assert_eq!(h.ticks, 2);
        assert_eq!(h.finishes, 1);
        assert_eq!(h.last_delta, 8);
    }
}

#[test]
fn core_accumulates_and_hands_over_in_batches() {
    let mut core: Core<u32, u8> = Core::new();
    assert!(core.hand_over_tasks().is_none());
    core.schedule_task(1);
    core.schedule_task(2);
    core.add_hook(7);
    let batch = core.hand_over_tasks().expect("a batch accumulated");
    assert_eq!(batch, vec![1, 2]);
    assert!(core.hand_over_tasks().is_none());
    let hooks = core.hand_over_hooks().expect("a hook accumulated");
    assert_eq!(hooks, vec![7]);
    assert!(core.hand_over_hooks().is_none());
}
