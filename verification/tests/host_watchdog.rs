use thorn::host::{manage_step, HostAction, HostEvent, MAX_TIMEOUTS};

#[test]
fn dispatch_forwards_and_resets_timeouts() {
    let mut timeouts: u64 = 5;
    match manage_step(&mut timeouts, MAX_TIMEOUTS, HostEvent::Dispatch(42u32)) {
        HostAction::Forward(e) => assert_eq!(e, 42),
        _ => panic!("dispatch must forward"),
    }
    assert_eq!(timeouts, 0);
}

#[test]
fn terminate_and_disconnect_shut_down() {
    let mut timeouts: u64 = 0;
    assert!(matches!(
        manage_step::<u32>(&mut timeouts, MAX_TIMEOUTS, HostEvent::Terminate),
        HostAction::Shutdown
    ));
    assert!(matches!(
        manage_step::<u32>(&mut timeouts, MAX_TIMEOUTS, HostEvent::Disconnected),
        HostAction::Shutdown
    ));
}

#[test]
fn timeouts_accumulate_until_the_budget_runs_out() {
    let mut timeouts: u64 = 0;
    for i in 1..MAX_TIMEOUTS {
        assert!(matches!(
            manage_step::<u32>(&mut timeouts, MAX_TIMEOUTS, HostEvent::Timeout { core_alive: true }),
            HostAction::Continue
        ));
        assert_eq!(timeouts, i);
    }
    assert!(matches!(
        manage_step::<u32>(&mut timeouts, MAX_TIMEOUTS, HostEvent::Timeout { core_alive: true }),
        HostAction::Shutdown
    ));
}

#[test]
fn a_small_budget_runs_out_sooner() {
    let mut timeouts: u64 = 0;
    assert!(matches!(
        manage_step::<u32>(&mut timeouts, 2, HostEvent::Timeout { core_alive: true }),
        HostAction::Continue
    ));
    assert!(matches!(
        manage_step::<u32>(&mut timeouts, 2, HostEvent::Timeout { core_alive: true }),
        HostAction::Shutdown
    ));
}

#[test]
fn dead_frame_thread_shuts_down_immediately() {
    let mut timeouts: u64 = 0;
    assert!(matches!(
        manage_step::<u32>(&mut timeouts, MAX_TIMEOUTS, HostEvent::Timeout { core_alive: false }),
        HostAction::Shutdown
    ));
}
