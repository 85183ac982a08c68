use thorn::platform::{PlatformEvent, WindowParams};
use thorn::renderer::{
    after_finish, after_prepare, after_render, wants_resize, FrameState, FrameStatus,
};

#[test]
fn successful_frame_walks_the_three_phases() {
    let (s, warned) = after_prepare(FrameState::Finish, FrameStatus::Success);
    assert_eq!(s, FrameState::Begin);
    assert!(!warned);
    let (s, warned) = after_render(s, FrameStatus::Success);
    assert_eq!(s, FrameState::Render);
    assert!(!warned);
    let (s, warned) = after_finish(s, FrameStatus::Success);
    assert_eq!(s, FrameState::Finish);
    assert!(!warned);
}

#[test]
fn out_of_order_phase_marks_frame_failed_and_warns() {
    let (s, warned) = after_render(FrameState::Finish, FrameStatus::Success);
    assert_eq!(s, FrameState::Failed);
    assert!(warned);
    let (s, warned) = after_finish(FrameState::Begin, FrameStatus::Success);
    assert_eq!(s, FrameState::Failed);
    assert!(warned);
    let (s, warned) = after_prepare(FrameState::Failed, FrameStatus::Success);
    assert_eq!(s, FrameState::Failed);
    assert!(warned);
}

#[test]
fn failed_graphics_call_leaves_state_without_warning() {
    let (s, warned) = after_prepare(FrameState::Finish, FrameStatus::Failed);
    assert_eq!(s, FrameState::Finish);
    assert!(!warned);
    let (s, warned) = after_prepare(FrameState::Finish, FrameStatus::Fatal);
    assert_eq!(s, FrameState::Finish);
    assert!(!warned);
}

#[test]
fn resize_only_outside_destruction() {
    assert!(wants_resize(FrameState::Finish, &PlatformEvent::WindowSizeChange(10, 10)));
    assert!(!wants_resize(FrameState::Destroy, &PlatformEvent::WindowSizeChange(10, 10)));
    assert!(!wants_resize(FrameState::Finish, &PlatformEvent::WindowClose));
}

#[test]
fn window_params_defaults() {
    let p = WindowParams::default();
    assert_eq!(p.title, "Thorn Application");
    assert!(p.position.is_none());
    assert_eq!(p.size, (800, 600));
}
