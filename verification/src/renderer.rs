//! The renderer's frame-phase state machine.
//!
//! A renderer runs one frame in three hook phases — prepare, tick, finish —
//! each of which may succeed or fail in the graphics layer. The transitions
//! here decide, from the phase's outcome alone, what state the frame is in
//! and whether a phase ran out of order; the graphics calls themselves are
//! outside the kernel.

use vstd::prelude::*;
use crate::platform::PlatformEvent;
use crate::plugin::PluginInfo;

verus! {

/// What a graphics-layer frame call reported.
#[derive(Debug, Clone, Copy, PartialEq, Eq, Structural)]
pub enum FrameStatus {
    Success,
    Failed,
    Fatal,
}

/// The graphics backends a renderer can be asked for.
#[derive(Debug, Clone, Copy, PartialEq, Eq, Structural)]
pub enum Backend {
    Vulkan,
}

/// Where the current frame stands between the hook phases.
#[derive(Debug, Clone, Copy, PartialEq, Eq, Structural)]
pub enum FrameState {
    Begin,
    Render,
    Finish,
    Failed,
    Destroy,
}

/// The prepare phase: only a finished previous frame may begin a new one —
/// anything else marks the frame failed and warns (the returned flag) —
/// and only a successful prepare advances to `Begin`.
pub fn after_prepare(state: FrameState, status: FrameStatus) -> (r: (FrameState, bool))
    ensures
        state != FrameState::Finish ==> r == (FrameState::Failed, true),
        state == FrameState::Finish && status == FrameStatus::Success ==> r == (
            FrameState::Begin,
            false,
        ),
        state == FrameState::Finish && status != FrameStatus::Success ==> r == (state, false),
{
    if state != FrameState::Finish {
        (FrameState::Failed, true)
    } else if status == FrameStatus::Success {
        (FrameState::Begin, false)
    } else {
        (state, false)
    }
}

/// The render phase: only a begun frame may render, and only a successful
/// render advances to `Render`.
pub fn after_render(state: FrameState, status: FrameStatus) -> (r: (FrameState, bool))
    ensures
        state != FrameState::Begin ==> r == (FrameState::Failed, true),
        state == FrameState::Begin && status == FrameStatus::Success ==> r == (
            FrameState::Render,
            false,
        ),
        state == FrameState::Begin && status != FrameStatus::Success ==> r == (state, false),
{
    if state != FrameState::Begin {
        (FrameState::Failed, true)
    } else if status == FrameStatus::Success {
        (FrameState::Render, false)
    } else {
        (state, false)
    }
}

/// The finish phase: only a rendered frame may finish, and only a
/// successful finish returns to `Finish`, ready for the next frame.
pub fn after_finish(state: FrameState, status: FrameStatus) -> (r: (FrameState, bool))
    ensures
        state != FrameState::Render ==> r == (FrameState::Failed, true),
        state == FrameState::Render && status == FrameStatus::Success ==> r == (
            FrameState::Finish,
            false,
        ),
        state == FrameState::Render && status != FrameStatus::Success ==> r == (state, false),
{
    if state != FrameState::Render {
        (FrameState::Failed, true)
    } else if status == FrameStatus::Success {
        (FrameState::Finish, false)
    } else {
        (state, false)
    }
}

/// Whether a platform event should resize the rendering surface: only a
/// size change, and never once the renderer is being destroyed.
pub fn wants_resize(state: FrameState, event: &PlatformEvent) -> (r: bool)
    ensures
        r == (state != FrameState::Destroy && event matches PlatformEvent::WindowSizeChange(
            _,
            _,
        )),
{
    if state == FrameState::Destroy {
        false
    } else {
        match event {
            PlatformEvent::WindowSizeChange(_, _) => true,
            _ => false,
        }
    }
}

/// The descriptor of the renderer plugin, which depends on the task queue
/// and on the platform event receiver.
pub struct RendererPlugin {
    pub identity: u64,
    pub tasks_identity: u64,
    pub receiver_identity: u64,
    pub backend: Backend,
}

impl RendererPlugin {
    pub fn info(&self) -> (r: PluginInfo)
        ensures
            r.identity == self.identity,
            r.deps@ == seq![self.tasks_identity, self.receiver_identity],
            r.name@ == "Renderer"@,
    {
        let info = PluginInfo::build(self.identity, "Renderer".to_owned());
        let info = info.dep(self.tasks_identity);
        let info = info.dep(self.receiver_identity);
        proof {
            assert(info.deps@ =~= seq![self.tasks_identity, self.receiver_identity]);
        }
        info
    }
}

} // verus!
