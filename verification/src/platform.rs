//! Platform-facing data: window parameters and the events a platform layer
//! reports into its event channel. Capturing them from a real window system
//! is the host program's concern.

use vstd::prelude::*;
use crate::plugin::PluginInfo;

verus! {

/// What the platform layer reports about the window and the platform.
#[derive(Debug, Clone, PartialEq, Eq)]
pub enum PlatformEvent {
    WindowOpen,
    WindowClose,
    WindowLostFocus,
    WindowGotFocus,
    WindowMinimized,
    WindowSizeChange(u32, u32),
    WindowPositionChange(i32, i32),
    PlatformError(String),
}

/// How the window should be opened.
#[derive(Debug)]
pub struct WindowParams {
    pub title: String,
    pub position: Option<(i32, i32)>,
    pub size: (u32, u32),
}

impl WindowParams {
    /// The defaults: a generic title, the platform's choice of position,
    /// and an 800 by 600 surface.
    pub fn new_default() -> (r: WindowParams)
        ensures
            r.title@ == "Thorn Application"@,
            r.position is None,
            r.size == (800u32, 600u32),
    {
        WindowParams { title: "Thorn Application".to_owned(), position: None, size: (800, 600) }
    }
}

impl Default for WindowParams {
    fn default() -> (r: WindowParams)
        ensures
            r.title@ == "Thorn Application"@,
            r.position is None,
            r.size == (800u32, 600u32),
    {
        WindowParams::new_default()
    }
}

/// The descriptor of the platform plugin, which depends on the platform
/// event emitter and on the renderer.
pub struct PlatformPlugin {
    pub identity: u64,
    pub emitter_identity: u64,
    pub renderer_identity: u64,
}

impl PlatformPlugin {
    pub fn info(&self) -> (r: PluginInfo)
        ensures
            r.identity == self.identity,
            r.deps@ == seq![self.emitter_identity, self.renderer_identity],
            r.name@ == "Platform"@,
    {
        let info = PluginInfo::build(self.identity, "Platform".to_owned());
        let info = info.dep(self.emitter_identity);
        let info = info.dep(self.renderer_identity);
        proof {
            assert(info.deps@ =~= seq![self.emitter_identity, self.renderer_identity]);
        }
        info
    }
}

} // verus!
