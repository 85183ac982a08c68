//! A small plugin-hosted runtime kernel.
//!
//! The kernel loads independently authored components ("plugins") in
//! dependency order, gives them an identity-keyed registry through which they
//! discover each other's services, ships a tick-synchronized publish/subscribe
//! event channel, and models the frame scheduler that drives per-frame phases
//! and timer-based deferred work.

pub mod engine;
pub mod error;
pub mod event;
pub mod gobject;
pub mod host;
pub mod layer;
pub mod loader;
pub mod order;
pub mod platform;
pub mod plugin;
pub mod renderer;
pub mod shader;
pub mod tasks;
