//! Plugin descriptors and the plugin capability.
//!
//! A plugin is any component that can describe itself, construct its service
//! against the registry of already-loaded services, and react to being loaded
//! and unloaded. The descriptor carries a plain `u64` identity: a stable key,
//! unique per plugin kind, that also keys the service the plugin produces.

use vstd::prelude::*;
use crate::layer::LayerReg;

verus! {

/// The immutable record a plugin is discovered under.
pub struct PluginInfo {
    pub name: String,
    pub version: String,
    pub identity: u64,
    pub deps: Vec<u64>,
}

impl PluginInfo {
    /// Starts a descriptor: the given identity, no declared dependencies.
    pub fn build(identity: u64, name: String) -> (r: PluginInfo)
        ensures
            r.identity == identity,
            r.name == name,
            r.version@ == Seq::<char>::empty(),
            r.deps@ == Seq::<u64>::empty(),
    {
        PluginInfo { name, version: String::new(), identity, deps: Vec::new() }
    }

    /// Replaces the display name.
    pub fn name(self, name: String) -> (r: PluginInfo)
        ensures
            r == (PluginInfo { name, ..self }),
    {
        PluginInfo { name, ..self }
    }

    /// Replaces the version string.
    pub fn version(self, version: String) -> (r: PluginInfo)
        ensures
            r == (PluginInfo { version, ..self }),
    {
        PluginInfo { version, ..self }
    }

    /// Declares one more dependency identity.
    pub fn dep(self, id: u64) -> (r: PluginInfo)
        ensures
            r.identity == self.identity,
            r.name == self.name,
            r.version == self.version,
            r.deps@ == self.deps@.push(id),
    {
        let mut deps = self.deps;
        deps.push(id);
        PluginInfo { deps, ..self }
    }
}

/// The plugin capability: the kernel's sole extension point.
///
/// `Service` is the payload type the host's registry stores; an application
/// picks one (typically a sum over its service kinds) and every plugin it
/// hosts produces a value of it.
///
/// The kernel never relies on what these methods do: the host's contracts
/// hold for every implementation, and `load` may fail for reasons of the
/// plugin's own.
pub trait Plugin: Sized {
    type Service;

    /// Describes this plugin: identity, name, version, dependencies.
    fn info(&self) -> PluginInfo;

    /// Constructs the plugin's service, reading already-loaded services.
    fn load(&mut self, reg: &LayerReg<Self::Service>) -> Result<Self::Service, String>;

    /// Called right after this plugin's service entered the registry.
    fn notify_loaded(&mut self, reg: &LayerReg<Self::Service>) {
    }

    /// Called right before this plugin moves back to pending; its
    /// dependencies are still loaded at this point.
    fn notify_unloaded(&mut self, reg: &LayerReg<Self::Service>) {
    }
}

} // verus!
