//! The kernel's error taxonomy.

use vstd::prelude::*;

verus! {

/// Every failure the kernel itself can report.
///
/// `LayerCastFailed` marks a logic defect (an identity slot held a value of an
/// unexpected kind), `PluginLoadFailed` wraps a plugin's own construction
/// error, and `PluginLoadOrder` covers an unresolvable dependency graph,
/// whether from a cycle or from a missing dependency.
#[derive(Debug)]
pub enum ThError {
    LayerCastFailed(String),
    PluginLoadFailed(String, String),
    PluginLoadOrder,
    Error(String),
    RendererError(String),
}

pub type ThResult<T> = Result<T, ThError>;

impl ThError {
    /// A short, fixed phrase naming the error kind.
    pub fn describe(&self) -> (r: String)
        ensures
            r@ == self.describe_spec(),
    {
        match self {
            ThError::LayerCastFailed(_) => "failed to cast into the requested layer".to_owned(),
            ThError::PluginLoadFailed(_, _) => "failed to load plugin".to_owned(),
            ThError::PluginLoadOrder => "failed to find a suitable plugin load order".to_owned(),
            ThError::Error(_) => "error".to_owned(),
            ThError::RendererError(_) => "renderer error".to_owned(),
        }
    }

    pub open spec fn describe_spec(&self) -> Seq<char> {
        match self {
            ThError::LayerCastFailed(_) => "failed to cast into the requested layer"@,
            ThError::PluginLoadFailed(_, _) => "failed to load plugin"@,
            ThError::PluginLoadOrder => "failed to find a suitable plugin load order"@,
            ThError::Error(_) => "error"@,
            ThError::RendererError(_) => "renderer error"@,
        }
    }
}

} // verus!
