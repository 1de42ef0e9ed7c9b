//! Scripted per-object behaviors, seen from the replication layer as a
//! capability interface: an identity, a load hook and an update hook. The
//! scripting engine that runs the hooks' bodies stays outside.

use vstd::prelude::*;

verus! {

/// What every behavior offers to the engine loop.
pub trait BehaviorExt {
    fn id(&self) -> u64;

    fn on_update(&self);

    fn on_load(&self);
}

/// A behavior backed by a script file.
pub struct LuaBehavior {
    _id: u64,
}

impl LuaBehavior {
    /// The identity this behavior was created under.
    pub closed spec fn spec_id(&self) -> u64 {
        self._id
    }
}

impl BehaviorExt for LuaBehavior {
    fn id(&self) -> u64 {
        self._id
    }

    fn on_update(&self) {
    }

    fn on_load(&self) {
    }
}

/// Wrap a script path as a behavior under the given identity.
pub fn from_lua(path: &str, id: u64) -> (b: LuaBehavior)
    ensures
        b.spec_id() == id,
{
    let _ = path;
    LuaBehavior { _id: id }
}

} // verus!
