//! The typed seam between the routing logic and whatever drives the audio
//! graph: a caller asks for node names and loaded branches, and never sees the
//! listing an implementation read them from.

use crate::audio::{bview, AudioError, CombineBranch};
use vstd::prelude::*;

verus! {

/// One delay branch as the graph reports it loaded for a combined sink.
#[derive(Debug, PartialEq, Eq)]
pub struct LoadedBranch {
    /// The handle the graph unloads the branch by.
    pub id: u32,
    /// The **resolved** sink node the branch feeds, and its latency.
    pub branch: CombineBranch,
    /// Whether the branch is carrying audio: `Some(false)` is a branch that is
    /// loaded but dead, `None` is "cannot tell" and never reads as dead.
    pub live: Option<bool>,
}

impl Clone for LoadedBranch {
    fn clone(&self) -> (copy: Self)
        ensures
            loaded_view(copy) == loaded_view(*self),
    {
        LoadedBranch { id: self.id, branch: self.branch.clone(), live: self.live }
    }
}

/// A read branch as its id, its pair and its liveness.
pub open spec fn loaded_view(b: LoadedBranch) -> (u32, (Seq<char>, u32), Option<bool>) {
    (b.id, bview(b.branch), b.live)
}

/// The read branches of a list, as triples.
pub open spec fn loaded_views(s: Seq<LoadedBranch>) -> Seq<(u32, (Seq<char>, u32), Option<bool>)> {
    s.map_values(|b: LoadedBranch| loaded_view(b))
}

/// The operations the routing logic needs from the audio graph. Every method
/// takes `&mut self` and every fallible one returns an [`AudioError`], so an
/// implementation is free to talk to another thread and to lose its
/// connection. An implementation answers an empty node name with an `Err`:
/// an empty name is a wildcard to every match below it, never "no node"; the
/// routing logic never hands one over. The volume of a sink is
/// not part of this seam: it is a fraction, read and written next to it.
pub trait Graph {
    /// The node names of the sinks currently present. An `Err` is "cannot
    /// tell", which a caller must not read as "no sink exists".
    fn sinks(&mut self) -> Result<Vec<String>, AudioError>;

    /// The delay branches loaded for the combined sink `sink_name`.
    fn branches(&mut self, sink_name: &str) -> Result<Vec<LoadedBranch>, AudioError>;

    /// Create the shared null sink the player streams into.
    fn create_combined_sink(&mut self, sink_name: &str) -> Result<(), AudioError>;

    /// Load one delay branch from `sink_name`'s monitor into `real_sink`.
    fn load_branch(&mut self, sink_name: &str, real_sink: &str, latency_ms: u32) -> Result<(), AudioError>;

    /// Unload one branch by the id [`Graph::branches`] reported for it.
    fn unload_branch(&mut self, id: u32) -> Result<(), AudioError>;

    /// Change the delay of the loaded branch `id` in place, without unloading
    /// it. An id no branch carries is an `Err`.
    fn set_branch_delay(&mut self, id: u32, delay_ms: u32) -> Result<(), AudioError>;

    /// Remove the combined sink `sink_name` and every branch belonging to it.
    fn teardown(&mut self, sink_name: &str) -> Result<(), AudioError>;

    /// Make `sink` the default sink.
    fn set_default_sink(&mut self, sink: &str) -> Result<(), AudioError>;
}

} // verus!
