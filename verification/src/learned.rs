//! What the fault-free run found out about a fleet.

use vstd::prelude::*;

use crate::protocol::{EdgeProfile, EdgeProfileModel, Primitive, Primitives, Reached, ReachedModel};
use crate::verdict::{Baseline, BaselineModel};

verus! {

/// Everything we know about the fleet after the fault-free run. This is all the
/// information the scheduler has to go on.
#[derive(Debug, PartialEq, Eq)]
pub struct Learned {
    /// Per-edge traffic profiles, which the fault anchors come from.
    pub profiles: Vec<EdgeProfile>,
    /// The state each step left behind and where the run settled, which every
    /// faulted run is judged against.
    pub fault_free: Baseline,
    /// The moments services offered from inside themselves.
    /// Empty unless a service is instrumented.
    /// A fleet that offers none is still scheduled from its edges.
    pub inside: Vec<Reached>,
    /// What can be done to this fleet.
    pub primitives: Primitives,
}

/// What a [`Learned`] holds.
#[verifier::ext_equal]
pub struct LearnedModel {
    pub profiles: Seq<EdgeProfileModel>,
    pub fault_free: BaselineModel,
    pub inside: Seq<ReachedModel>,
    pub primitives: Seq<Primitive>,
}

impl DeepView for Learned {
    type V = LearnedModel;

    open spec fn deep_view(&self) -> LearnedModel {
        LearnedModel {
            profiles: self.profiles.deep_view(),
            fault_free: self.fault_free.deep_view(),
            inside: self.inside.deep_view(),
            primitives: self.primitives.deep_view(),
        }
    }
}

} // verus!
