//! What the library knows of one spawned blueprint instance.

use vstd::prelude::*;
use crate::marker::Marker;

verus! {

/// Name and asset path of a blueprint.
#[derive(Clone, Debug)]
pub struct BlueprintInfo {
    pub name: String,
    pub path: String,
}

/// One spawned blueprint occurrence, living on entity `entity`.
pub struct Instance {
    pub entity: usize,
    pub info: BlueprintInfo,
    /// The entity's children before its sub-scene was attached.
    pub original_children: Vec<usize>,
    /// The blueprint declares at least one named animation.
    pub has_named_animations: bool,
    /// Descendants of the sub-scene are not tagged as coming from a blueprint.
    pub no_in_blueprint: bool,
    /// Owner of the tracker that waits on this instance, if it is nested.
    pub tracker_owner: Option<usize>,
    pub marker: Marker,
}

} // verus!
