//! Finding the synthetic root that sub-scene attachment introduced under an
//! instance, and removing that nesting level.

use vstd::prelude::*;
use crate::instance::Instance;
use crate::marker::Marker;
use crate::migrate::merged;
use crate::world::{descends_in, lemma_childless_has_no_descendants, World};

verus! {

/// Result of looking for the synthetic root among an entity's children.
#[derive(Clone, Copy, PartialEq, Eq, Structural, Debug)]
pub enum RootSearch {
    /// The entity has no children at all.
    NoChildren,
    /// Every child was already there before the sub-scene was attached.
    NoNewChild,
    /// The first child that was not there before.
    Found(usize),
}

/// Picks the first entry of `children` that `original` does not hold.
pub fn find_synthetic_root(children: &Vec<usize>, original: &Vec<usize>) -> (r: RootSearch)
    ensures
        r is NoChildren <==> children@.len() == 0,
        r is NoNewChild <==> (children@.len() > 0 && forall|k: int|
            0 <= k < children@.len() ==> original@.contains(#[trigger] children@[k])),
        r matches RootSearch::Found(x) ==> exists|k: int|
            0 <= k < children@.len() && children@[k] == x && !original@.contains(x) && forall|j: int|
                0 <= j < k ==> original@.contains(#[trigger] children@[j]),
{
    if children.len() == 0 {
        return RootSearch::NoChildren;
    }
    let mut k: usize = 0;
    while k < children.len()
        invariant
            k <= children@.len(),
            forall|j: int| 0 <= j < k ==> original@.contains(#[trigger] children@[j]),
        decreases children@.len() - k,
    {
        let c = children[k];
        if !contains(original, c) {
            return RootSearch::Found(c);
        }
        k += 1;
    }
    RootSearch::NoNewChild
}

fn contains(v: &Vec<usize>, x: usize) -> (r: bool)
    ensures
        r == v@.contains(x),
{
    let mut i: usize = 0;
    while i < v.len()
        invariant
            i <= v@.len(),
            forall|j: int| 0 <= j < i ==> v@[j] != x,
        decreases v@.len() - i,
    {
        if v[i] == x {
            return true;
        }
        i += 1;
    }
    false
}

/// `r` is the synthetic root under `e`: the live child with the lowest index
/// that is not among the original children.
pub open spec fn is_synthetic_root(w: &World, e: usize, original: Seq<usize>, r: usize) -> bool {
    &&& w.is_child_of(r, e)
    &&& !original.contains(r)
    &&& forall|c: usize| c < r && #[trigger] w.is_child_of(c, e) ==> original.contains(c)
}

/// What post-processing did with one instance.
#[derive(Clone, Copy, PartialEq, Eq, Structural, Debug)]
pub enum PostProcessOutcome {
    /// The instance was not waiting for post-processing.
    NotReady,
    /// The instance had no children yet: nothing was done this time.
    NoChildren,
    /// No child was new: there is no synthetic root to elide.
    NoSyntheticRoot,
    /// The synthetic root (given) was elided and the instance is ready.
    Flattened(usize),
}

/// Everything that flattening `inst` around synthetic root `r` does to the
/// world `w0`, giving `w`.
pub open spec fn flattened(w0: &World, w: &World, inst: &Instance, r: usize) -> bool {
    let e = inst.entity;
    &&& w.wf()
    &&& w.len() == w0.len()
    // one nesting level is gone: the root's children now hang under `e`
    &&& forall|c: usize|
        #[trigger] w.is_child_of(c, e) <==> (w0.is_child_of(c, e) && c != r) || w0.is_child_of(c, r)
    // the root is the only entity removed
    &&& !w.is_alive(r)
    &&& forall|i: int| 0 <= i < w.len() && i != r ==> w.alive@[i] == w0.alive@[i]
    &&& forall|i: usize|
        (i as int) < w.len() ==> w.parent@[i as int] == if w0.is_child_of(i, r) {
            Some(e)
        } else {
            w0.parent@[i as int]
        }
    // the root's data is migrated onto `e`
    &&& w.comps(e) == merged(w0.comps(e), w0.comps(r))
    &&& forall|i: int|
        0 <= i < w.len() && i != e ==> w.components@[i] == w0.components@[i]
    // provenance tags on the root's former descendants
    &&& forall|i: int|
        0 <= i < w.len() ==> w.in_blueprint@[i] == (w0.in_blueprint@[i] || (!inst.no_in_blueprint
            && w0.descends(i as usize, r)))
    &&& w.visible@ == w0.visible@.update(e as int, true)
    &&& w.player_added == w0.player_added
    &&& w.animation_link@ == if inst.has_named_animations {
        match w0.last_player_under(r) {
            Some(pl) => w0.animation_link@.update(e as int, Some(pl)),
            None => w0.animation_link@,
        }
    } else {
        w0.animation_link@
    }
}

/// What post-processing `i0` in world `w0` may do, giving `w` and `i`, for
/// each outcome `out`.
pub open spec fn post_processed(
    w0: &World,
    w: &World,
    i0: &Instance,
    i: &Instance,
    out: PostProcessOutcome,
) -> bool {
    &&& (out == PostProcessOutcome::NotReady <==> i0.marker != Marker::ReadyForPostProcess)
    &&& i0.marker == Marker::ReadyForPostProcess ==> (out == PostProcessOutcome::NoChildren
        <==> forall|c: usize| !w0.is_child_of(c, i0.entity))
    &&& i0.marker == Marker::ReadyForPostProcess ==> (out == PostProcessOutcome::NoSyntheticRoot
        <==> (exists|c: usize| w0.is_child_of(c, i0.entity)) && forall|c: usize|
        w0.is_child_of(c, i0.entity) ==> i0.original_children@.contains(c))
    &&& !(out is Flattened) ==> *w == *w0 && *i == *i0
    &&& out matches PostProcessOutcome::Flattened(r) ==> {
        &&& i0.marker == Marker::ReadyForPostProcess
        &&& is_synthetic_root(w0, i0.entity, i0.original_children@, r)
        &&& flattened(w0, w, i0, r)
        &&& *i == (Instance { marker: Marker::InstanceReady, ..*i0 })
    }
}

/// Post-processes one instance whose sub-scene has been attached: finds the
/// synthetic root, tags its descendants, migrates its components, links an
/// animation player, moves its children up one level, deletes it, forces the
/// instance visible and marks the instance ready.
pub fn post_process(world: &mut World, inst: &mut Instance) -> (out: PostProcessOutcome)
    requires
        old(world).wf(),
        (old(inst).entity as int) < old(world).len(),
    ensures
        post_processed(old(world), final(world), old(inst), final(inst), out),
{
    if inst.marker != Marker::ReadyForPostProcess {
        return PostProcessOutcome::NotReady;
    }
    let e = inst.entity;
    let children = world.children_of(e);
    let r = match find_synthetic_root(&children, &inst.original_children) {
        RootSearch::NoChildren => {
            assert(forall|c: usize| !old(world).is_child_of(c, e)) by {
                assert(forall|c: usize| !children@.contains(c));
            }
            return PostProcessOutcome::NoChildren;
        },
        RootSearch::NoNewChild => {
            assert(children@.contains(children@[0]));
            assert forall|c: usize| old(world).is_child_of(c, e) implies old(
                inst,
            ).original_children@.contains(c) by {
                assert(children@.contains(c));
                let k = choose|k: int| 0 <= k < children@.len() && children@[k] == c;
                assert(original_has(inst.original_children@, children@[k]));
            }
            return PostProcessOutcome::NoSyntheticRoot;
        },
        RootSearch::Found(r) => r,
    };
    proof {
        let k = choose|k: int|
            0 <= k < children@.len() && children@[k] == r && !inst.original_children@.contains(r)
                && forall|j: int| 0 <= j < k ==> inst.original_children@.contains(#[trigger] children@[j]);
        assert(children@.contains(r));
        assert forall|c: usize| c < r && #[trigger] old(world).is_child_of(c, e) implies inst.original_children@.contains(c) by {
            assert(children@.contains(c));
            let m = choose|m: int| 0 <= m < children@.len() && children@[m] == c;
            assert(m < k);
            assert(original_has(inst.original_children@, children@[m]));
        }
        assert(e < r);
    }
    let ghost w0 = *world;
    if !inst.no_in_blueprint {
        world.tag_descendants(r);
    }
    world.copy_components(r, e);
    if inst.has_named_animations {
        world.link_animation_player(r, e);
    }
    let ghost w3 = *world;
    let moved = world.children_of(r);
    let mut k: usize = 0;
    while k < moved.len()
        invariant
            world.wf(),
            w0.wf(),
            world.len() == w0.len(),
            e < r,
            w0.is_child_of(r, e),
            forall|c: usize| moved@.contains(c) <==> w0.is_child_of(c, r),
            k <= moved@.len(),
            forall|i: usize|
                (i as int) < w0.len() ==> world.parent@[i as int] == if moved@.subrange(
                    0,
                    k as int,
                ).contains(i) {
                    Some(e)
                } else {
                    w0.parent@[i as int]
                },
            world.alive == w3.alive,
            world.components == w3.components,
            world.visible == w3.visible,
            world.in_blueprint == w3.in_blueprint,
            world.player_added == w3.player_added,
            world.animation_link == w3.animation_link,
        decreases moved@.len() - k,
    {
        let c = moved[k];
        assert(moved@.contains(c));
        assert(w0.parent@[c as int] == Some(r));
        let ghost before = world.parent@;
        world.add_child(e, c);
        proof {
            assert forall|i: usize| (i as int) < w0.len() implies world.parent@[i as int] == if moved@.subrange(0, k + 1).contains(i) {
                Some(e)
            } else {
                w0.parent@[i as int]
            } by {
                assert(moved@.subrange(0, k + 1)[k as int] == c);
                if i == c {
                    assert(moved@.subrange(0, k + 1)[k as int] == c);
                } else {
                    let s0 = moved@.subrange(0, k as int);
                    let s1 = moved@.subrange(0, k + 1);
                    if s1.contains(i) {
                        let j = choose|j: int| 0 <= j < s1.len() && s1[j] == i;
                        assert(j < k);
                        assert(s0[j] == i);
                    }
                    if s0.contains(i) {
                        let j = choose|j: int| 0 <= j < s0.len() && s0[j] == i;
                        assert(s1[j] == i);
                    }
                }
            }
        }
        k += 1;
    }
    assert(moved@.subrange(0, moved@.len() as int) == moved@);
    let ghost w4 = *world;
    proof {
        assert forall|i: usize| (i as int) < w4.alive@.len() && (i as int) < w4.parent@.len() && w4.alive@[i as int] implies w4.parent@[i as int] != Some(r) by {
            assert(w4.alive@ == w0.alive@);
            if w0.is_child_of(i, r) {
                assert(w4.parent@[i as int] == Some(e));
            } else {
                assert(w4.parent@[i as int] == w0.parent@[i as int]);
            }
        }
        assert forall|c: usize| !descends_in(w4.alive@, w4.parent@, c, r) by {
            lemma_childless_has_no_descendants(w4.alive@, w4.parent@, r, c);
        }
    }
    world.despawn_recursive(r);
    world.set_visible(e);
    inst.marker = Marker::InstanceReady;
    proof {
        assert forall|c: usize| #[trigger] world.is_child_of(c, e) <==> (w0.is_child_of(c, e) && c != r) || w0.is_child_of(c, r) by {
            if (c as int) < w0.len() {
                assert(world.alive@[c as int] == (w0.alive@[c as int] && c != r));
            }
        }
    }
    PostProcessOutcome::Flattened(r)
}

spec fn original_has(original: Seq<usize>, c: usize) -> bool {
    original.contains(c)
}

} // verus!
