//! Copying an entity's components onto another one, skipping hierarchy
//! links and any kind that the destination already holds.

use vstd::prelude::*;
use crate::world::{is_linkage, Component, World, CHILDREN_KIND, PARENT_KIND};

verus! {

/// Some component of `s` has kind `kind`.
pub open spec fn has_kind(s: Seq<Component>, kind: u64) -> bool {
    exists|i: int| 0 <= i < s.len() && s[i].kind == kind
}

/// `dest` after the components of `src` were offered to it in order: a
/// component is added unless it is a hierarchy link or its kind is already
/// present.
pub open spec fn merged(dest: Seq<Component>, src: Seq<Component>) -> Seq<Component>
    decreases src.len(),
{
    if src.len() == 0 {
        dest
    } else {
        let d = merged(dest, src.drop_last());
        let c = src.last();
        if is_linkage(c.kind) || has_kind(d, c.kind) {
            d
        } else {
            d.push(c)
        }
    }
}

/// Migration keeps what the destination had, and everything it adds comes
/// from the source and is never a hierarchy-linkage component.
pub proof fn lemma_migration_excludes_linkage(dest: Seq<Component>, src: Seq<Component>)
    ensures
        merged(dest, src).len() >= dest.len(),
        merged(dest, src).subrange(0, dest.len() as int) == dest,
        forall|i: int|
            dest.len() <= i < merged(dest, src).len() ==> !is_linkage(
                #[trigger] merged(dest, src)[i].kind,
            ) && src.contains(merged(dest, src)[i]),
    decreases src.len(),
{
    if src.len() > 0 {
        let prev = src.drop_last();
        lemma_migration_excludes_linkage(dest, prev);
        let d = merged(dest, prev);
        assert forall|i: int|
            dest.len() <= i < merged(dest, src).len() implies !is_linkage(
                #[trigger] merged(dest, src)[i].kind,
            ) && src.contains(merged(dest, src)[i]) by {
            if i < d.len() {
                assert(merged(dest, src)[i] == d[i]);
                assert(prev.contains(d[i]));
                let k = choose|k: int| 0 <= k < prev.len() && prev[k] == d[i];
                assert(src[k] == d[i]);
            } else {
                assert(src[src.len() - 1] == src.last());
            }
        }
        assert(merged(dest, src).subrange(0, dest.len() as int) =~= dest);
    } else {
        assert(dest.subrange(0, dest.len() as int) =~= dest);
    }
}

fn has_kind_exec(v: &Vec<Component>, kind: u64) -> (r: bool)
    ensures
        r == has_kind(v@, kind),
{
    let mut i: usize = 0;
    while i < v.len()
        invariant
            i <= v@.len(),
            forall|j: int| 0 <= j < i ==> v@[j].kind != kind,
        decreases v@.len() - i,
    {
        if v[i].kind == kind {
            return true;
        }
        i += 1;
    }
    false
}

impl World {
    /// Copies the components of `src` onto `dst` (non-stringent: a kind
    /// that `dst` already holds is skipped, as are hierarchy links).
    pub fn copy_components(&mut self, src: usize, dst: usize)
        requires
            old(self).wf(),
            (src as int) < old(self).len(),
            (dst as int) < old(self).len(),
        ensures
            final(self).wf(),
            final(self).components@.len() == old(self).len(),
            final(self).comps(dst) == merged(old(self).comps(dst), old(self).comps(src)),
            forall|i: int|
                0 <= i < old(self).len() && i != dst ==> final(self).components@[i] == old(
                    self,
                ).components@[i],
            final(self).alive == old(self).alive,
            final(self).parent == old(self).parent,
            final(self).visible == old(self).visible,
            final(self).in_blueprint == old(self).in_blueprint,
            final(self).player_added == old(self).player_added,
            final(self).animation_link == old(self).animation_link,
    {
        let from = &self.components[src];
        let mut cur = self.copy_of_components(dst);
        let mut i: usize = 0;
        while i < from.len()
            invariant
                i <= from@.len(),
                from@ == old(self).comps(src),
                cur@ == merged(old(self).comps(dst), from@.subrange(0, i as int)),
            decreases from@.len() - i,
        {
            let c = from[i];
            assert(from@.subrange(0, i + 1).drop_last() == from@.subrange(0, i as int));
            assert(from@.subrange(0, i + 1).last() == c);
            if c.kind != PARENT_KIND && c.kind != CHILDREN_KIND && !has_kind_exec(&cur, c.kind) {
                cur.push(c);
            }
            i += 1;
        }
        assert(from@.subrange(0, from@.len() as int) == from@);
        self.components.set(dst, cur);
    }
}

} // verus!
