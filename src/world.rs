//! An arena of entities. An entity is its index; parents always have a
//! smaller index than their children, so the hierarchy has no cycles.

use vstd::prelude::*;

verus! {

/// Kind of the component that links an entity to its parent.
pub const PARENT_KIND: u64 = 0;

/// Kind of the component that lists an entity's children.
pub const CHILDREN_KIND: u64 = 1;

/// Hierarchy-linkage components, which are never copied between entities.
pub open spec fn is_linkage(kind: u64) -> bool {
    kind == PARENT_KIND || kind == CHILDREN_KIND
}

/// `c` is a live entity reached from `a` by one or more parent links, where
/// `alive` and `parent` describe the entities.
pub open spec fn descends_in(alive: Seq<bool>, parent: Seq<Option<usize>>, c: usize, a: usize) -> bool
    decreases c,
{
    if (c as int) < alive.len() && alive[c as int] && (c as int) < parent.len()
        && parent[c as int] is Some && parent[c as int].unwrap() < c {
        let p = parent[c as int].unwrap();
        p == a || descends_in(alive, parent, p, a)
    } else {
        false
    }
}

/// Where no live entity has `a` as its parent, nothing descends from `a`.
pub proof fn lemma_childless_has_no_descendants(
    alive: Seq<bool>,
    parent: Seq<Option<usize>>,
    a: usize,
    c: usize,
)
    requires
        forall|i: usize|
            (i as int) < alive.len() && (i as int) < parent.len() && alive[i as int] ==> parent[i
                as int] != Some(a),
    ensures
        !descends_in(alive, parent, c, a),
    decreases c,
{
    if (c as int) < alive.len() && alive[c as int] && (c as int) < parent.len()
        && parent[c as int] is Some && parent[c as int].unwrap() < c {
        lemma_childless_has_no_descendants(alive, parent, a, parent[c as int].unwrap());
    }
}

/// Among the entities below `n`, the live child of `root` with the highest
/// index that had an animation player attached in this tick.
pub open spec fn last_player_in(
    alive: Seq<bool>,
    parent: Seq<Option<usize>>,
    player_added: Seq<bool>,
    root: usize,
    n: int,
) -> Option<usize>
    decreases n,
{
    if n <= 0 {
        None
    } else if alive[n - 1] && parent[n - 1] == Some(root) && player_added[n - 1] {
        Some((n - 1) as usize)
    } else {
        last_player_in(alive, parent, player_added, root, n - 1)
    }
}

/// One piece of data attached to an entity: its kind and an opaque payload.
#[derive(Clone, Copy, PartialEq, Eq, Structural, Debug)]
pub struct Component {
    pub kind: u64,
    pub value: u64,
}

/// The entity store, one entry per entity in each vector.
pub struct World {
    pub alive: Vec<bool>,
    pub parent: Vec<Option<usize>>,
    pub components: Vec<Vec<Component>>,
    /// The entity's visibility was forced to "visible".
    pub visible: Vec<bool>,
    /// The entity came from a blueprint's sub-scene.
    pub in_blueprint: Vec<bool>,
    /// An animation player was attached to the entity during this tick.
    pub player_added: Vec<bool>,
    /// Non-owning link to the animation player that drives this entity.
    pub animation_link: Vec<Option<usize>>,
}

impl World {
    pub open spec fn len(&self) -> nat {
        self.alive@.len()
    }

    pub open spec fn wf(&self) -> bool {
        &&& self.parent@.len() == self.len()
        &&& self.components@.len() == self.len()
        &&& self.visible@.len() == self.len()
        &&& self.in_blueprint@.len() == self.len()
        &&& self.player_added@.len() == self.len()
        &&& self.animation_link@.len() == self.len()
        &&& forall|i: int|
            0 <= i < self.len() && (#[trigger] self.parent@[i]) is Some ==> (
            self.parent@[i].unwrap() as int) < i
    }

    pub open spec fn is_alive(&self, e: usize) -> bool {
        (e as int) < self.len() && self.alive@[e as int]
    }

    /// `c` is a live entity whose parent is `p`.
    pub open spec fn is_child_of(&self, c: usize, p: usize) -> bool {
        self.is_alive(c) && self.parent@[c as int] == Some(p)
    }

    /// `c` is a live entity reached from `a` by one or more parent links.
    pub open spec fn descends(&self, c: usize, a: usize) -> bool {
        descends_in(self.alive@, self.parent@, c, a)
    }

    pub open spec fn comps(&self, e: usize) -> Seq<Component> {
        self.components@[e as int]@
    }

    pub fn new() -> (w: World)
        ensures
            w.wf(),
            w.len() == 0,
    {
        World {
            alive: Vec::new(),
            parent: Vec::new(),
            components: Vec::new(),
            visible: Vec::new(),
            in_blueprint: Vec::new(),
            player_added: Vec::new(),
            animation_link: Vec::new(),
        }
    }

    /// Adds a live entity with no components, under `parent` if given.
    pub fn spawn(&mut self, parent: Option<usize>) -> (e: usize)
        requires
            old(self).wf(),
            old(self).len() < usize::MAX,
            parent matches Some(p) ==> (p as int) < old(self).len(),
        ensures
            final(self).wf(),
            e == old(self).len(),
            final(self).alive@ == old(self).alive@.push(true),
            final(self).parent@ == old(self).parent@.push(parent),
            final(self).components@.len() == e + 1,
            forall|i: int| 0 <= i < e ==> final(self).components@[i] == old(self).components@[i],
            final(self).comps(e).len() == 0,
            final(self).visible@ == old(self).visible@.push(false),
            final(self).in_blueprint@ == old(self).in_blueprint@.push(false),
            final(self).player_added@ == old(self).player_added@.push(false),
            final(self).animation_link@ == old(self).animation_link@.push(None),
    {
        let e = self.alive.len();
        self.alive.push(true);
        self.parent.push(parent);
        self.components.push(Vec::new());
        self.visible.push(false);
        self.in_blueprint.push(false);
        self.player_added.push(false);
        self.animation_link.push(None);
        e
    }

    pub fn is_alive_exec(&self, e: usize) -> (r: bool)
        requires
            self.wf(),
        ensures
            r == self.is_alive(e),
    {
        e < self.alive.len() && self.alive[e]
    }

    /// Appends a component to `e`.
    pub fn insert_component(&mut self, e: usize, c: Component)
        requires
            old(self).wf(),
            (e as int) < old(self).len(),
        ensures
            final(self).wf(),
            final(self).components@.len() == old(self).components@.len(),
            final(self).comps(e) == old(self).comps(e).push(c),
            forall|i: int|
                0 <= i < old(self).len() && i != e ==> final(self).components@[i] == old(
                    self,
                ).components@[i],
            final(self).alive == old(self).alive,
            final(self).parent == old(self).parent,
            final(self).visible == old(self).visible,
            final(self).in_blueprint == old(self).in_blueprint,
            final(self).player_added == old(self).player_added,
            final(self).animation_link == old(self).animation_link,
    {
        let mut cs = self.copy_of_components(e);
        cs.push(c);
        self.components.set(e, cs);
    }

    pub(crate) fn copy_of_components(&self, e: usize) -> (r: Vec<Component>)
        requires
            self.wf(),
            (e as int) < self.len(),
        ensures
            r@ == self.comps(e),
    {
        let src = &self.components[e];
        let mut r: Vec<Component> = Vec::new();
        let mut i: usize = 0;
        while i < src.len()
            invariant
                i <= src@.len(),
                r@ == src@.subrange(0, i as int),
            decreases src@.len() - i,
        {
            r.push(src[i]);
            i += 1;
        }
        assert(r@ == src@.subrange(0, src@.len() as int));
        r
    }

    /// Records that an animation player was attached to `e` in this tick.
    pub fn add_animation_player(&mut self, e: usize)
        requires
            old(self).wf(),
            (e as int) < old(self).len(),
        ensures
            final(self).wf(),
            final(self).player_added@ == old(self).player_added@.update(e as int, true),
            final(self).alive == old(self).alive,
            final(self).parent == old(self).parent,
            final(self).components == old(self).components,
            final(self).visible == old(self).visible,
            final(self).in_blueprint == old(self).in_blueprint,
            final(self).animation_link == old(self).animation_link,
    {
        self.player_added.set(e, true);
    }

    /// The live children of `p`, in increasing order.
    pub fn children_of(&self, p: usize) -> (r: Vec<usize>)
        requires
            self.wf(),
        ensures
            forall|c: usize| r@.contains(c) <==> self.is_child_of(c, p),
            forall|i: int, j: int| 0 <= i < j < r@.len() ==> r@[i] < r@[j],
    {
        let n = self.alive.len();
        let mut r: Vec<usize> = Vec::new();
        let mut i: usize = 0;
        while i < n
            invariant
                self.wf(),
                n == self.len(),
                i <= n,
                forall|c: usize| r@.contains(c) <==> (c < i && self.is_child_of(c, p)),
                forall|k: int| 0 <= k < r@.len() ==> r@[k] < i,
                forall|k: int, j: int| 0 <= k < j < r@.len() ==> r@[k] < r@[j],
            decreases n - i,
        {
            let ghost before = r@;
            if self.alive[i] && self.parent[i] == Some(p) {
                r.push(i);
                assert(forall|c: usize| r@.contains(c) <==> (before.contains(c) || c == i)) by {
                    assert(forall|c: usize| before.contains(c) ==> r@.contains(c)) by {
                        assert(forall|k: int| 0 <= k < before.len() ==> r@[k] == before[k]);
                    }
                    assert(r@[before.len() as int] == i);
                };
            }
            i += 1;
        }
        r
    }

    /// For each entity, whether it descends from `a`.
    pub fn descendants_mask(&self, a: usize) -> (r: Vec<bool>)
        requires
            self.wf(),
        ensures
            r@.len() == self.len(),
            forall|i: int| 0 <= i < self.len() ==> r@[i] == self.descends(i as usize, a),
    {
        let n = self.alive.len();
        let mut r: Vec<bool> = Vec::new();
        let mut i: usize = 0;
        while i < n
            invariant
                self.wf(),
                n == self.len(),
                i <= n,
                r@.len() == i,
                forall|j: int| 0 <= j < i ==> r@[j] == self.descends(j as usize, a),
            decreases n - i,
        {
            let d = match self.parent[i] {
                Some(p) => self.alive[i] && (p == a || r[p]),
                None => false,
            };
            r.push(d);
            i += 1;
        }
        r
    }

    /// Makes `c` a child of `p`.
    pub fn add_child(&mut self, p: usize, c: usize)
        requires
            old(self).wf(),
            p < c,
            (c as int) < old(self).len(),
        ensures
            final(self).wf(),
            final(self).parent@ == old(self).parent@.update(c as int, Some(p)),
            final(self).alive == old(self).alive,
            final(self).components == old(self).components,
            final(self).visible == old(self).visible,
            final(self).in_blueprint == old(self).in_blueprint,
            final(self).player_added == old(self).player_added,
            final(self).animation_link == old(self).animation_link,
    {
        self.parent.set(c, Some(p));
    }

    /// Forces the visibility of `e` to "visible".
    pub fn set_visible(&mut self, e: usize)
        requires
            old(self).wf(),
            (e as int) < old(self).len(),
        ensures
            final(self).wf(),
            final(self).visible@ == old(self).visible@.update(e as int, true),
            final(self).alive == old(self).alive,
            final(self).parent == old(self).parent,
            final(self).components == old(self).components,
            final(self).in_blueprint == old(self).in_blueprint,
            final(self).player_added == old(self).player_added,
            final(self).animation_link == old(self).animation_link,
    {
        self.visible.set(e, true);
    }

    /// Removes `e` and every entity that descends from it.
    pub fn despawn_recursive(&mut self, e: usize)
        requires
            old(self).wf(),
        ensures
            final(self).wf(),
            final(self).alive@.len() == old(self).len(),
            forall|i: int|
                0 <= i < old(self).len() ==> final(self).alive@[i] == (old(self).alive@[i] && !(i
                    == e || old(self).descends(i as usize, e))),
            final(self).parent == old(self).parent,
            final(self).components == old(self).components,
            final(self).visible == old(self).visible,
            final(self).in_blueprint == old(self).in_blueprint,
            final(self).player_added == old(self).player_added,
            final(self).animation_link == old(self).animation_link,
    {
        let mask = self.descendants_mask(e);
        let n = self.alive.len();
        let mut i: usize = 0;
        while i < n
            invariant
                self.wf(),
                n == old(self).len(),
                i <= n,
                mask@.len() == n,
                forall|j: int| 0 <= j < n ==> mask@[j] == old(self).descends(j as usize, e),
                self.alive@.len() == n,
                forall|j: int|
                    0 <= j < i ==> self.alive@[j] == (old(self).alive@[j] && !(j == e
                        || old(self).descends(j as usize, e))),
                forall|j: int| i <= j < n ==> self.alive@[j] == old(self).alive@[j],
                self.parent == old(self).parent,
                self.components == old(self).components,
                self.visible == old(self).visible,
                self.in_blueprint == old(self).in_blueprint,
                self.player_added == old(self).player_added,
                self.animation_link == old(self).animation_link,
            decreases n - i,
        {
            if i == e || mask[i] {
                self.alive.set(i, false);
            }
            i += 1;
        }
    }

    /// Marks every entity that descends from `a` as coming from a blueprint.
    pub fn tag_descendants(&mut self, a: usize)
        requires
            old(self).wf(),
        ensures
            final(self).wf(),
            final(self).in_blueprint@.len() == old(self).len(),
            forall|i: int|
                0 <= i < old(self).len() ==> final(self).in_blueprint@[i] == (
                old(self).in_blueprint@[i] || old(self).descends(i as usize, a)),
            final(self).alive == old(self).alive,
            final(self).parent == old(self).parent,
            final(self).components == old(self).components,
            final(self).visible == old(self).visible,
            final(self).player_added == old(self).player_added,
            final(self).animation_link == old(self).animation_link,
    {
        let mask = self.descendants_mask(a);
        let n = self.alive.len();
        let mut i: usize = 0;
        while i < n
            invariant
                self.wf(),
                n == old(self).len(),
                i <= n,
                mask@.len() == n,
                forall|j: int| 0 <= j < n ==> mask@[j] == old(self).descends(j as usize, a),
                self.in_blueprint@.len() == n,
                forall|j: int|
                    0 <= j < i ==> self.in_blueprint@[j] == (old(self).in_blueprint@[j]
                        || old(self).descends(j as usize, a)),
                forall|j: int| i <= j < n ==> self.in_blueprint@[j] == old(self).in_blueprint@[j],
                self.alive == old(self).alive,
                self.parent == old(self).parent,
                self.components == old(self).components,
                self.visible == old(self).visible,
                self.player_added == old(self).player_added,
                self.animation_link == old(self).animation_link,
            decreases n - i,
        {
            if mask[i] {
                self.in_blueprint.set(i, true);
            }
            i += 1;
        }
    }

    /// The live child of `root` with the highest index that had an animation
    /// player attached in this tick.
    pub open spec fn last_player_under(&self, root: usize) -> Option<usize> {
        last_player_in(self.alive@, self.parent@, self.player_added@, root, self.len() as int)
    }

    /// Links `dst` to an animation player newly attached directly under
    /// `root`; where there are several, the last one wins.
    pub fn link_animation_player(&mut self, root: usize, dst: usize)
        requires
            old(self).wf(),
            (dst as int) < old(self).len(),
        ensures
            final(self).wf(),
            final(self).animation_link@ == match old(self).last_player_under(root) {
                Some(pl) => old(self).animation_link@.update(dst as int, Some(pl)),
                None => old(self).animation_link@,
            },
            final(self).alive == old(self).alive,
            final(self).parent == old(self).parent,
            final(self).components == old(self).components,
            final(self).visible == old(self).visible,
            final(self).in_blueprint == old(self).in_blueprint,
            final(self).player_added == old(self).player_added,
    {
        let n = self.alive.len();
        let mut found: Option<usize> = None;
        let mut i: usize = 0;
        while i < n
            invariant
                self.wf(),
                n == self.len(),
                i <= n,
                found == last_player_in(self.alive@, self.parent@, self.player_added@, root, i as int),
            decreases n - i,
        {
            if self.alive[i] && self.parent[i] == Some(root) && self.player_added[i] {
                found = Some(i);
            }
            i += 1;
        }
        if let Some(pl) = found {
            self.animation_link.set(dst, Some(pl));
        }
    }
}

} // verus!
