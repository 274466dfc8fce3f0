//! Completion trackers: for each instance that owns nested blueprint
//! instances, which of them are done, and whether its completion event has
//! been published.

use vstd::prelude::*;
use crate::instance::BlueprintInfo;

verus! {

/// Published once an instance and all its nested instances are ready.
#[derive(Clone, Debug)]
pub struct CompletionEvent {
    pub entity: usize,
    pub blueprint_name: String,
    pub blueprint_path: String,
}

/// `ev` announces the completion of `entity`, a blueprint described by `info`.
pub open spec fn announces(ev: CompletionEvent, entity: usize, info: BlueprintInfo) -> bool {
    &&& ev.entity == entity
    &&& ev.blueprint_name@ == info.name@
    &&& ev.blueprint_path@ == info.path@
}

pub(crate) fn completion_event(entity: usize, info: &BlueprintInfo) -> (ev: CompletionEvent)
    ensures
        announces(ev, entity, *info),
{
    CompletionEvent {
        entity,
        blueprint_name: info.name.clone(),
        blueprint_path: info.path.clone(),
    }
}

/// The nested instances recorded in `s`, each with its done flag.
pub open spec fn entries_view(s: Seq<(usize, bool)>) -> Map<usize, bool> {
    Map::new(
        |k: usize| exists|i: int| 0 <= i < s.len() && s[i].0 == k,
        |k: usize| exists|i: int| 0 <= i < s.len() && s[i].0 == k && s[i].1,
    )
}

/// Every recorded nested instance is done.
pub open spec fn all_done(m: Map<usize, bool>) -> bool {
    forall|k: usize| m.contains_key(k) ==> m[k]
}

/// One report from nested instance `child` to a tracker whose entries are
/// `m` and whose event has been published iff `fired`: the new entries, the
/// new flag, and whether the event is published now.
pub open spec fn report_step(m: Map<usize, bool>, fired: bool, child: usize) -> (
    Map<usize, bool>,
    bool,
    bool,
) {
    let d = m.insert(child, true);
    let emit = all_done(d) && !fired;
    (d, fired || emit, emit)
}

/// A sequence of reports, in order: the final entries, the final flag, and
/// how many events were published on the way.
pub open spec fn run_reports(m: Map<usize, bool>, fired: bool, reports: Seq<usize>) -> (
    Map<usize, bool>,
    bool,
    nat,
)
    decreases reports.len(),
{
    if reports.len() == 0 {
        (m, fired, 0)
    } else {
        let prev = run_reports(m, fired, reports.drop_last());
        let step = report_step(prev.0, prev.1, reports.last());
        (step.0, step.1, prev.2 + if step.2 {
            1nat
        } else {
            0nat
        })
    }
}

/// However many reports arrive, a tracker publishes at most one event, and
/// none once it has published.
pub proof fn lemma_single_emission(m: Map<usize, bool>, fired: bool, reports: Seq<usize>)
    ensures
        run_reports(m, fired, reports).2 <= 1,
        fired ==> run_reports(m, fired, reports).2 == 0,
        run_reports(m, fired, reports).1 == (fired || run_reports(m, fired, reports).2 == 1),
    decreases reports.len(),
{
    if reports.len() > 0 {
        lemma_single_emission(m, fired, reports.drop_last());
    }
}

/// For a tracker with at least one nested instance, none of them done and no
/// event published, and reports from its nested instances in any order and
/// with repeats: the event is published, exactly once, iff every nested
/// instance has reported.
pub proof fn lemma_aggregate_completion(m: Map<usize, bool>, reports: Seq<usize>)
    requires
        exists|k: usize| m.contains_key(k),
        forall|k: usize| m.contains_key(k) ==> !m[k],
        forall|j: int| 0 <= j < reports.len() ==> m.contains_key(#[trigger] reports[j]),
    ensures
        run_reports(m, false, reports).2 == (if (forall|k: usize|
            m.contains_key(k) ==> reports.contains(k)) {
            1nat
        } else {
            0nat
        }),
        run_reports(m, false, reports).1 == (forall|k: usize|
            m.contains_key(k) ==> reports.contains(k)),
        run_reports(m, false, reports).0.dom() == m.dom(),
        forall|k: usize|
            m.contains_key(k) ==> run_reports(m, false, reports).0[k] == reports.contains(k),
    decreases reports.len(),
{
    lemma_single_emission(m, false, reports);
    if reports.len() > 0 {
        let prev = reports.drop_last();
        let c = reports.last();
        assert forall|j: int| 0 <= j < prev.len() implies m.contains_key(#[trigger] prev[j]) by {
            assert(prev[j] == reports[j]);
        }
        lemma_aggregate_completion(m, prev);
        lemma_single_emission(m, false, prev);
        let p = run_reports(m, false, prev);
        let d = p.0.insert(c, true);
        assert(m.contains_key(reports[reports.len() - 1]));
        assert(d.dom() =~= m.dom());
        assert forall|k: usize| m.contains_key(k) implies d[k] == reports.contains(k) by {
            if prev.contains(k) {
                let j = choose|j: int| 0 <= j < prev.len() && prev[j] == k;
                assert(reports[j] == k);
            }
            if reports.contains(k) && k != c {
                let j = choose|j: int| 0 <= j < reports.len() && reports[j] == k;
                assert(j < prev.len());
                assert(prev[j] == k);
            }
            assert(reports[reports.len() - 1] == c);
        }
        let full = forall|k: usize| m.contains_key(k) ==> reports.contains(k);
        let pfull = forall|k: usize| m.contains_key(k) ==> prev.contains(k);
        assert(all_done(d) == full);
        assert(all_done(p.0) == pfull) by {
            assert forall|k: usize| #[trigger] p.0.contains_key(k) <==> m.contains_key(k) by {
                assert(p.0.dom().contains(k) == m.dom().contains(k));
            }
            if all_done(p.0) {
                assert forall|k: usize| m.contains_key(k) implies prev.contains(k) by {
                    assert(p.0.contains_key(k));
                    assert(p.0[k]);
                }
            }
            if pfull {
                assert forall|k: usize| p.0.contains_key(k) implies p.0[k] by {
                    assert(m.contains_key(k));
                    assert(prev.contains(k));
                }
            }
        }
        if pfull {
            assert forall|k: usize| m.contains_key(k) implies reports.contains(k) by {
                assert(prev.contains(k));
                let j = choose|j: int| 0 <= j < prev.len() && prev[j] == k;
                assert(reports[j] == k);
            }
            assert(p.2 == 1 && p.1);
            assert(run_reports(m, false, reports).2 == 1);
        } else {
            assert(p.2 == 0 && !p.1);
            assert(run_reports(m, false, reports) == (d, full, if full { 1nat } else { 0nat }));
        }
    } else {
        let k0 = choose|k: usize| m.contains_key(k);
        assert(!reports.contains(k0));
    }
}

/// The completion state of one owner's nested instances.
pub struct Tracker {
    pub owner: usize,
    pub info: BlueprintInfo,
    pub sub_instances: Vec<(usize, bool)>,
    /// The owner's completion event has been published.
    pub fired: bool,
}

impl Tracker {
    pub open spec fn wf(&self) -> bool {
        forall|i: int, j: int|
            0 <= i < j < self.sub_instances@.len() ==> self.sub_instances@[i].0
                != self.sub_instances@[j].0
    }

    pub open spec fn entries(&self) -> Map<usize, bool> {
        entries_view(self.sub_instances@)
    }

    fn position(&self, child: usize) -> (r: Option<usize>)
        requires
            self.wf(),
        ensures
            r matches Some(i) ==> i < self.sub_instances@.len() && self.sub_instances@[i as int].0
                == child,
            r is None ==> !self.entries().contains_key(child),
    {
        let mut i: usize = 0;
        while i < self.sub_instances.len()
            invariant
                i <= self.sub_instances@.len(),
                forall|j: int| 0 <= j < i ==> self.sub_instances@[j].0 != child,
            decreases self.sub_instances@.len() - i,
        {
            if self.sub_instances[i].0 == child {
                return Some(i);
            }
            i += 1;
        }
        None
    }

    /// Whether every recorded nested instance is done.
    pub fn all_done_exec(&self) -> (r: bool)
        requires
            self.wf(),
        ensures
            r == all_done(self.entries()),
    {
        let mut i: usize = 0;
        while i < self.sub_instances.len()
            invariant
                self.wf(),
                i <= self.sub_instances@.len(),
                forall|j: int| 0 <= j < i ==> self.sub_instances@[j].1,
            decreases self.sub_instances@.len() - i,
        {
            if !self.sub_instances[i].1 {
                let ghost k = self.sub_instances@[i as int].0;
                assert(self.entries().contains_key(k));
                assert(!self.entries()[k]);
                return false;
            }
            i += 1;
        }
        true
    }

    /// Records `child` as a nested instance, not yet done, unless it is
    /// already recorded.
    pub fn register(&mut self, child: usize)
        requires
            old(self).wf(),
        ensures
            final(self).wf(),
            final(self).entries() == if old(self).entries().contains_key(child) {
                old(self).entries()
            } else {
                old(self).entries().insert(child, false)
            },
            final(self).owner == old(self).owner,
            final(self).info == old(self).info,
            final(self).fired == old(self).fired,
    {
        if self.position(child).is_none() {
            let ghost s0 = self.sub_instances@;
            self.sub_instances.push((child, false));
            assert(self.entries() =~= entries_view(s0).insert(child, false)) by {
                assert forall|k: usize| #[trigger] self.entries().contains_key(k) <==> entries_view(s0).insert(child, false).contains_key(k) by {
                    if k != child && self.entries().contains_key(k) {
                        let i = choose|i: int| 0 <= i < self.sub_instances@.len() && self.sub_instances@[i].0 == k;
                        assert(s0[i].0 == k);
                    }
                    if k != child && entries_view(s0).contains_key(k) {
                        let i = choose|i: int| 0 <= i < s0.len() && s0[i].0 == k;
                        assert(self.sub_instances@[i].0 == k);
                    }
                    if k == child {
                        assert(self.sub_instances@[s0.len() as int].0 == child);
                    }
                }
                assert forall|k: usize| #[trigger] self.entries().contains_key(k) implies self.entries()[k] == entries_view(s0).insert(child, false)[k] by {
                    if k != child && self.entries()[k] {
                        let i = choose|i: int| 0 <= i < self.sub_instances@.len() && self.sub_instances@[i].0 == k && self.sub_instances@[i].1;
                        assert(s0[i].0 == k && s0[i].1);
                    }
                    if k != child && entries_view(s0)[k] {
                        let i = choose|i: int| 0 <= i < s0.len() && s0[i].0 == k && s0[i].1;
                        assert(self.sub_instances@[i].0 == k && self.sub_instances@[i].1);
                    }
                    if k == child && self.entries()[k] {
                        let i = choose|i: int| 0 <= i < self.sub_instances@.len() && self.sub_instances@[i].0 == k && self.sub_instances@[i].1;
                        assert(i == s0.len());
                    }
                }
            }
        }
    }

    /// Handles a report from nested instance `child`: records it as done and,
    /// when that makes every nested instance done for the first time,
    /// returns the owner's completion event.
    pub fn report(&mut self, child: usize) -> (r: Option<CompletionEvent>)
        requires
            old(self).wf(),
        ensures
            final(self).wf(),
            final(self).entries() == report_step(old(self).entries(), old(self).fired, child).0,
            final(self).fired == report_step(old(self).entries(), old(self).fired, child).1,
            r is Some <==> report_step(old(self).entries(), old(self).fired, child).2,
            r matches Some(ev) ==> announces(ev, old(self).owner, old(self).info),
            final(self).owner == old(self).owner,
            final(self).info == old(self).info,
    {
        let ghost s0 = self.sub_instances@;
        let ghost target = entries_view(s0).insert(child, true);
        match self.position(child) {
            Some(i) => {
                self.sub_instances.set(i, (child, true));
                assert forall|k: usize| #[trigger] self.entries().contains_key(k) <==> target.contains_key(k) by {
                    if self.entries().contains_key(k) {
                        let j = choose|j: int| 0 <= j < self.sub_instances@.len() && self.sub_instances@[j].0 == k;
                        if j != i {
                            assert(s0[j].0 == k);
                        }
                    }
                    if entries_view(s0).contains_key(k) {
                        let j = choose|j: int| 0 <= j < s0.len() && s0[j].0 == k;
                        assert(self.sub_instances@[j].0 == k);
                    }
                    if k == child {
                        assert(self.sub_instances@[i as int].0 == k);
                    }
                }
                assert forall|k: usize| #[trigger] self.entries().contains_key(k) implies self.entries()[k] == target[k] by {
                    if k == child {
                        assert(self.sub_instances@[i as int] == (child, true));
                    } else {
                        if self.entries()[k] {
                            let j = choose|j: int| 0 <= j < self.sub_instances@.len() && self.sub_instances@[j].0 == k && self.sub_instances@[j].1;
                            assert(s0[j].0 == k && s0[j].1);
                        }
                        if entries_view(s0)[k] {
                            let j = choose|j: int| 0 <= j < s0.len() && s0[j].0 == k && s0[j].1;
                            assert(self.sub_instances@[j].0 == k && self.sub_instances@[j].1);
                        }
                    }
                }
                assert(self.entries() =~= target);
            },
            None => {
                self.sub_instances.push((child, true));
                assert forall|k: usize| #[trigger] self.entries().contains_key(k) <==> target.contains_key(k) by {
                    if k != child && self.entries().contains_key(k) {
                        let j = choose|j: int| 0 <= j < self.sub_instances@.len() && self.sub_instances@[j].0 == k;
                        assert(s0[j].0 == k);
                    }
                    if entries_view(s0).contains_key(k) {
                        let j = choose|j: int| 0 <= j < s0.len() && s0[j].0 == k;
                        assert(self.sub_instances@[j].0 == k);
                    }
                    if k == child {
                        assert(self.sub_instances@[s0.len() as int].0 == k);
                    }
                }
                assert forall|k: usize| #[trigger] self.entries().contains_key(k) implies self.entries()[k] == target[k] by {
                    if k == child {
                        assert(self.sub_instances@[s0.len() as int] == (child, true));
                    } else {
                        if self.entries()[k] {
                            let j = choose|j: int| 0 <= j < self.sub_instances@.len() && self.sub_instances@[j].0 == k && self.sub_instances@[j].1;
                            assert(s0[j].0 == k && s0[j].1);
                        }
                        if entries_view(s0)[k] {
                            let j = choose|j: int| 0 <= j < s0.len() && s0[j].0 == k && s0[j].1;
                            assert(self.sub_instances@[j].0 == k && self.sub_instances@[j].1);
                        }
                    }
                }
                assert(self.entries() =~= target);
            },
        }
        if !self.fired && self.all_done_exec() {
            self.fired = true;
            Some(completion_event(self.owner, &self.info))
        } else {
            None
        }
    }
}

/// `new` is tracker `old` after a report from nested instance `child`.
pub open spec fn after_report(old: Tracker, new: Tracker, child: usize) -> bool {
    &&& new.wf()
    &&& new.owner == old.owner
    &&& new.info == old.info
    &&& new.entries() == report_step(old.entries(), old.fired, child).0
    &&& new.fired == report_step(old.entries(), old.fired, child).1
}

/// The events `evs` are published on top of the set `p0` of entities whose
/// completion was already published, giving `p1`: no entity twice, none
/// that was already published, and `p1` adds exactly their entities.
pub open spec fn publishes(p0: Set<usize>, p1: Set<usize>, evs: Seq<CompletionEvent>) -> bool {
    &&& forall|i: int, j: int| 0 <= i < j < evs.len() ==> evs[i].entity != evs[j].entity
    &&& forall|i: int| 0 <= i < evs.len() ==> !p0.contains(#[trigger] evs[i].entity)
    &&& p1 == p0.union(Set::new(|e: usize| exists|i: int| 0 <= i < evs.len() && evs[i].entity == e))
}

/// Publishing is compositional: events published one after another, across
/// any number of ticks, never announce one entity twice.
pub proof fn lemma_publishes_compose(
    p0: Set<usize>,
    p1: Set<usize>,
    p2: Set<usize>,
    a: Seq<CompletionEvent>,
    b: Seq<CompletionEvent>,
)
    requires
        publishes(p0, p1, a),
        publishes(p1, p2, b),
    ensures
        publishes(p0, p2, a + b),
{
    let ab = a + b;
    assert forall|i: int, j: int| 0 <= i < j < ab.len() implies ab[i].entity != ab[j].entity by {
        if j >= a.len() && i < a.len() {
            assert(p1.contains(a[i].entity));
            assert(ab[j] == b[j - a.len()]);
            assert(!p1.contains(b[j - a.len()].entity));
        } else if i >= a.len() {
            assert(ab[i] == b[i - a.len()] && ab[j] == b[j - a.len()]);
        }
    }
    assert forall|i: int| 0 <= i < ab.len() implies !p0.contains(#[trigger] ab[i].entity) by {
        if i >= a.len() {
            assert(ab[i] == b[i - a.len()]);
            assert(!p1.contains(b[i - a.len()].entity));
        }
    }
    let ea = Set::new(|e: usize| exists|i: int| 0 <= i < a.len() && a[i].entity == e);
    let eb = Set::new(|e: usize| exists|i: int| 0 <= i < b.len() && b[i].entity == e);
    let eab = Set::new(|e: usize| exists|i: int| 0 <= i < ab.len() && ab[i].entity == e);
    assert forall|e: usize| eab.contains(e) <==> ea.contains(e) || eb.contains(e) by {
        if eab.contains(e) {
            let i = choose|i: int| 0 <= i < ab.len() && ab[i].entity == e;
            if i >= a.len() {
                assert(b[i - a.len()].entity == e);
            } else {
                assert(a[i].entity == e);
            }
        }
        if ea.contains(e) {
            let i = choose|i: int| 0 <= i < a.len() && a[i].entity == e;
            assert(ab[i].entity == e);
        }
        if eb.contains(e) {
            let i = choose|i: int| 0 <= i < b.len() && b[i].entity == e;
            assert(ab[i + a.len()].entity == e);
        }
    }
    assert(p2 =~= p0.union(eab));
}

/// All trackers, at most one per owner, and the entities whose completion
/// event has been published.
pub struct Trackers {
    pub list: Vec<Tracker>,
    pub published: Vec<usize>,
}

impl Trackers {
    /// A tracker has fired exactly when its owner's completion is published.
    pub open spec fn wf(&self) -> bool {
        &&& forall|i: int| 0 <= i < self.list@.len() ==> (#[trigger] self.list@[i]).wf()
        &&& forall|i: int, j: int|
            0 <= i < j < self.list@.len() ==> self.list@[i].owner != self.list@[j].owner
        &&& forall|i: int|
            0 <= i < self.list@.len() ==> (#[trigger] self.list@[i]).fired
                == self.published@.contains(self.list@[i].owner)
    }

    /// Tracker `i` belongs to `owner`.
    pub open spec fn at(&self, owner: usize, i: int) -> bool {
        0 <= i < self.list@.len() && self.list@[i].owner == owner
    }

    pub open spec fn has(&self, owner: usize) -> bool {
        exists|i: int| self.at(owner, i)
    }

    pub open spec fn is_published(&self, e: usize) -> bool {
        self.published@.contains(e)
    }

    pub open spec fn published_set(&self) -> Set<usize> {
        Set::new(|e: usize| self.published@.contains(e))
    }

    pub fn new() -> (t: Trackers)
        ensures
            t.wf(),
            t.list@.len() == 0,
            t.published@.len() == 0,
    {
        Trackers { list: Vec::new(), published: Vec::new() }
    }

    fn position(&self, owner: usize) -> (r: Option<usize>)
        ensures
            r matches Some(i) ==> self.at(owner, i as int),
            r is None <==> !self.has(owner),
    {
        let mut i: usize = 0;
        while i < self.list.len()
            invariant
                i <= self.list@.len(),
                forall|j: int| 0 <= j < i ==> self.list@[j].owner != owner,
            decreases self.list@.len() - i,
        {
            if self.list[i].owner == owner {
                assert(self.at(owner, i as int));
                return Some(i);
            }
            i += 1;
        }
        None
    }

    /// Whether `owner` has a tracker, that is, owns nested instances.
    pub fn has_tracker(&self, owner: usize) -> (r: bool)
        ensures
            r == self.has(owner),
    {
        self.position(owner).is_some()
    }

    /// Whether the completion event of `e` has been published.
    pub fn has_published(&self, e: usize) -> (r: bool)
        ensures
            r == self.is_published(e),
    {
        let mut i: usize = 0;
        while i < self.published.len()
            invariant
                i <= self.published@.len(),
                forall|j: int| 0 <= j < i ==> self.published@[j] != e,
            decreases self.published@.len() - i,
        {
            if self.published[i] == e {
                return true;
            }
            i += 1;
        }
        false
    }

    /// Whether the completion event of `owner` has been published through
    /// its tracker.
    pub fn has_fired(&self, owner: usize) -> (r: bool)
        requires
            self.wf(),
        ensures
            r == exists|i: int| self.at(owner, i) && self.list@[i].fired,
    {
        match self.position(owner) {
            Some(i) => self.list[i].fired,
            None => false,
        }
    }

    /// Records the completion of `e`, an instance without a tracker, as
    /// published.
    pub(crate) fn publish_leaf(&mut self, e: usize)
        requires
            old(self).wf(),
            !old(self).has(e),
        ensures
            final(self).wf(),
            final(self).list == old(self).list,
            final(self).published@ == old(self).published@.push(e),
    {
        self.published.push(e);
        proof {
            assert forall|i: int| 0 <= i < self.list@.len() implies (#[trigger] self.list@[i]).fired
                == self.published@.contains(self.list@[i].owner) by {
                assert(!old(self).at(e, i));
                assert(old(self).published@.contains(self.list@[i].owner) ==> self.published@.contains(self.list@[i].owner)) by {
                    if old(self).published@.contains(self.list@[i].owner) {
                        let j = choose|j: int| 0 <= j < old(self).published@.len() && old(self).published@[j] == self.list@[i].owner;
                        assert(self.published@[j] == self.list@[i].owner);
                    }
                }
                assert(self.published@.contains(self.list@[i].owner) ==> old(self).published@.contains(self.list@[i].owner)) by {
                    if self.published@.contains(self.list@[i].owner) {
                        let j = choose|j: int| 0 <= j < self.published@.len() && self.published@[j] == self.list@[i].owner;
                        assert(j < old(self).published@.len());
                        assert(old(self).published@[j] == self.list@[i].owner);
                    }
                }
            }
        }
    }

    /// Records `child` as a nested instance of `owner`, not yet done, creating
    /// the owner's tracker (for blueprint `info`) the first time. A tracker
    /// created for an owner whose completion is already published starts out
    /// fired, so it never publishes again.
    pub fn register(&mut self, owner: usize, info: BlueprintInfo, child: usize)
        requires
            old(self).wf(),
        ensures
            final(self).wf(),
            final(self).published == old(self).published,
            old(self).has(owner) ==> final(self).list@.len() == old(self).list@.len(),
            !old(self).has(owner) ==> {
                &&& final(self).list@.len() == old(self).list@.len() + 1
                &&& final(self).list@.last().owner == owner
                &&& final(self).list@.last().info == info
                &&& final(self).list@.last().fired == old(self).is_published(owner)
                &&& final(self).list@.last().entries() == Map::<usize, bool>::empty().insert(
                    child,
                    false,
                )
            },
            forall|i: int|
                #![trigger final(self).list@[i]]
                0 <= i < old(self).list@.len() ==> if old(self).at(owner, i) {
                    &&& final(self).list@[i].owner == owner
                    &&& final(self).list@[i].info == old(self).list@[i].info
                    &&& final(self).list@[i].fired == old(self).list@[i].fired
                    &&& final(self).list@[i].entries() == if old(
                        self,
                    ).list@[i].entries().contains_key(child) {
                        old(self).list@[i].entries()
                    } else {
                        old(self).list@[i].entries().insert(child, false)
                    }
                } else {
                    final(self).list@[i] == old(self).list@[i]
                },
    {
        match self.position(owner) {
            Some(i) => {
                self.list[i].register(child);
                assert(forall|j: int| 0 <= j < self.list@.len() && j != i ==> self.list@[j] == old(self).list@[j]);
                assert(forall|j: int| 0 <= j < self.list@.len() ==> self.list@[j].owner == old(self).list@[j].owner);
                assert forall|j: int| 0 <= j < self.list@.len() implies (#[trigger] self.list@[j]).wf() by {
                    if j != i {
                        assert(old(self).list@[j].wf());
                    }
                }
                assert forall|a: int, b: int| 0 <= a < b < self.list@.len() implies self.list@[a].owner != self.list@[b].owner by {
                    assert(old(self).list@[a].owner != old(self).list@[b].owner);
                }
                assert forall|j: int| 0 <= j < self.list@.len() implies (#[trigger] self.list@[j]).fired
                    == self.published@.contains(self.list@[j].owner) by {
                    assert(old(self).list@[j].fired == old(self).published@.contains(old(self).list@[j].owner));
                }
            },
            None => {
                let fired = self.has_published(owner);
                let mut t = Tracker { owner, info, sub_instances: Vec::new(), fired };
                assert(t.entries() =~= Map::<usize, bool>::empty());
                t.register(child);
                self.list.push(t);
                assert(forall|j: int| 0 <= j < old(self).list@.len() ==> self.list@[j] == old(self).list@[j]);
                assert(self.list@[old(self).list@.len() as int] == t);
                assert(forall|j: int| 0 <= j < old(self).list@.len() ==> !old(self).at(owner, j));
                assert forall|j: int| 0 <= j < self.list@.len() implies (#[trigger] self.list@[j]).wf() by {
                    if j < old(self).list@.len() {
                        assert(old(self).list@[j].wf());
                    }
                }
                assert forall|a: int, b: int| 0 <= a < b < self.list@.len() implies self.list@[a].owner != self.list@[b].owner by {
                    if b < old(self).list@.len() {
                        assert(old(self).list@[a].owner != old(self).list@[b].owner);
                    } else {
                        assert(!old(self).at(owner, a));
                    }
                }
                assert forall|j: int| 0 <= j < self.list@.len() implies (#[trigger] self.list@[j]).fired
                    == self.published@.contains(self.list@[j].owner) by {
                    if j < old(self).list@.len() {
                        assert(old(self).list@[j].fired == old(self).published@.contains(old(self).list@[j].owner));
                    }
                }
            },
        }
    }

    /// Delivers a report from nested instance `child` to the tracker of
    /// `owner`; returns the owner's completion event when this report
    /// completes it, and records it as published. A report to an owner
    /// without a tracker is dropped.
    pub fn report(&mut self, owner: usize, child: usize) -> (r: Option<CompletionEvent>)
        requires
            old(self).wf(),
        ensures
            final(self).wf(),
            !old(self).has(owner) ==> *final(self) == *old(self) && r is None,
            r is None ==> final(self).published == old(self).published,
            r is Some ==> final(self).published@ == old(self).published@.push(owner)
                && !old(self).is_published(owner),
            forall|i: int|
                old(self).at(owner, i) ==> {
                    &&& final(self).list@.len() == old(self).list@.len()
                    &&& forall|j: int|
                        0 <= j < old(self).list@.len() && j != i ==> final(self).list@[j] == old(
                            self,
                        ).list@[j]
                    &&& after_report(old(self).list@[i], final(self).list@[i], child)
                    &&& (r is Some <==> report_step(
                        old(self).list@[i].entries(),
                        old(self).list@[i].fired,
                        child,
                    ).2)
                    &&& (r matches Some(ev) ==> announces(ev, owner, old(self).list@[i].info))
                },
    {
        match self.position(owner) {
            Some(i) => {
                assert(old(self).list@[i as int].fired == old(self).published@.contains(owner));
                let r = self.list[i].report(child);
                assert(forall|j: int| 0 <= j < self.list@.len() && j != i ==> self.list@[j] == old(self).list@[j]);
                if r.is_some() {
                    self.published.push(owner);
                }
                proof {
                    assert forall|j: int| 0 <= j < self.list@.len() implies (#[trigger] self.list@[j]).wf() by {
                        if j != i {
                            assert(old(self).list@[j].wf());
                        }
                    }
                    assert forall|a: int, b: int| 0 <= a < b < self.list@.len() implies self.list@[a].owner != self.list@[b].owner by {
                        assert(old(self).list@[a].owner != old(self).list@[b].owner);
                    }
                    assert forall|j: int| 0 <= j < self.list@.len() implies (#[trigger] self.list@[j]).fired
                        == self.published@.contains(self.list@[j].owner) by {
                        let o = self.list@[j].owner;
                        assert(old(self).list@[j].fired == old(self).published@.contains(o));
                        if r.is_some() {
                            assert(self.published@[old(self).published@.len() as int] == owner);
                            if old(self).published@.contains(o) {
                                let m = choose|m: int| 0 <= m < old(self).published@.len() && old(self).published@[m] == o;
                                assert(self.published@[m] == o);
                            }
                            if self.published@.contains(o) && o != owner {
                                let m = choose|m: int| 0 <= m < self.published@.len() && self.published@[m] == o;
                                assert(old(self).published@[m] == o);
                            }
                            if j != i {
                                assert(o != owner);
                            }
                        }
                    }
                }
                r
            },
            None => None,
        }
    }
}

} // verus!
