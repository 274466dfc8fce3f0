//! One scheduling tick: post-process every instance that is waiting for it,
//! report finished nested instances to their trackers, and publish
//! completion events.

use vstd::prelude::*;
use crate::instance::Instance;
use crate::marker::Marker;
use crate::restructure::{post_process, post_processed, PostProcessOutcome};
use crate::tracker::{
    after_report, announces, completion_event, lemma_publishes_compose, publishes, report_step,
    CompletionEvent, Trackers,
};
use crate::world::World;

verus! {

/// The owner that `inst` reports to has a tracker, and this report
/// completes it.
pub open spec fn owner_completes(t0: &Trackers, inst: &Instance) -> bool {
    match inst.tracker_owner {
        Some(o) => exists|i: int|
            t0.at(o, i) && report_step(t0.list@[i].entries(), t0.list@[i].fired, inst.entity).2,
        None => false,
    }
}

/// Trackers `t` are `t0` after `inst` reported to its owner's tracker, if
/// it has an owner and the owner has a tracker.
pub open spec fn reported(t0: &Trackers, t: &Trackers, inst: &Instance) -> bool {
    match inst.tracker_owner {
        Some(o) => if t0.has(o) {
            forall|i: int|
                t0.at(o, i) ==> {
                    &&& t.list@.len() == t0.list@.len()
                    &&& forall|j: int|
                        0 <= j < t0.list@.len() && j != i ==> t.list@[j] == t0.list@[j]
                    &&& after_report(t0.list@[i], t.list@[i], inst.entity)
                }
        } else {
            t.list == t0.list
        },
        None => t.list == t0.list,
    }
}

/// The events appended for `inst`, which has just become ready: first the
/// owner's event when this completes the owner, then the instance's own
/// event when it has no tracker of its own (no nested instances) and its
/// completion was not published before. Trackers `t0` become `t`.
pub open spec fn appended(
    t0: &Trackers,
    t: &Trackers,
    inst: &Instance,
    ev0: Seq<CompletionEvent>,
    ev: Seq<CompletionEvent>,
) -> bool {
    let owner_emits = owner_completes(t0, inst);
    let leaf = !t0.has(inst.entity) && !t0.is_published(inst.entity);
    &&& ev.len() == ev0.len() + (if owner_emits { 1int } else { 0int }) + (if leaf { 1int } else { 0int })
    &&& ev.subrange(0, ev0.len() as int) == ev0
    &&& owner_emits ==> exists|i: int|
        t0.at(inst.tracker_owner.unwrap(), i) && announces(
            ev[ev0.len() as int],
            inst.tracker_owner.unwrap(),
            t0.list@[i].info,
        )
    &&& leaf ==> announces(ev.last(), inst.entity, inst.info)
    &&& publishes(t0.published_set(), t.published_set(), ev.subrange(ev0.len() as int, ev.len() as int))
}

proof fn lemma_publish_none(p: Set<usize>)
    ensures
        publishes(p, p, Seq::<CompletionEvent>::empty()),
{
    assert(p =~= p.union(Set::new(|e: usize| exists|i: int| 0 <= i < Seq::<CompletionEvent>::empty().len() && Seq::<CompletionEvent>::empty()[i].entity == e)));
}

proof fn lemma_publish_one(s: Seq<usize>, ev: CompletionEvent)
    requires
        !s.contains(ev.entity),
    ensures
        publishes(
            Set::new(|e: usize| s.contains(e)),
            Set::new(|e: usize| s.push(ev.entity).contains(e)),
            seq![ev],
        ),
{
    let one = seq![ev];
    let p0 = Set::new(|e: usize| s.contains(e));
    let p1 = Set::new(|e: usize| s.push(ev.entity).contains(e));
    let es = Set::new(|e: usize| exists|i: int| 0 <= i < one.len() && one[i].entity == e);
    assert forall|e: usize| p1.contains(e) <==> p0.contains(e) || es.contains(e) by {
        if s.push(ev.entity).contains(e) && e != ev.entity {
            let j = choose|j: int| 0 <= j < s.push(ev.entity).len() && s.push(ev.entity)[j] == e;
            assert(s[j] == e);
        }
        if s.contains(e) {
            let j = choose|j: int| 0 <= j < s.len() && s[j] == e;
            assert(s.push(ev.entity)[j] == e);
        }
        if e == ev.entity {
            assert(s.push(ev.entity)[s.len() as int] == e);
            assert(one[0].entity == e);
        }
        if es.contains(e) {
            let i = choose|i: int| 0 <= i < one.len() && one[i].entity == e;
            assert(i == 0);
        }
    }
    assert(p1 =~= p0.union(es));
}

proof fn lemma_same_list_same_owners(t0: &Trackers, t: &Trackers)
    requires
        t.list == t0.list,
    ensures
        forall|o: usize| t.has(o) <==> t0.has(o),
{
    assert forall|x: usize| t.has(x) <==> t0.has(x) by {
        if t.has(x) {
            let j = choose|j: int| t.at(x, j);
            assert(t0.at(x, j));
        }
        if t0.has(x) {
            let j = choose|j: int| t0.at(x, j);
            assert(t.at(x, j));
        }
    }
}

proof fn lemma_report_keeps_owners(t0: &Trackers, t: &Trackers, inst: &Instance)
    requires
        reported(t0, t, inst),
    ensures
        forall|o: usize| t.has(o) <==> t0.has(o),
{
    if inst.tracker_owner is None || !t0.has(inst.tracker_owner.unwrap()) {
        lemma_same_list_same_owners(t0, t);
    }
    if let Some(o) = inst.tracker_owner {
        if t0.has(o) {
            let i = choose|i: int| t0.at(o, i);
            assert forall|x: usize| t.has(x) <==> t0.has(x) by {
                if t.has(x) {
                    let j = choose|j: int| t.at(x, j);
                    assert(t0.at(x, j));
                }
                if t0.has(x) {
                    let j = choose|j: int| t0.at(x, j);
                    assert(t.at(x, j));
                }
            }
        }
    }
}

/// One instance handled by [`process_instance`] with outcome `out`: the
/// world `w0`, instance `i0`, trackers `t0` and published events `ev0`
/// become `w`, `i`, `t` and `ev`.
pub open spec fn processed(
    w0: &World,
    w: &World,
    i0: &Instance,
    i: &Instance,
    t0: &Trackers,
    t: &Trackers,
    ev0: Seq<CompletionEvent>,
    ev: Seq<CompletionEvent>,
    out: PostProcessOutcome,
) -> bool {
    &&& post_processed(w0, w, i0, i, out)
    &&& t.wf()
    &&& forall|o: usize| t.has(o) <==> t0.has(o)
    &&& !(out is Flattened) ==> *t == *t0 && ev == ev0
    &&& out is Flattened ==> reported(t0, t, i0)
    &&& out is Flattened ==> appended(t0, t, i0, ev0, ev)
}

/// A tick over instances `is0` (becoming `is`), as a chain of single-instance
/// steps through worlds `ws`, trackers `ts` and event lists `es`.
pub open spec fn tick_run(
    is0: Seq<Instance>,
    is: Seq<Instance>,
    ws: Seq<World>,
    ts: Seq<Trackers>,
    es: Seq<Seq<CompletionEvent>>,
    outs: Seq<PostProcessOutcome>,
) -> bool {
    &&& is.len() == is0.len()
    &&& ws.len() == is0.len() + 1
    &&& ts.len() == is0.len() + 1
    &&& es.len() == is0.len() + 1
    &&& outs.len() == is0.len()
    &&& es[0] == Seq::<CompletionEvent>::empty()
    &&& forall|i: int|
        0 <= i < is0.len() ==> processed(
            &ws[i],
            &ws[i + 1],
            &is0[i],
            &is[i],
            &ts[i],
            &ts[i + 1],
            es[i],
            es[i + 1],
            #[trigger] outs[i],
        )
}

/// Post-processes `inst`; when it becomes ready, reports it to its owner's
/// tracker and appends the completion events that this causes to `events`.
pub fn process_instance(
    world: &mut World,
    inst: &mut Instance,
    trackers: &mut Trackers,
    events: &mut Vec<CompletionEvent>,
) -> (out: PostProcessOutcome)
    requires
        old(world).wf(),
        (old(inst).entity as int) < old(world).len(),
        old(trackers).wf(),
    ensures
        processed(
            old(world),
            final(world),
            old(inst),
            final(inst),
            old(trackers),
            final(trackers),
            old(events)@,
            final(events)@,
            out,
        ),
{
    let out = post_process(world, inst);
    if let PostProcessOutcome::Flattened(_) = out {
        let ghost t0 = *trackers;
        let ghost ev0 = events@;
        if let Some(o) = inst.tracker_owner {
            if let Some(ev) = trackers.report(o, inst.entity) {
                events.push(ev);
                proof {
                    lemma_publish_one(t0.published@, ev);
                    assert(events@.subrange(ev0.len() as int, events@.len() as int) =~= seq![ev]);
                }
            } else {
                proof {
                    lemma_publish_none(t0.published_set());
                    assert(events@.subrange(ev0.len() as int, events@.len() as int) =~= Seq::<CompletionEvent>::empty());
                }
            }
        } else {
            proof {
                lemma_publish_none(t0.published_set());
                assert(events@.subrange(ev0.len() as int, events@.len() as int) =~= Seq::<CompletionEvent>::empty());
            }
        }
        proof {
            lemma_report_keeps_owners(&t0, trackers, old(inst));
            assert(trackers.published_set() =~= Set::new(|e: usize| trackers.published@.contains(e)));
            assert(!t0.has(inst.entity) ==> trackers.is_published(inst.entity) == t0.is_published(inst.entity)) by {
                if !t0.has(inst.entity) && trackers.published@ != t0.published@ {
                    let o = inst.tracker_owner.unwrap();
                    assert(trackers.published@ == t0.published@.push(o));
                    assert(t0.has(o));
                    assert(o != inst.entity);
                    if trackers.published@.contains(inst.entity) {
                        let j = choose|j: int| 0 <= j < trackers.published@.len() && trackers.published@[j] == inst.entity;
                        assert(t0.published@[j] == inst.entity);
                    }
                    if t0.published@.contains(inst.entity) {
                        let j = choose|j: int| 0 <= j < t0.published@.len() && t0.published@[j] == inst.entity;
                        assert(trackers.published@[j] == inst.entity);
                    }
                }
            }
        }
        let ghost ev1 = events@;
        let ghost t1 = *trackers;
        if !trackers.has_tracker(inst.entity) && !trackers.has_published(inst.entity) {
            trackers.publish_leaf(inst.entity);
            let ev = completion_event(inst.entity, &inst.info);
            events.push(ev);
            proof {
                lemma_publish_one(t1.published@, ev);
                assert(events@.subrange(ev1.len() as int, events@.len() as int) =~= seq![ev]);
            }
        } else {
            proof {
                lemma_publish_none(t1.published_set());
                assert(events@.subrange(ev1.len() as int, events@.len() as int) =~= Seq::<CompletionEvent>::empty());
            }
        }
        proof {
            lemma_publishes_compose(
                t0.published_set(),
                t1.published_set(),
                trackers.published_set(),
                ev1.subrange(ev0.len() as int, ev1.len() as int),
                events@.subrange(ev1.len() as int, events@.len() as int),
            );
            assert(ev1.subrange(ev0.len() as int, ev1.len() as int) + events@.subrange(ev1.len() as int, events@.len() as int)
                =~= events@.subrange(ev0.len() as int, events@.len() as int));
            assert(ev1.subrange(0, ev0.len() as int) == ev0);
            assert(events@.subrange(0, ev0.len() as int) =~= ev0);
            if owner_completes(&t0, old(inst)) {
                assert(events@[ev0.len() as int] == ev1[ev0.len() as int]);
            }
            lemma_same_list_same_owners(&t1, trackers);
            assert(trackers.wf());
            assert(forall|o: usize| trackers.has(o) <==> t0.has(o));
            assert(reported(&t0, trackers, old(inst)));
            assert(appended(&t0, trackers, old(inst), ev0, events@));
        }
    }
    out
}

/// Entities of `evs` are tracker owners in `t0` or entities of the first
/// `k` instances of `is0`.
pub open spec fn events_from(t0: &Trackers, is0: Seq<Instance>, k: int, evs: Seq<CompletionEvent>) -> bool {
    forall|j: int|
        0 <= j < evs.len() ==> t0.has(#[trigger] evs[j].entity) || exists|i: int|
            0 <= i < k && is0[i].entity == evs[j].entity
}

/// Runs one tick: each instance waiting for post-processing is processed in
/// order. Returns the completion events of the tick, in the order in which
/// they were published, and the outcome for each instance.
pub fn process_tick(world: &mut World, instances: &mut Vec<Instance>, trackers: &mut Trackers) -> (res: (
    Vec<CompletionEvent>,
    Vec<PostProcessOutcome>,
))
    requires
        old(world).wf(),
        old(trackers).wf(),
        forall|i: int|
            0 <= i < old(instances)@.len() ==> ((#[trigger] old(instances)@[i]).entity as int) < old(
                world,
            ).len(),
        forall|i: int, j: int|
            0 <= i < j < old(instances)@.len() ==> old(instances)@[i].entity != old(
                instances,
            )@[j].entity,
    ensures
        final(world).wf(),
        final(world).len() == old(world).len(),
        exists|ws: Seq<World>, ts: Seq<Trackers>, es: Seq<Seq<CompletionEvent>>|
            #[trigger] tick_run(old(instances)@, final(instances)@, ws, ts, es, res.1@)
            && ws[0] == *old(world) && ws[old(instances)@.len() as int] == *final(world)
            && ts[0] == *old(trackers) && ts[old(instances)@.len() as int] == *final(trackers)
            && es[old(instances)@.len() as int] == res.0@,
        final(trackers).wf(),
        forall|o: usize| final(trackers).has(o) <==> old(trackers).has(o),
        // no entity is announced twice, in this tick or across ticks
        publishes(old(trackers).published_set(), final(trackers).published_set(), res.0@),
        final(instances)@.len() == old(instances)@.len(),
        forall|i: int|
            0 <= i < old(instances)@.len() ==> {
                ||| #[trigger] final(instances)@[i] == old(instances)@[i]
                ||| (old(instances)@[i].marker == Marker::ReadyForPostProcess
                    && final(instances)@[i] == (Instance {
                    marker: Marker::InstanceReady,
                    ..old(instances)@[i]
                }))
            },
        // an instance without nested instances completes in the tick in
        // which it becomes ready
        forall|i: int|
            0 <= i < old(instances)@.len() && old(instances)@[i].marker
                == Marker::ReadyForPostProcess && #[trigger] final(instances)@[i].marker
                == Marker::InstanceReady && !old(trackers).has(old(instances)@[i].entity)
                && !old(trackers).is_published(old(instances)@[i].entity) ==> exists|j: int|
                0 <= j < res.0@.len() && announces(
                    res.0@[j],
                    old(instances)@[i].entity,
                    old(instances)@[i].info,
                ),
{
    let mut events: Vec<CompletionEvent> = Vec::new();
    let mut outcomes: Vec<PostProcessOutcome> = Vec::new();
    let n = instances.len();
    let mut k: usize = 0;
    let ghost mut ws: Seq<World> = seq![*world];
    let ghost mut ts: Seq<Trackers> = seq![*trackers];
    let ghost mut es: Seq<Seq<CompletionEvent>> = seq![events@];
    proof {
        lemma_publish_none(trackers.published_set());
    }
    while k < n
        invariant
            ws.len() == k + 1,
            ts.len() == k + 1,
            es.len() == k + 1,
            outcomes@.len() == k,
            ws[0] == *old(world),
            ts[0] == *old(trackers),
            es[0] == Seq::<CompletionEvent>::empty(),
            ws[k as int] == *world,
            ts[k as int] == *trackers,
            es[k as int] == events@,
            forall|i: int|
                0 <= i < k ==> processed(
                    &ws[i],
                    &ws[i + 1],
                    &old(instances)@[i],
                    &instances@[i],
                    &ts[i],
                    &ts[i + 1],
                    es[i],
                    es[i + 1],
                    #[trigger] outcomes@[i],
                ),
            world.wf(),
            world.len() == old(world).len(),
            trackers.wf(),
            forall|o: usize| trackers.has(o) <==> old(trackers).has(o),
            publishes(old(trackers).published_set(), trackers.published_set(), events@),
            events_from(old(trackers), old(instances)@, k as int, events@),
            n == old(instances)@.len(),
            instances@.len() == n,
            k <= n,
            forall|i: int| 0 <= i < n ==> ((#[trigger] old(instances)@[i]).entity as int) < old(world).len(),
            forall|i: int, j: int| 0 <= i < j < n ==> old(instances)@[i].entity != old(instances)@[j].entity,
            forall|i: int| k <= i < n ==> #[trigger] instances@[i] == old(instances)@[i],
            forall|i: int|
                0 <= i < k ==> {
                    ||| #[trigger] instances@[i] == old(instances)@[i]
                    ||| (old(instances)@[i].marker == Marker::ReadyForPostProcess
                        && instances@[i] == (Instance {
                        marker: Marker::InstanceReady,
                        ..old(instances)@[i]
                    }))
                },
            forall|i: int|
                0 <= i < k && old(instances)@[i].marker == Marker::ReadyForPostProcess
                    && #[trigger] instances@[i].marker == Marker::InstanceReady && !old(
                    trackers,
                ).has(old(instances)@[i].entity) && !old(trackers).is_published(old(instances)@[i].entity) ==> exists|j: int|
                    0 <= j < events@.len() && announces(
                        events@[j],
                        old(instances)@[i].entity,
                        old(instances)@[i].info,
                    ),
        decreases n - k,
    {
        let ghost ev0 = events@;
        let ghost t0 = *trackers;
        let ghost before = instances@;
        let ghost e = old(instances)@[k as int].entity;
        assert(instances@[k as int] == old(instances)@[k as int]);
        proof {
            // the instance's own completion cannot have been published earlier in this tick
            if !old(trackers).has(e) && !old(trackers).is_published(e) {
                if t0.published@.contains(e) {
                    assert(t0.published_set().contains(e));
                    let j = choose|j: int| 0 <= j < ev0.len() && ev0[j].entity == e;
                    assert(old(trackers).has(ev0[j].entity) || exists|i: int| 0 <= i < k && old(instances)@[i].entity == ev0[j].entity);
                    assert(false);
                }
            }
        }
        let out = process_instance(world, &mut instances[k], trackers, &mut events);
        outcomes.push(out);
        proof {
            let ws1 = ws.push(*world);
            let ts1 = ts.push(*trackers);
            let es1 = es.push(events@);
            assert forall|i: int|
                0 <= i < k + 1 implies processed(
                    &ws1[i],
                    &ws1[i + 1],
                    &old(instances)@[i],
                    &instances@[i],
                    &ts1[i],
                    &ts1[i + 1],
                    es1[i],
                    es1[i + 1],
                    #[trigger] outcomes@[i],
                ) by {
                if i < k {
                    assert(instances@[i] == before[i]);
                }
            }
            ws = ws1;
            ts = ts1;
            es = es1;
            assert(forall|i: int| 0 <= i < n && i != k ==> instances@[i] == before[i]);
            let seg = events@.subrange(ev0.len() as int, events@.len() as int);
            if out is Flattened {
                lemma_publishes_compose(old(trackers).published_set(), t0.published_set(), trackers.published_set(), ev0, seg);
                assert(ev0 + seg =~= events@);
            } else {
                assert(events@ == ev0);
            }
            assert forall|j: int| 0 <= j < events@.len() implies old(trackers).has(#[trigger] events@[j].entity) || exists|i: int|
                0 <= i < k + 1 && old(instances)@[i].entity == events@[j].entity by {
                if j < ev0.len() {
                    assert(events@.subrange(0, ev0.len() as int) == ev0);
                    assert(events@[j] == ev0[j]);
                } else {
                    let inst0 = old(instances)@[k as int];
                    if owner_completes(&t0, &inst0) && j == ev0.len() {
                        let i = choose|i: int| t0.at(inst0.tracker_owner.unwrap(), i) && announces(
                            events@[ev0.len() as int], inst0.tracker_owner.unwrap(), t0.list@[i].info);
                        assert(t0.has(events@[j].entity));
                    } else {
                        assert(events@[j].entity == e);
                    }
                }
            }
            assert forall|i: int|
                0 <= i < k + 1 && old(instances)@[i].marker == Marker::ReadyForPostProcess
                    && #[trigger] instances@[i].marker == Marker::InstanceReady && !old(
                    trackers,
                ).has(old(instances)@[i].entity) && !old(trackers).is_published(old(instances)@[i].entity) implies exists|j: int|
                    0 <= j < events@.len() && announces(
                        events@[j],
                        old(instances)@[i].entity,
                        old(instances)@[i].info,
                    ) by {
                if i < k {
                    assert(before[i] == instances@[i]);
                    let j = choose|j: int| 0 <= j < ev0.len() && announces(
                            ev0[j],
                            old(instances)@[i].entity,
                            old(instances)@[i].info,
                        );
                    assert(events@.subrange(0, ev0.len() as int) == ev0);
                    assert(events@[j] == ev0[j]);
                } else {
                    assert(out is Flattened);
                    assert(!t0.has(e));
                    assert(announces(events@[events@.len() - 1], e, old(instances)@[i].info));
                }
            }
        }
        k += 1;
    }
    let ghost evs = events@;
    let ghost outs = outcomes@;
    assert(tick_run(old(instances)@, instances@, ws, ts, es, outs));
    let res = (events, outcomes);
    assert(res.0@ == evs && res.1@ == outs);
    res
}

} // verus!
