use blenvy::instance::{BlueprintInfo, Instance};
use blenvy::marker::Marker;
use blenvy::tick::process_tick;
use blenvy::tracker::{CompletionEvent, Trackers};
use blenvy::world::World;

fn info(name: &str) -> BlueprintInfo {
    BlueprintInfo { name: name.to_string(), path: format!("{}.glb", name) }
}

fn instance(entity: usize, name: &str, owner: Option<usize>, marker: Marker) -> Instance {
    Instance {
        entity,
        info: info(name),
        original_children: vec![],
        has_named_animations: false,
        no_in_blueprint: false,
        tracker_owner: owner,
        marker,
    }
}

fn names(events: &[CompletionEvent]) -> Vec<(usize, String)> {
    events.iter().map(|e| (e.entity, e.blueprint_name.clone())).collect()
}

/// X(0) holds synthetic root 1; nested instances Y(2) and Z(3) hang under
/// it, each with its own synthetic root (4 and 5) and a leaf below (6, 7).
fn nested_world() -> World {
    let mut w = World::new();
    let x = w.spawn(None);
    let rx = w.spawn(Some(x));
    let y = w.spawn(Some(rx));
    let z = w.spawn(Some(rx));
    let ry = w.spawn(Some(y));
    let rz = w.spawn(Some(z));
    w.spawn(Some(ry));
    w.spawn(Some(rz));
    w
}

#[test]
fn owner_completes_when_last_nested_instance_does() {
    let mut w = nested_world();
    let mut trackers = Trackers::new();
    trackers.register(0, info("castle"), 2);
    trackers.register(0, info("castle"), 3);
    let mut instances = vec![
        instance(0, "castle", None, Marker::ReadyForPostProcess),
        instance(2, "tower", Some(0), Marker::Spawning),
        instance(3, "gate", Some(0), Marker::Spawning),
    ];
    // tick 0: X is flattened; it has nested instances, so no event yet
    let (t0, _) = process_tick(&mut w, &mut instances, &mut trackers);
    assert!(t0.is_empty());
    // tick 1: Y becomes ready
    instances[1].marker = Marker::ReadyForPostProcess;
    let (t1, _) = process_tick(&mut w, &mut instances, &mut trackers);
    assert_eq!(names(&t1), vec![(2, "tower".to_string())]);
    assert!(!trackers.has_fired(0));
    // tick 2: nothing new
    let (t2, _) = process_tick(&mut w, &mut instances, &mut trackers);
    assert!(t2.is_empty());
    // tick 3: Z becomes ready, which completes X
    instances[2].marker = Marker::ReadyForPostProcess;
    let (t3, _) = process_tick(&mut w, &mut instances, &mut trackers);
    assert_eq!(names(&t3), vec![(0, "castle".to_string()), (3, "gate".to_string())]);
    assert_eq!(t3[0].blueprint_path, "castle.glb");
    assert!(trackers.has_fired(0));
    // every nested root is gone, their leaves moved up one level
    assert_eq!(w.children_of(2), vec![6]);
    assert_eq!(w.children_of(3), vec![7]);
    assert_eq!(w.children_of(0), vec![2, 3]);
}

#[test]
fn completion_order_does_not_matter() {
    let mut w = nested_world();
    let mut trackers = Trackers::new();
    trackers.register(0, info("castle"), 2);
    trackers.register(0, info("castle"), 3);
    let mut instances = vec![
        instance(3, "gate", Some(0), Marker::ReadyForPostProcess),
        instance(2, "tower", Some(0), Marker::Spawning),
    ];
    let (t1, _) = process_tick(&mut w, &mut instances, &mut trackers);
    assert_eq!(names(&t1), vec![(3, "gate".to_string())]);
    instances[1].marker = Marker::ReadyForPostProcess;
    let (t2, _) = process_tick(&mut w, &mut instances, &mut trackers);
    assert_eq!(names(&t2), vec![(0, "castle".to_string()), (2, "tower".to_string())]);
}

#[test]
fn tracker_fires_once_whatever_the_reports() {
    let mut trackers = Trackers::new();
    trackers.register(9, info("hall"), 1);
    trackers.register(9, info("hall"), 2);
    assert!(trackers.report(9, 1).is_none());
    assert!(trackers.report(9, 1).is_none());
    let ev = trackers.report(9, 2).expect("all nested instances are done");
    assert_eq!(ev.entity, 9);
    assert_eq!(ev.blueprint_name, "hall");
    assert_eq!(ev.blueprint_path, "hall.glb");
    assert!(trackers.report(9, 2).is_none());
    assert!(trackers.report(9, 1).is_none());
    assert!(trackers.has_fired(9));
}

#[test]
fn report_to_missing_tracker_is_dropped() {
    let mut trackers = Trackers::new();
    trackers.register(4, info("a"), 5);
    assert!(trackers.report(7, 5).is_none());
    assert!(!trackers.has_tracker(7));
    assert!(!trackers.has_fired(4));
}

#[test]
fn registering_again_keeps_done_flag() {
    let mut trackers = Trackers::new();
    trackers.register(1, info("a"), 2);
    trackers.register(1, info("a"), 3);
    assert!(trackers.report(1, 2).is_none());
    trackers.register(1, info("a"), 2);
    let ev = trackers.report(1, 3);
    assert!(ev.is_some());
    assert_eq!(trackers.list.len(), 1);
    assert_eq!(trackers.list[0].sub_instances, vec![(2, true), (3, true)]);
}

#[test]
fn late_discovered_sibling_delays_completion() {
    let mut trackers = Trackers::new();
    trackers.register(1, info("a"), 2);
    trackers.register(1, info("a"), 3);
    assert!(trackers.report(1, 2).is_none());
    trackers.register(1, info("a"), 4);
    assert!(trackers.report(1, 3).is_none());
    assert!(trackers.report(1, 4).is_some());
}

#[test]
fn leaf_without_tracker_completes_in_same_tick() {
    let mut w = World::new();
    let x = w.spawn(None);
    let r = w.spawn(Some(x));
    w.spawn(Some(r));
    let mut trackers = Trackers::new();
    let mut instances = vec![instance(x, "crate", None, Marker::ReadyForPostProcess)];
    let (events, _) = process_tick(&mut w, &mut instances, &mut trackers);
    assert_eq!(names(&events), vec![(x, "crate".to_string())]);
    assert!(!trackers.has_tracker(x));
}

#[test]
fn tracker_registered_after_leaf_completion_never_fires() {
    let mut w = World::new();
    let x = w.spawn(None);
    let r = w.spawn(Some(x));
    w.spawn(Some(r));
    let mut trackers = Trackers::new();
    let mut instances = vec![instance(x, "crate", None, Marker::ReadyForPostProcess)];
    let (events, _) = process_tick(&mut w, &mut instances, &mut trackers);
    assert_eq!(names(&events), vec![(x, "crate".to_string())]);
    trackers.register(x, info("crate"), 7);
    assert!(trackers.has_fired(x));
    assert!(trackers.report(x, 7).is_none());
}

#[test]
fn leaf_already_published_is_not_announced_again() {
    let mut w = World::new();
    let x = w.spawn(None);
    let r = w.spawn(Some(x));
    w.spawn(Some(r));
    let mut trackers = Trackers::new();
    let mut instances = vec![instance(x, "crate", None, Marker::ReadyForPostProcess)];
    let (first, _) = process_tick(&mut w, &mut instances, &mut trackers);
    assert_eq!(first.len(), 1);
    // the instance is made ready again with a fresh sub-scene
    let r2 = w.spawn(Some(x));
    w.spawn(Some(r2));
    instances[0].marker = Marker::ReadyForPostProcess;
    instances[0].original_children = w.children_of(x);
    instances[0].original_children.retain(|c| *c != r2);
    let (second, outcomes) = process_tick(&mut w, &mut instances, &mut trackers);
    assert_eq!(outcomes.len(), 1);
    assert!(second.is_empty());
}
