use blenvy::instance::{BlueprintInfo, Instance};
use blenvy::marker::Marker;
use blenvy::restructure::{find_synthetic_root, post_process, PostProcessOutcome, RootSearch};
use blenvy::tick::process_tick;
use blenvy::tracker::Trackers;
use blenvy::world::{Component, World, CHILDREN_KIND, PARENT_KIND};

fn info(name: &str) -> BlueprintInfo {
    BlueprintInfo { name: name.to_string(), path: format!("blueprints/{}.glb", name) }
}

fn ready(entity: usize, name: &str, original_children: Vec<usize>) -> Instance {
    Instance {
        entity,
        info: info(name),
        original_children,
        has_named_animations: false,
        no_in_blueprint: false,
        tracker_owner: None,
        marker: Marker::ReadyForPostProcess,
    }
}

/// X(0) -> root(1) -> {a(2) -> g(4), b(3)}
fn leaf_scene() -> World {
    let mut w = World::new();
    let x = w.spawn(None);
    let root = w.spawn(Some(x));
    let a = w.spawn(Some(root));
    let _b = w.spawn(Some(root));
    let _g = w.spawn(Some(a));
    w
}

#[test]
fn leaf_instance_is_flattened_and_completes_once() {
    let mut w = leaf_scene();
    let mut instances = vec![ready(0, "house", vec![])];
    let mut trackers = Trackers::new();
    let (events, outcomes) = process_tick(&mut w, &mut instances, &mut trackers);
    assert_eq!(outcomes, vec![PostProcessOutcome::Flattened(1)]);
    assert_eq!(w.children_of(0), vec![2, 3]);
    assert!(!w.is_alive_exec(1));
    assert!(w.is_alive_exec(2) && w.is_alive_exec(3) && w.is_alive_exec(4));
    assert_eq!(w.children_of(2), vec![4]);
    assert_eq!(events.len(), 1);
    assert_eq!(events[0].entity, 0);
    assert_eq!(events[0].blueprint_name, "house");
    assert_eq!(events[0].blueprint_path, "blueprints/house.glb");
    assert_eq!(instances[0].marker, Marker::InstanceReady);
    // a second tick finds nothing to do and publishes nothing more
    let (again, outcomes) = process_tick(&mut w, &mut instances, &mut trackers);
    assert!(again.is_empty());
    assert_eq!(outcomes, vec![PostProcessOutcome::NotReady]);
    assert!(trackers.has_published(0));
}

#[test]
fn flattening_tags_descendants_and_forces_visibility() {
    let mut w = leaf_scene();
    let pre = w.spawn(Some(0));
    let mut inst = ready(0, "house", vec![pre]);
    let out = post_process(&mut w, &mut inst);
    assert_eq!(out, PostProcessOutcome::Flattened(1));
    assert_eq!(w.children_of(0), vec![2, 3, pre]);
    assert!(w.in_blueprint[2] && w.in_blueprint[3] && w.in_blueprint[4]);
    assert!(!w.in_blueprint[0]);
    assert!(!w.in_blueprint[pre]);
    assert!(w.visible[0]);
    assert!(!w.visible[2]);
}

#[test]
fn no_in_blueprint_flag_skips_tagging() {
    let mut w = leaf_scene();
    let mut inst = ready(0, "house", vec![]);
    inst.no_in_blueprint = true;
    assert_eq!(post_process(&mut w, &mut inst), PostProcessOutcome::Flattened(1));
    assert!(!w.in_blueprint[2] && !w.in_blueprint[3] && !w.in_blueprint[4]);
}

#[test]
fn empty_children_does_nothing() {
    let mut w = World::new();
    let x = w.spawn(None);
    let mut instances = vec![ready(x, "empty", vec![])];
    let mut trackers = Trackers::new();
    let (events, outcomes) = process_tick(&mut w, &mut instances, &mut trackers);
    assert!(events.is_empty());
    assert_eq!(outcomes, vec![PostProcessOutcome::NoChildren]);
    assert_eq!(instances[0].marker, Marker::ReadyForPostProcess);
    assert!(w.is_alive_exec(x));
    assert!(!w.visible[x]);
    let mut inst = ready(x, "empty", vec![]);
    assert_eq!(post_process(&mut w, &mut inst), PostProcessOutcome::NoChildren);
    assert_eq!(inst.marker, Marker::ReadyForPostProcess);
}

#[test]
fn no_new_child_means_no_synthetic_root() {
    let mut w = World::new();
    let x = w.spawn(None);
    let c = w.spawn(Some(x));
    let mut inst = ready(x, "old", vec![c]);
    assert_eq!(post_process(&mut w, &mut inst), PostProcessOutcome::NoSyntheticRoot);
    assert!(w.is_alive_exec(c));
    assert_eq!(inst.marker, Marker::ReadyForPostProcess);
}

#[test]
fn instance_not_waiting_is_left_alone() {
    let mut w = leaf_scene();
    let mut inst = ready(0, "house", vec![]);
    inst.marker = Marker::Spawning;
    assert_eq!(post_process(&mut w, &mut inst), PostProcessOutcome::NotReady);
    assert!(w.is_alive_exec(1));
    assert_eq!(inst.marker, Marker::Spawning);
}

#[test]
fn root_is_first_child_not_in_snapshot() {
    assert_eq!(find_synthetic_root(&vec![], &vec![1]), RootSearch::NoChildren);
    assert_eq!(find_synthetic_root(&vec![3, 5], &vec![3, 5]), RootSearch::NoNewChild);
    assert_eq!(find_synthetic_root(&vec![3, 7, 9], &vec![3]), RootSearch::Found(7));
    assert_eq!(find_synthetic_root(&vec![8, 3], &vec![3]), RootSearch::Found(8));
}

#[test]
fn migration_skips_hierarchy_links_and_conflicts() {
    let mut w = leaf_scene();
    w.insert_component(0, Component { kind: 10, value: 1 });
    w.insert_component(1, Component { kind: PARENT_KIND, value: 0 });
    w.insert_component(1, Component { kind: CHILDREN_KIND, value: 2 });
    w.insert_component(1, Component { kind: 10, value: 99 });
    w.insert_component(1, Component { kind: 11, value: 5 });
    w.insert_component(1, Component { kind: 11, value: 6 });
    w.insert_component(1, Component { kind: 12, value: 7 });
    let mut inst = ready(0, "house", vec![]);
    assert_eq!(post_process(&mut w, &mut inst), PostProcessOutcome::Flattened(1));
    assert_eq!(
        w.components[0],
        vec![
            Component { kind: 10, value: 1 },
            Component { kind: 11, value: 5 },
            Component { kind: 12, value: 7 },
        ]
    );
}

#[test]
fn copy_components_direct() {
    let mut w = World::new();
    let a = w.spawn(None);
    let b = w.spawn(None);
    w.insert_component(a, Component { kind: 4, value: 4 });
    w.insert_component(a, Component { kind: CHILDREN_KIND, value: 0 });
    w.copy_components(a, b);
    assert_eq!(w.components[b], vec![Component { kind: 4, value: 4 }]);
    assert_eq!(w.components[a].len(), 2);
}

#[test]
fn animation_link_points_at_last_player_under_root() {
    let mut w = leaf_scene();
    w.add_animation_player(2);
    w.add_animation_player(3);
    w.add_animation_player(4);
    let mut inst = ready(0, "house", vec![]);
    inst.has_named_animations = true;
    assert_eq!(post_process(&mut w, &mut inst), PostProcessOutcome::Flattened(1));
    assert_eq!(w.animation_link[0], Some(3));
}

#[test]
fn no_named_animations_means_no_link() {
    let mut w = leaf_scene();
    w.add_animation_player(2);
    let mut inst = ready(0, "house", vec![]);
    assert_eq!(post_process(&mut w, &mut inst), PostProcessOutcome::Flattened(1));
    assert_eq!(w.animation_link[0], None);
}

#[test]
fn despawn_removes_whole_subtree() {
    let mut w = leaf_scene();
    w.despawn_recursive(1);
    assert!(w.is_alive_exec(0));
    assert!(!w.is_alive_exec(1) && !w.is_alive_exec(2) && !w.is_alive_exec(3) && !w.is_alive_exec(4));
    assert!(w.children_of(0).is_empty());
}

#[test]
fn descendants_mask_marks_subtree_only() {
    let w = leaf_scene();
    assert_eq!(w.descendants_mask(1), vec![false, false, true, true, true]);
    assert_eq!(w.descendants_mask(2), vec![false, false, false, false, true]);
}

#[test]
fn marker_stages_move_forward() {
    assert_eq!(Marker::SpawnRequested.next(), Some(Marker::Spawning));
    assert_eq!(Marker::Spawning.next(), Some(Marker::ReadyForPostProcess));
    assert_eq!(Marker::ReadyForPostProcess.next(), Some(Marker::InstanceReady));
    assert_eq!(Marker::InstanceReady.next(), None);
}
