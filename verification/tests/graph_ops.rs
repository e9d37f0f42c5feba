//! The live-graph operations: snapshot selection, additive load, exact move
//! deltas, and clearing the tagged entities.

use scenesave::scene::{Graph, MAX_COORD};

#[test]
fn snapshot_keeps_exactly_the_marked_entities() {
    let mut g = Graph::new();
    g.spawn_camera();
    g.spawn_cube();
    g.spawn_cube();
    let snap = g.snapshot();
    assert_eq!(snap.entries.len(), 2);
    for e in &snap.entries {
        assert!(e.save_me);
    }
    assert_eq!(snap.entries[0].id, 1);
    assert_eq!(snap.entries[1].id, 2);
}

#[test]
fn load_is_additive() {
    let mut g = Graph::new();
    g.spawn_camera();
    g.spawn_cube();
    g.spawn_cube();
    let before: Vec<_> = (0..g.len()).map(|i| g.get(i)).collect();
    let snap = g.snapshot();
    assert!(g.can_load(&snap));
    g.load_snapshot(&snap);
    assert_eq!(g.len(), before.len() + snap.entries.len());
    for (i, e) in before.iter().enumerate() {
        assert_eq!(g.get(i), *e);
    }
    let loaded = g.get(3);
    assert_eq!(loaded.id, 3);
    assert_eq!(
        (loaded.stuff, loaded.save_me, loaded.x, loaded.y, loaded.z),
        (true, true, 0, 5, 0)
    );
}

#[test]
fn move_shifts_each_movable_by_the_exact_delta() {
    let mut g = Graph::new();
    g.spawn_camera();
    g.spawn_cube();
    assert!(g.move_allowed(1, 0, 0));
    g.move_tagged(1, 0, 0);
    assert!(g.move_allowed(0, -1, 0));
    g.move_tagged(0, -1, 0);
    let camera = g.get(0);
    assert_eq!((camera.x, camera.y, camera.z), (-20, 25, 50));
    let cube = g.get(1);
    assert_eq!((cube.x, cube.y, cube.z), (1, 4, 0));
}

#[test]
fn move_is_refused_at_the_coordinate_bound() {
    let mut g = Graph::new();
    g.spawn_cube();
    assert!(g.move_allowed(MAX_COORD, 0, 0));
    g.move_tagged(MAX_COORD, 0, 0);
    assert!(!g.move_allowed(1, 0, 0));
    assert!(g.move_allowed(-1, 0, 0));
}

#[test]
fn clear_removes_tagged_and_keeps_untagged() {
    let mut g = Graph::new();
    g.spawn_cube();
    g.spawn_camera();
    g.spawn_cube();
    g.clear_tagged();
    assert_eq!(g.len(), 1);
    let camera = g.get(0);
    assert_eq!(camera.id, 1);
    assert!(!camera.stuff && !camera.save_me);
}

#[test]
fn clear_on_untagged_graph_changes_nothing() {
    let mut g = Graph::new();
    g.spawn_camera();
    g.clear_tagged();
    assert_eq!(g.len(), 1);
}
