//! The save and load path: exact bytes, determinism, round trips, and the
//! strict parser's rejections.

use scenesave::codec::{load_scene, parse_snapshot, save_scene, serialize_snapshot};
use scenesave::scene::{EntityRec, Graph, Snapshot};

#[test]
fn empty_graph_saves_header_only() {
    let g = Graph::new();
    let bytes = save_scene(&g);
    assert_eq!(bytes, b"scene v1\n".to_vec());
}

#[test]
fn save_is_byte_identical_when_state_unchanged() {
    let mut g = Graph::new();
    g.spawn_camera();
    g.spawn_cube();
    g.spawn_cube();
    let first = save_scene(&g);
    let second = save_scene(&g);
    assert_eq!(first, second);
}

#[test]
fn save_writes_exactly_the_marked_entities() {
    let mut g = Graph::new();
    g.spawn_camera();
    g.spawn_cube();
    g.spawn_cube();
    let bytes = save_scene(&g);
    assert_eq!(bytes, b"scene v1\ne 1 1 1 0 5 0\ne 2 1 1 0 5 0\n".to_vec());
}

#[test]
fn round_trip_into_fresh_graph() {
    let mut g = Graph::new();
    g.spawn_camera();
    g.spawn_cube();
    g.spawn_cube();
    if g.move_allowed(1, 0, 0) {
        g.move_tagged(1, 0, 0);
    }
    let bytes = save_scene(&g);
    let snap = parse_snapshot(&bytes).expect("a saved scene parses back");
    assert_eq!(snap.entries.len(), 2);
    let mut fresh = Graph::new();
    assert!(fresh.can_load(&snap));
    fresh.load_snapshot(&snap);
    assert_eq!(fresh.len(), 2);
    for i in 0..2 {
        let e = fresh.get(i);
        assert_eq!(e.id, i as u64);
        assert_eq!((e.stuff, e.save_me, e.x, e.y, e.z), (true, true, 1, 5, 0));
    }
}

#[test]
fn negative_coordinates_round_trip() {
    let e = EntityRec { id: 7, stuff: true, save_me: true, x: -3, y: 0, z: -1000000000000 };
    let snap = Snapshot { entries: vec![e] };
    let bytes = serialize_snapshot(&snap);
    assert_eq!(bytes, b"scene v1\ne 7 1 1 -3 0 -1000000000000\n".to_vec());
    let back = parse_snapshot(&bytes).expect("canonical bytes parse");
    assert_eq!(back.entries.len(), 1);
    assert_eq!(back.entries[0], e);
}

#[test]
fn parse_accepts_exact_canonical_form() {
    let bytes = b"scene v1\ne 0 0 0 -20 25 50\n".to_vec();
    let snap = parse_snapshot(&bytes).expect("canonical bytes parse");
    assert_eq!(snap.entries.len(), 1);
    assert_eq!(
        snap.entries[0],
        EntityRec { id: 0, stuff: false, save_me: false, x: -20, y: 25, z: 50 }
    );
}

#[test]
fn parse_rejects_noncanonical_input() {
    assert!(parse_snapshot(&b"".to_vec()).is_none());
    assert!(parse_snapshot(&b"scene v2\n".to_vec()).is_none());
    assert!(parse_snapshot(&b"scene v1".to_vec()).is_none());
    assert!(parse_snapshot(&b"scene v1\nx".to_vec()).is_none());
    assert!(parse_snapshot(&b"scene v1\ne 01 1 1 0 5 0\n".to_vec()).is_none());
    assert!(parse_snapshot(&b"scene v1\ne 1 1 1 -0 5 0\n".to_vec()).is_none());
    assert!(parse_snapshot(&b"scene v1\ne 1000000000000 1 1 0 5 0\n".to_vec()).is_none());
    assert!(parse_snapshot(&b"scene v1\ne 1 1 1 0 5 0".to_vec()).is_none());
    assert!(parse_snapshot(&b"scene v1\ne 1 2 1 0 5 0\n".to_vec()).is_none());
    assert!(parse_snapshot(&b"scene v1\ne 1 1 1 0  5 0\n".to_vec()).is_none());
}

#[test]
fn loading_a_failed_parse_is_a_no_op() {
    let mut g = Graph::new();
    g.spawn_cube();
    let before = g.len();
    if let Some(snap) = parse_snapshot(&b"not a scene".to_vec()) {
        g.load_snapshot(&snap);
    }
    assert_eq!(g.len(), before);
}

#[test]
fn load_scene_adds_the_saved_entities() {
    let mut g = Graph::new();
    g.spawn_camera();
    g.spawn_cube();
    g.spawn_cube();
    let bytes = save_scene(&g);
    assert!(load_scene(&mut g, &bytes));
    assert_eq!(g.len(), 5);
    let loaded = g.get(4);
    assert_eq!(loaded.id, 4);
    assert_eq!(
        (loaded.stuff, loaded.save_me, loaded.x, loaded.y, loaded.z),
        (true, true, 0, 5, 0)
    );
}

#[test]
fn load_scene_on_malformed_bytes_is_a_silent_no_op() {
    let mut g = Graph::new();
    g.spawn_cube();
    assert!(!load_scene(&mut g, &b"scene v1\ne 01 1 1 0 5 0\n".to_vec()));
    assert_eq!(g.len(), 1);
    let cube = g.get(0);
    assert_eq!((cube.x, cube.y, cube.z), (0, 5, 0));
}
