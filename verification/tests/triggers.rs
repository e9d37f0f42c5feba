//! The key-to-operation mapping of the trigger surface.

use scenesave::input::{action_for, Action, Key, MOVE_STEP};

#[test]
fn keys_map_to_their_operations() {
    assert_eq!(action_for(Key::A), Action::SpawnCube);
    assert_eq!(action_for(Key::S), Action::SaveScene);
    assert_eq!(action_for(Key::L), Action::LoadScene);
    assert_eq!(action_for(Key::D), Action::ClearTagged);
}

#[test]
fn arrows_move_along_a_single_axis_by_one_step() {
    assert_eq!(
        action_for(Key::Up),
        Action::MoveTagged { dx: MOVE_STEP, dy: 0, dz: 0 }
    );
    assert_eq!(
        action_for(Key::Right),
        Action::MoveTagged { dx: 0, dy: MOVE_STEP, dz: 0 }
    );
    assert_eq!(
        action_for(Key::Left),
        Action::MoveTagged { dx: 0, dy: -MOVE_STEP, dz: 0 }
    );
}
