//! The trigger surface: each discrete key press maps one-to-one to an
//! operation on the live graph or on the persistence path.

use vstd::prelude::*;

verus! {

/// How far one move trigger shifts a movable entity, in tenths of a unit.
pub const MOVE_STEP: i64 = 1;

/// The keys the application reacts to. Any other key is no trigger.
#[derive(Clone, Copy, PartialEq, Eq, Structural, Debug)]
pub enum Key {
    A,
    S,
    L,
    D,
    Up,
    Right,
    Left,
}

/// The operation a key press triggers. A move carries the exact per-trigger
/// delta for each axis.
#[derive(Clone, Copy, PartialEq, Eq, Structural, Debug)]
pub enum Action {
    SpawnCube,
    SaveScene,
    LoadScene,
    ClearTagged,
    MoveTagged { dx: i64, dy: i64, dz: i64 },
}

/// The fixed key-to-operation mapping: spawn, save, load, despawn, and one
/// move per arrow key, each along a single axis by `MOVE_STEP`.
pub open spec fn spec_action(k: Key) -> Action {
    match k {
        Key::A => Action::SpawnCube,
        Key::S => Action::SaveScene,
        Key::L => Action::LoadScene,
        Key::D => Action::ClearTagged,
        Key::Up => Action::MoveTagged { dx: MOVE_STEP, dy: 0, dz: 0 },
        Key::Right => Action::MoveTagged { dx: 0, dy: MOVE_STEP, dz: 0 },
        Key::Left => Action::MoveTagged { dx: 0, dy: (-MOVE_STEP) as i64, dz: 0 },
    }
}

/// Translates one key press into the operation it triggers.
pub fn action_for(k: Key) -> (a: Action)
    ensures
        a == spec_action(k),
{
    match k {
        Key::A => Action::SpawnCube,
        Key::S => Action::SaveScene,
        Key::L => Action::LoadScene,
        Key::D => Action::ClearTagged,
        Key::Up => Action::MoveTagged { dx: MOVE_STEP, dy: 0, dz: 0 },
        Key::Right => Action::MoveTagged { dx: 0, dy: MOVE_STEP, dz: 0 },
        Key::Left => Action::MoveTagged { dx: 0, dy: -MOVE_STEP, dz: 0 },
    }
}

/// Every move trigger shifts along exactly one axis, by exactly `MOVE_STEP`
/// in magnitude, and by zero along the other axes.
pub proof fn lemma_moves_single_axis(k: Key)
    ensures
        spec_action(k) matches Action::MoveTagged { dx, dy, dz } ==> {
            &&& dz == 0
            &&& (dx == 0 || dy == 0)
            &&& (dx == MOVE_STEP && dy == 0) || (dx == 0 && (dy == MOVE_STEP || dy
                == -MOVE_STEP))
        },
{
}

} // verus!
