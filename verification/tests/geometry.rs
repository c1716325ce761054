//! Tests for the geometry tables: occupied offsets and wall-kick candidates.

use tetrs::rotations::{
    get_coords, get_wallkicks, i_coords, j_coords, l_coords, o_coords, s_coords, t_coords,
    z_coords,
};
use tetrs::state::{PieceType, RotationState};

const ALL_TYPES: [PieceType; 7] = [
    PieceType::I,
    PieceType::J,
    PieceType::L,
    PieceType::O,
    PieceType::Z,
    PieceType::S,
    PieceType::T,
];

const ALL_ROTS: [RotationState; 4] = [
    RotationState::Spawn,
    RotationState::Right,
    RotationState::Flip,
    RotationState::Left,
];

#[test]
fn spawn_coords_match_tables() {
    assert_eq!(i_coords(RotationState::Spawn), [(1, 0), (1, 1), (1, 2), (1, 3)]);
    assert_eq!(j_coords(RotationState::Spawn), [(0, 0), (1, 0), (1, 1), (1, 2)]);
    assert_eq!(l_coords(RotationState::Spawn), [(1, 0), (1, 1), (1, 2), (0, 2)]);
    assert_eq!(o_coords(RotationState::Spawn), [(0, 1), (1, 1), (0, 2), (1, 2)]);
    assert_eq!(s_coords(RotationState::Spawn), [(1, 0), (1, 1), (0, 1), (0, 2)]);
    assert_eq!(z_coords(RotationState::Spawn), [(0, 0), (0, 1), (1, 1), (1, 2)]);
    assert_eq!(t_coords(RotationState::Spawn), [(0, 1), (1, 0), (1, 1), (1, 2)]);
}

#[test]
fn rotated_coords_match_tables() {
    assert_eq!(i_coords(RotationState::Right), [(0, 2), (1, 2), (2, 2), (3, 2)]);
    assert_eq!(i_coords(RotationState::Flip), [(2, 0), (2, 1), (2, 2), (2, 3)]);
    assert_eq!(i_coords(RotationState::Left), [(0, 1), (1, 1), (2, 1), (3, 1)]);
    assert_eq!(j_coords(RotationState::Left), [(2, 0), (0, 1), (1, 1), (2, 1)]);
    assert_eq!(t_coords(RotationState::Flip), [(1, 0), (1, 1), (1, 2), (2, 1)]);
    // The O piece never changes shape.
    for rot in ALL_ROTS {
        assert_eq!(o_coords(rot), [(0, 1), (1, 1), (0, 2), (1, 2)]);
    }
}

#[test]
fn get_coords_dispatches_per_type() {
    for rot in ALL_ROTS {
        assert_eq!(get_coords(PieceType::I, rot), i_coords(rot));
        assert_eq!(get_coords(PieceType::J, rot), j_coords(rot));
        assert_eq!(get_coords(PieceType::L, rot), l_coords(rot));
        assert_eq!(get_coords(PieceType::O, rot), o_coords(rot));
        assert_eq!(get_coords(PieceType::Z, rot), z_coords(rot));
        assert_eq!(get_coords(PieceType::S, rot), s_coords(rot));
        assert_eq!(get_coords(PieceType::T, rot), t_coords(rot));
    }
}

#[test]
fn coords_distinct_and_in_frame() {
    for typ in ALL_TYPES {
        for rot in ALL_ROTS {
            let coords = get_coords(typ, rot);
            for (r, c) in coords {
                assert!(r < 4, "row offset out of frame for {:?} {:?}", typ, rot);
                assert!(c < 4, "col offset out of frame for {:?} {:?}", typ, rot);
            }
            for a in 0..4 {
                for b in (a + 1)..4 {
                    assert_ne!(coords[a], coords[b], "duplicate offset for {:?} {:?}", typ, rot);
                }
            }
        }
    }
}

fn single_steps(rot: RotationState) -> [RotationState; 2] {
    match rot {
        RotationState::Spawn => [RotationState::Right, RotationState::Left],
        RotationState::Right => [RotationState::Flip, RotationState::Spawn],
        RotationState::Flip => [RotationState::Left, RotationState::Right],
        RotationState::Left => [RotationState::Spawn, RotationState::Flip],
    }
}

#[test]
fn every_kick_table_leads_in_place() {
    for typ in ALL_TYPES {
        for rot in ALL_ROTS {
            for new_rot in single_steps(rot) {
                let kicks = get_wallkicks(typ, rot, new_rot);
                assert_eq!(kicks[0], (0, 0), "first kick not in place for {:?}", typ);
            }
        }
    }
}

#[test]
fn i_kick_table_values() {
    assert_eq!(
        get_wallkicks(PieceType::I, RotationState::Spawn, RotationState::Right),
        [(0, 0), (-2, 0), (1, 0), (-2, 1), (1, -2)]
    );
    assert_eq!(
        get_wallkicks(PieceType::I, RotationState::Right, RotationState::Spawn),
        [(0, 0), (2, 0), (-1, 0), (2, -1), (-1, 2)]
    );
    assert_eq!(
        get_wallkicks(PieceType::I, RotationState::Spawn, RotationState::Left),
        [(0, 0), (-1, 0), (2, 0), (-1, -2), (2, 1)]
    );
}

#[test]
fn shared_kick_table_values() {
    for typ in [PieceType::J, PieceType::L, PieceType::S, PieceType::Z, PieceType::T] {
        assert_eq!(
            get_wallkicks(typ, RotationState::Spawn, RotationState::Right),
            [(0, 0), (-1, 0), (-1, -1), (0, 2), (-1, 2)]
        );
        assert_eq!(
            get_wallkicks(typ, RotationState::Spawn, RotationState::Left),
            [(0, 0), (1, 0), (1, -1), (0, 2), (1, 2)]
        );
        assert_eq!(
            get_wallkicks(typ, RotationState::Left, RotationState::Flip),
            [(0, 0), (-1, 0), (-1, 1), (0, -2), (-1, -2)]
        );
    }
}

#[test]
fn o_piece_never_kicks() {
    for rot in ALL_ROTS {
        for new_rot in ALL_ROTS {
            assert_eq!(
                get_wallkicks(PieceType::O, rot, new_rot),
                [(0, 0), (0, 0), (0, 0), (0, 0), (0, 0)]
            );
        }
    }
}

#[test]
fn rotation_cycle_is_consistent() {
    for rot in ALL_ROTS {
        assert_eq!(rot.right().left(), rot);
        assert_eq!(rot.left().right(), rot);
        assert_eq!(rot.right().right().right().right(), rot);
        assert_eq!(rot.left().left().left().left(), rot);
    }
    assert_eq!(RotationState::Spawn.right(), RotationState::Right);
    assert_eq!(RotationState::Spawn.left(), RotationState::Left);
}
