//! Geometry tables: for every piece type and orientation the four occupied
//! `(row, col)` offsets inside the piece's 4x4 local frame, and for every
//! single-step rotation the ordered list of five wall-kick offsets to try.
//! The tables are fixed domain data, not derived geometry; the I piece uses
//! its own wider kick table, the O piece never kicks, and the five remaining
//! pieces share one table.

use vstd::prelude::*;

use crate::state::{spec_rot_left, spec_rot_right, PieceType, RotationState};

verus! {

pub open spec fn spec_i_coords(rot: RotationState) -> Seq<(usize, usize)> {
    match rot {
        RotationState::Spawn => seq![(1usize, 0usize), (1, 1), (1, 2), (1, 3)],
        RotationState::Right => seq![(0usize, 2usize), (1, 2), (2, 2), (3, 2)],
        RotationState::Flip => seq![(2usize, 0usize), (2, 1), (2, 2), (2, 3)],
        RotationState::Left => seq![(0usize, 1usize), (1, 1), (2, 1), (3, 1)],
    }
}

pub open spec fn spec_j_coords(rot: RotationState) -> Seq<(usize, usize)> {
    match rot {
        RotationState::Spawn => seq![(0usize, 0usize), (1, 0), (1, 1), (1, 2)],
        RotationState::Right => seq![(0usize, 1usize), (0, 2), (1, 1), (2, 1)],
        RotationState::Flip => seq![(1usize, 0usize), (1, 1), (1, 2), (2, 2)],
        RotationState::Left => seq![(2usize, 0usize), (0, 1), (1, 1), (2, 1)],
    }
}

pub open spec fn spec_l_coords(rot: RotationState) -> Seq<(usize, usize)> {
    match rot {
        RotationState::Spawn => seq![(1usize, 0usize), (1, 1), (1, 2), (0, 2)],
        RotationState::Right => seq![(0usize, 1usize), (1, 1), (2, 1), (2, 2)],
        RotationState::Flip => seq![(1usize, 0usize), (1, 1), (1, 2), (2, 0)],
        RotationState::Left => seq![(0usize, 0usize), (0, 1), (1, 1), (2, 1)],
    }
}

pub open spec fn spec_o_coords(rot: RotationState) -> Seq<(usize, usize)> {
    seq![(0usize, 1usize), (1, 1), (0, 2), (1, 2)]
}

pub open spec fn spec_s_coords(rot: RotationState) -> Seq<(usize, usize)> {
    match rot {
        RotationState::Spawn => seq![(1usize, 0usize), (1, 1), (0, 1), (0, 2)],
        RotationState::Right => seq![(0usize, 1usize), (1, 1), (1, 2), (2, 2)],
        RotationState::Flip => seq![(1usize, 1usize), (1, 2), (2, 0), (2, 1)],
        RotationState::Left => seq![(0usize, 0usize), (1, 0), (1, 1), (2, 1)],
    }
}

pub open spec fn spec_z_coords(rot: RotationState) -> Seq<(usize, usize)> {
    match rot {
        RotationState::Spawn => seq![(0usize, 0usize), (0, 1), (1, 1), (1, 2)],
        RotationState::Right => seq![(1usize, 1usize), (0, 2), (1, 2), (2, 1)],
        RotationState::Flip => seq![(1usize, 0usize), (1, 1), (2, 1), (2, 2)],
        RotationState::Left => seq![(0usize, 1usize), (1, 0), (1, 1), (2, 0)],
    }
}

pub open spec fn spec_t_coords(rot: RotationState) -> Seq<(usize, usize)> {
    match rot {
        RotationState::Spawn => seq![(0usize, 1usize), (1, 0), (1, 1), (1, 2)],
        RotationState::Right => seq![(0usize, 1usize), (1, 1), (1, 2), (2, 1)],
        RotationState::Flip => seq![(1usize, 0usize), (1, 1), (1, 2), (2, 1)],
        RotationState::Left => seq![(0usize, 1usize), (1, 0), (1, 1), (2, 1)],
    }
}

pub open spec fn spec_coords(typ: PieceType, rot: RotationState) -> Seq<(usize, usize)> {
    match typ {
        PieceType::I => spec_i_coords(rot),
        PieceType::J => spec_j_coords(rot),
        PieceType::L => spec_l_coords(rot),
        PieceType::O => spec_o_coords(rot),
        PieceType::Z => spec_z_coords(rot),
        PieceType::S => spec_s_coords(rot),
        PieceType::T => spec_t_coords(rot),
    }
}

/// Occupied offsets of the I piece.
pub fn i_coords(rot: RotationState) -> (r: [(usize, usize); 4])
    ensures
        r@ == spec_i_coords(rot),
{
    let r = match rot {
        RotationState::Spawn => [(1usize, 0usize), (1, 1), (1, 2), (1, 3)],
        RotationState::Right => [(0usize, 2usize), (1, 2), (2, 2), (3, 2)],
        RotationState::Flip => [(2usize, 0usize), (2, 1), (2, 2), (2, 3)],
        RotationState::Left => [(0usize, 1usize), (1, 1), (2, 1), (3, 1)],
    };
    proof {
        assert(r@ =~= spec_i_coords(rot));
    }
    r
}

/// Occupied offsets of the J piece.
pub fn j_coords(rot: RotationState) -> (r: [(usize, usize); 4])
    ensures
        r@ == spec_j_coords(rot),
{
    let r = match rot {
        RotationState::Spawn => [(0usize, 0usize), (1, 0), (1, 1), (1, 2)],
        RotationState::Right => [(0usize, 1usize), (0, 2), (1, 1), (2, 1)],
        RotationState::Flip => [(1usize, 0usize), (1, 1), (1, 2), (2, 2)],
        RotationState::Left => [(2usize, 0usize), (0, 1), (1, 1), (2, 1)],
    };
    proof {
        assert(r@ =~= spec_j_coords(rot));
    }
    r
}

/// Occupied offsets of the L piece.
pub fn l_coords(rot: RotationState) -> (r: [(usize, usize); 4])
    ensures
        r@ == spec_l_coords(rot),
{
    let r = match rot {
        RotationState::Spawn => [(1usize, 0usize), (1, 1), (1, 2), (0, 2)],
        RotationState::Right => [(0usize, 1usize), (1, 1), (2, 1), (2, 2)],
        RotationState::Flip => [(1usize, 0usize), (1, 1), (1, 2), (2, 0)],
        RotationState::Left => [(0usize, 0usize), (0, 1), (1, 1), (2, 1)],
    };
    proof {
        assert(r@ =~= spec_l_coords(rot));
    }
    r
}

/// Occupied offsets of the O piece; the same in every orientation.
pub fn o_coords(rot: RotationState) -> (r: [(usize, usize); 4])
    ensures
        r@ == spec_o_coords(rot),
{
    let r = [(0usize, 1usize), (1, 1), (0, 2), (1, 2)];
    proof {
        assert(r@ =~= spec_o_coords(rot));
    }
    r
}

/// Occupied offsets of the S piece.
pub fn s_coords(rot: RotationState) -> (r: [(usize, usize); 4])
    ensures
        r@ == spec_s_coords(rot),
{
    let r = match rot {
        RotationState::Spawn => [(1usize, 0usize), (1, 1), (0, 1), (0, 2)],
        RotationState::Right => [(0usize, 1usize), (1, 1), (1, 2), (2, 2)],
        RotationState::Flip => [(1usize, 1usize), (1, 2), (2, 0), (2, 1)],
        RotationState::Left => [(0usize, 0usize), (1, 0), (1, 1), (2, 1)],
    };
    proof {
        assert(r@ =~= spec_s_coords(rot));
    }
    r
}

/// Occupied offsets of the Z piece.
pub fn z_coords(rot: RotationState) -> (r: [(usize, usize); 4])
    ensures
        r@ == spec_z_coords(rot),
{
    let r = match rot {
        RotationState::Spawn => [(0usize, 0usize), (0, 1), (1, 1), (1, 2)],
        RotationState::Right => [(1usize, 1usize), (0, 2), (1, 2), (2, 1)],
        RotationState::Flip => [(1usize, 0usize), (1, 1), (2, 1), (2, 2)],
        RotationState::Left => [(0usize, 1usize), (1, 0), (1, 1), (2, 0)],
    };
    proof {
        assert(r@ =~= spec_z_coords(rot));
    }
    r
}

/// Occupied offsets of the T piece.
pub fn t_coords(rot: RotationState) -> (r: [(usize, usize); 4])
    ensures
        r@ == spec_t_coords(rot),
{
    let r = match rot {
        RotationState::Spawn => [(0usize, 1usize), (1, 0), (1, 1), (1, 2)],
        RotationState::Right => [(0usize, 1usize), (1, 1), (1, 2), (2, 1)],
        RotationState::Flip => [(1usize, 0usize), (1, 1), (1, 2), (2, 1)],
        RotationState::Left => [(0usize, 1usize), (1, 0), (1, 1), (2, 1)],
    };
    proof {
        assert(r@ =~= spec_t_coords(rot));
    }
    r
}

/// Occupied offsets of any piece in any orientation.
pub fn get_coords(typ: PieceType, rot: RotationState) -> (r: [(usize, usize); 4])
    ensures
        r@ == spec_coords(typ, rot),
{
    match typ {
        PieceType::I => i_coords(rot),
        PieceType::J => j_coords(rot),
        PieceType::L => l_coords(rot),
        PieceType::O => o_coords(rot),
        PieceType::Z => z_coords(rot),
        PieceType::S => s_coords(rot),
        PieceType::T => t_coords(rot),
    }
}

/// Law: every piece/orientation pair occupies exactly four pairwise distinct
/// cells, all inside the 4x4 local frame.
pub proof fn lemma_coords_distinct_in_frame(typ: PieceType, rot: RotationState)
    ensures
        spec_coords(typ, rot).len() == 4,
        forall|i: int|
            0 <= i < 4 ==> (#[trigger] spec_coords(typ, rot)[i]).0 < 4 && spec_coords(
                typ,
                rot,
            )[i].1 < 4,
        forall|i: int, j: int|
            0 <= i < j < 4 ==> spec_coords(typ, rot)[i] != spec_coords(typ, rot)[j],
{
}

/// A rotation request is valid when it asks for a single step around the
/// orientation cycle; any other pair cannot arise from `rotate_right` or
/// `rotate_left`. The O piece accepts any pair, since its kick table is the
/// degenerate all-zero one.
pub open spec fn spec_single_step(rot: RotationState, new_rot: RotationState) -> bool {
    new_rot == spec_rot_right(rot) || new_rot == spec_rot_left(rot)
}

pub open spec fn spec_kicks_defined(
    typ: PieceType,
    rot: RotationState,
    new_rot: RotationState,
) -> bool {
    typ == PieceType::O || spec_single_step(rot, new_rot)
}

pub open spec fn spec_zero_kicks() -> Seq<(i32, i32)> {
    seq![(0i32, 0i32), (0i32, 0i32), (0i32, 0i32), (0i32, 0i32), (0i32, 0i32)]
}

pub open spec fn spec_i_kicks(rot: RotationState, new_rot: RotationState) -> Seq<(i32, i32)> {
    match (rot, new_rot) {
        (RotationState::Spawn, RotationState::Right) => seq![
            (0i32, 0i32),
            (-2i32, 0i32),
            (1i32, 0i32),
            (-2i32, 1i32),
            (1i32, -2i32),
        ],
        (RotationState::Right, RotationState::Spawn) => seq![
            (0i32, 0i32),
            (2i32, 0i32),
            (-1i32, 0i32),
            (2i32, -1i32),
            (-1i32, 2i32),
        ],
        (RotationState::Right, RotationState::Flip) => seq![
            (0i32, 0i32),
            (-1i32, 0i32),
            (2i32, 0i32),
            (-1i32, -2i32),
            (2i32, 1i32),
        ],
        (RotationState::Flip, RotationState::Right) => seq![
            (0i32, 0i32),
            (1i32, 0i32),
            (-2i32, 0i32),
            (1i32, 2i32),
            (-2i32, -1i32),
        ],
        (RotationState::Flip, RotationState::Left) => seq![
            (0i32, 0i32),
            (2i32, 0i32),
            (-1i32, 0i32),
            (2i32, -1i32),
            (-1i32, 2i32),
        ],
        (RotationState::Left, RotationState::Flip) => seq![
            (0i32, 0i32),
            (-2i32, 0i32),
            (1i32, 0i32),
            (-2i32, 1i32),
            (1i32, -2i32),
        ],
        (RotationState::Left, RotationState::Spawn) => seq![
            (0i32, 0i32),
            (1i32, 0i32),
            (-2i32, 0i32),
            (1i32, 2i32),
            (-2i32, -1i32),
        ],
        (RotationState::Spawn, RotationState::Left) => seq![
            (0i32, 0i32),
            (-1i32, 0i32),
            (2i32, 0i32),
            (-1i32, -2i32),
            (2i32, 1i32),
        ],
        _ => spec_zero_kicks(),
    }
}

pub open spec fn spec_jlszt_kicks(rot: RotationState, new_rot: RotationState) -> Seq<(i32, i32)> {
    match (rot, new_rot) {
        (RotationState::Spawn, RotationState::Right) => seq![
            (0i32, 0i32),
            (-1i32, 0i32),
            (-1i32, -1i32),
            (0i32, 2i32),
            (-1i32, 2i32),
        ],
        (RotationState::Right, RotationState::Spawn) => seq![
            (0i32, 0i32),
            (1i32, 0i32),
            (1i32, 1i32),
            (0i32, -2i32),
            (1i32, -2i32),
        ],
        (RotationState::Right, RotationState::Flip) => seq![
            (0i32, 0i32),
            (-1i32, 0i32),
            (1i32, 1i32),
            (0i32, -2i32),
            (1i32, -2i32),
        ],
        (RotationState::Flip, RotationState::Right) => seq![
            (0i32, 0i32),
            (-1i32, 0i32),
            (-1i32, -1i32),
            (0i32, 2i32),
            (-1i32, 2i32),
        ],
        (RotationState::Flip, RotationState::Left) => seq![
            (0i32, 0i32),
            (1i32, 0i32),
            (1i32, -1i32),
            (0i32, 2i32),
            (1i32, 2i32),
        ],
        (RotationState::Left, RotationState::Flip) => seq![
            (0i32, 0i32),
            (-1i32, 0i32),
            (-1i32, 1i32),
            (0i32, -2i32),
            (-1i32, -2i32),
        ],
        (RotationState::Left, RotationState::Spawn) => seq![
            (0i32, 0i32),
            (-1i32, 0i32),
            (-1i32, 1i32),
            (0i32, -2i32),
            (-1i32, -2i32),
        ],
        (RotationState::Spawn, RotationState::Left) => seq![
            (0i32, 0i32),
            (1i32, 0i32),
            (1i32, -1i32),
            (0i32, 2i32),
            (1i32, 2i32),
        ],
        _ => spec_zero_kicks(),
    }
}

pub open spec fn spec_wallkicks(
    typ: PieceType,
    rot: RotationState,
    new_rot: RotationState,
) -> Seq<(i32, i32)> {
    match typ {
        PieceType::O => spec_zero_kicks(),
        PieceType::I => spec_i_kicks(rot, new_rot),
        _ => spec_jlszt_kicks(rot, new_rot),
    }
}

/// The ordered wall-kick candidates, as `(dx, dy)` translations, to try when
/// rotating `typ` from `rot` to `new_rot`. Only single-step transitions are
/// meaningful; any other pair is a caller bug and is ruled out up front.
pub fn get_wallkicks(typ: PieceType, rot: RotationState, new_rot: RotationState) -> (r: [(
    i32,
    i32,
); 5])
    requires
        spec_kicks_defined(typ, rot, new_rot),
    ensures
        r@ == spec_wallkicks(typ, rot, new_rot),
{
    let r = match typ {
        PieceType::O => [(0i32, 0i32), (0i32, 0i32), (0i32, 0i32), (0i32, 0i32), (0i32, 0i32)],
        PieceType::I => match (rot, new_rot) {
            (RotationState::Spawn, RotationState::Right) => [
                (0i32, 0i32),
                (-2i32, 0i32),
                (1i32, 0i32),
                (-2i32, 1i32),
                (1i32, -2i32),
            ],
            (RotationState::Right, RotationState::Spawn) => [
                (0i32, 0i32),
                (2i32, 0i32),
                (-1i32, 0i32),
                (2i32, -1i32),
                (-1i32, 2i32),
            ],
            (RotationState::Right, RotationState::Flip) => [
                (0i32, 0i32),
                (-1i32, 0i32),
                (2i32, 0i32),
                (-1i32, -2i32),
                (2i32, 1i32),
            ],
            (RotationState::Flip, RotationState::Right) => [
                (0i32, 0i32),
                (1i32, 0i32),
                (-2i32, 0i32),
                (1i32, 2i32),
                (-2i32, -1i32),
            ],
            (RotationState::Flip, RotationState::Left) => [
                (0i32, 0i32),
                (2i32, 0i32),
                (-1i32, 0i32),
                (2i32, -1i32),
                (-1i32, 2i32),
            ],
            (RotationState::Left, RotationState::Flip) => [
                (0i32, 0i32),
                (-2i32, 0i32),
                (1i32, 0i32),
                (-2i32, 1i32),
                (1i32, -2i32),
            ],
            (RotationState::Left, RotationState::Spawn) => [
                (0i32, 0i32),
                (1i32, 0i32),
                (-2i32, 0i32),
                (1i32, 2i32),
                (-2i32, -1i32),
            ],
            (RotationState::Spawn, RotationState::Left) => [
                (0i32, 0i32),
                (-1i32, 0i32),
                (2i32, 0i32),
                (-1i32, -2i32),
                (2i32, 1i32),
            ],
            _ => {
                assert(false);
                [(0i32, 0i32), (0i32, 0i32), (0i32, 0i32), (0i32, 0i32), (0i32, 0i32)]
            },
        },
        _ => match (rot, new_rot) {
            (RotationState::Spawn, RotationState::Right) => [
                (0i32, 0i32),
                (-1i32, 0i32),
                (-1i32, -1i32),
                (0i32, 2i32),
                (-1i32, 2i32),
            ],
            (RotationState::Right, RotationState::Spawn) => [
                (0i32, 0i32),
                (1i32, 0i32),
                (1i32, 1i32),
                (0i32, -2i32),
                (1i32, -2i32),
            ],
            (RotationState::Right, RotationState::Flip) => [
                (0i32, 0i32),
                (-1i32, 0i32),
                (1i32, 1i32),
                (0i32, -2i32),
                (1i32, -2i32),
            ],
            (RotationState::Flip, RotationState::Right) => [
                (0i32, 0i32),
                (-1i32, 0i32),
                (-1i32, -1i32),
                (0i32, 2i32),
                (-1i32, 2i32),
            ],
            (RotationState::Flip, RotationState::Left) => [
                (0i32, 0i32),
                (1i32, 0i32),
                (1i32, -1i32),
                (0i32, 2i32),
                (1i32, 2i32),
            ],
            (RotationState::Left, RotationState::Flip) => [
                (0i32, 0i32),
                (-1i32, 0i32),
                (-1i32, 1i32),
                (0i32, -2i32),
                (-1i32, -2i32),
            ],
            (RotationState::Left, RotationState::Spawn) => [
                (0i32, 0i32),
                (-1i32, 0i32),
                (-1i32, 1i32),
                (0i32, -2i32),
                (-1i32, -2i32),
            ],
            (RotationState::Spawn, RotationState::Left) => [
                (0i32, 0i32),
                (1i32, 0i32),
                (1i32, -1i32),
                (0i32, 2i32),
                (1i32, 2i32),
            ],
            _ => {
                assert(false);
                [(0i32, 0i32), (0i32, 0i32), (0i32, 0i32), (0i32, 0i32), (0i32, 0i32)]
            },
        },
    };
    proof {
        assert(r@ =~= spec_wallkicks(typ, rot, new_rot));
    }
    r
}

/// Every kick table holds five candidates and leads with the rotate-in-place
/// offset `(0i32, 0i32)`.
pub proof fn lemma_kicks_start_in_place(typ: PieceType, rot: RotationState, new_rot: RotationState)
    ensures
        spec_wallkicks(typ, rot, new_rot).len() == 5,
        spec_wallkicks(typ, rot, new_rot)[0] == (0i32, 0i32),
{
}

} // verus!
