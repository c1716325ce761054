//! Scenario tests for the game state: spawning, movement, rotation with wall
//! kicks, ghost projection, holding, line clears and top-out.

use tetrs::state::{
    Bag, CellColor, PieceType, State, FIELD_HEIGHT, FIELD_VIS_HEIGHT, FIELD_VIS_WIDTH,
    FIELD_WIDTH,
};

const ALL_TYPES: [PieceType; 7] = [
    PieceType::I,
    PieceType::J,
    PieceType::L,
    PieceType::O,
    PieceType::Z,
    PieceType::S,
    PieceType::T,
];

fn type_index(t: PieceType) -> usize {
    match t {
        PieceType::I => 0,
        PieceType::J => 1,
        PieceType::L => 2,
        PieceType::O => 3,
        PieceType::Z => 4,
        PieceType::S => 5,
        PieceType::T => 6,
    }
}

/// The type of the active piece while it sits in the spawn area of an
/// otherwise empty upper playfield: the first piece-colored cell in the top
/// four rows gives it away.
fn active_type(s: &State) -> Option<PieceType> {
    for y in 0..4 {
        for x in 2..FIELD_WIDTH {
            if let CellColor::Block(t) = s.get_cell_color(x, y) {
                return Some(t);
            }
        }
    }
    None
}

/// Every visible cell, for whole-board snapshots.
fn visible_cells(s: &State) -> Vec<CellColor> {
    let mut out = Vec::new();
    for y in 0..FIELD_VIS_HEIGHT {
        for x in 0..FIELD_VIS_WIDTH {
            out.push(s.get_cell_color(x + 2, y + 2));
        }
    }
    out
}

#[test]
fn bag_pops_in_order_then_exhausts() {
    let mut bag = Bag { index: 0, pieces: ALL_TYPES };
    for t in ALL_TYPES {
        assert_eq!(bag.pop(), Some(t));
    }
    assert_eq!(bag.pop(), None);
    assert_eq!(bag.peek(), None);
}

#[test]
fn bag_peek_does_not_advance() {
    let bag = Bag { index: 0, pieces: ALL_TYPES };
    assert_eq!(bag.peek(), Some(PieceType::I));
    assert_eq!(bag.peek(), Some(PieceType::I));
}

#[test]
fn fresh_game_draws_each_type_once_per_bag() {
    // The first seven pieces of a fresh game come from one freshly
    // generated bag, so every type must appear exactly once.
    let mut s = State::new();
    let mut seen = [0usize; 7];
    let first = active_type(&s).expect("fresh game has an active piece");
    seen[type_index(first)] += 1;
    for _ in 1..7 {
        assert!(s.next_piece());
        let t = active_type(&s).expect("spawn on an empty grid succeeds");
        seen[type_index(t)] += 1;
    }
    assert_eq!(seen, [1, 1, 1, 1, 1, 1, 1]);
}

#[test]
fn bag_rollover_keeps_dealing() {
    // Drawing far past one bag exercises the rollover to the prepared bag;
    // on an empty grid every spawn must keep succeeding.
    let mut s = State::new();
    for _ in 0..20 {
        assert!(s.next_piece());
        assert!(active_type(&s).is_some());
    }
}

#[test]
fn next_piece_preview_is_accurate() {
    let mut s = State::new();
    let preview = s.get_next_piece();
    assert_eq!(s.get_next_piece(), preview, "peeking must not consume");
    assert!(s.next_piece());
    assert_eq!(active_type(&s), Some(preview));
}

#[test]
fn spawned_i_piece_colors_the_spawn_cells() {
    let mut s = State::new();
    assert!(s.spawn_piece(PieceType::I));
    // The I piece occupies row 1, columns 5 through 8, of the hidden area.
    for x in 5..9 {
        assert_eq!(s.get_cell_color(x, 1), CellColor::Block(PieceType::I));
    }
    // Its ghost projects straight down to the bottom visible row.
    for x in 5..9 {
        assert_eq!(s.get_cell_color(x, 21), CellColor::GhostOutline);
    }
    // Every other visible cell is empty.
    for y in 2..FIELD_HEIGHT {
        for x in 2..FIELD_WIDTH {
            if y == 21 && (5..9).contains(&x) {
                continue;
            }
            assert_eq!(s.get_cell_color(x, y), CellColor::Empty, "at ({}, {})", x, y);
        }
    }
}

#[test]
fn moves_shift_the_active_piece() {
    let mut s = State::new();
    assert!(s.spawn_piece(PieceType::O));
    // O at the spawn pose occupies rows 0..2, columns 6 and 7.
    assert_eq!(s.get_cell_color(6, 0), CellColor::Block(PieceType::O));
    assert_eq!(s.get_cell_color(7, 1), CellColor::Block(PieceType::O));
    s.piece_left();
    assert_eq!(s.get_cell_color(5, 0), CellColor::Block(PieceType::O));
    assert_eq!(s.get_cell_color(7, 0), CellColor::Empty);
    s.piece_right();
    s.piece_right();
    assert_eq!(s.get_cell_color(8, 0), CellColor::Block(PieceType::O));
    assert_eq!(s.get_cell_color(5, 0), CellColor::Empty);
}

#[test]
fn snaps_reach_the_walls() {
    let mut s = State::new();
    assert!(s.spawn_piece(PieceType::O));
    s.snap_left();
    // The O piece's occupied columns are offsets 1 and 2, so its frame can
    // reach x = 1: cells in columns 2 and 3, flush with the dead zone.
    assert_eq!(s.get_cell_color(2, 0), CellColor::Block(PieceType::O));
    assert_eq!(s.get_cell_color(3, 1), CellColor::Block(PieceType::O));
    s.snap_right();
    assert_eq!(s.get_cell_color(10, 0), CellColor::Block(PieceType::O));
    assert_eq!(s.get_cell_color(11, 1), CellColor::Block(PieceType::O));
}

#[test]
fn soft_drop_falls_to_rest_without_locking() {
    let mut s = State::new();
    assert!(s.spawn_piece(PieceType::O));
    s.drop(false);
    // The piece rests on the floor but is not locked.
    assert_eq!(s.get_cell_color(6, 20), CellColor::Block(PieceType::O));
    assert_eq!(s.get_cell_color(6, 21), CellColor::Block(PieceType::O));
    // Replacing the active piece erases it: nothing was written to the grid.
    assert!(s.spawn_piece(PieceType::I));
    assert_eq!(s.get_cell_color(6, 20), CellColor::Empty);
}

#[test]
fn hard_drop_locks_at_the_bottom() {
    let mut s = State::new();
    assert!(s.spawn_piece(PieceType::O));
    s.drop(true);
    // The O cells are now locked grid cells, whatever piece is active.
    assert!(s.spawn_piece(PieceType::I));
    assert_eq!(s.get_cell_color(6, 20), CellColor::Block(PieceType::O));
    assert_eq!(s.get_cell_color(7, 20), CellColor::Block(PieceType::O));
    assert_eq!(s.get_cell_color(6, 21), CellColor::Block(PieceType::O));
    assert_eq!(s.get_cell_color(7, 21), CellColor::Block(PieceType::O));
}

#[test]
fn rotation_in_open_area_keeps_position() {
    let mut s = State::new();
    assert!(s.spawn_piece(PieceType::T));
    // T at the spawn pose: cells (0,6), (1,5), (1,6), (1,7).
    assert_eq!(s.get_cell_color(6, 0), CellColor::Block(PieceType::T));
    s.rotate_right();
    // In the open the first (0,0) kick wins: same frame position, new
    // orientation Right with cells (0,6), (1,6), (1,7), (2,6).
    assert_eq!(s.get_cell_color(6, 0), CellColor::Block(PieceType::T));
    assert_eq!(s.get_cell_color(6, 1), CellColor::Block(PieceType::T));
    assert_eq!(s.get_cell_color(7, 1), CellColor::Block(PieceType::T));
    assert_eq!(s.get_cell_color(6, 2), CellColor::Block(PieceType::T));
    assert_eq!(s.get_cell_color(5, 1), CellColor::Empty);
}

#[test]
fn rotating_j_at_the_left_wall_prefers_in_place() {
    let mut s = State::new();
    assert!(s.spawn_piece(PieceType::J));
    s.snap_left();
    // J spans column offsets 0..3, so the wall stops its frame at x = 2.
    assert_eq!(s.get_cell_color(2, 0), CellColor::Block(PieceType::J));
    s.rotate_left();
    // Rotating to Left needs only columns x and x+1: the first (0,0) kick
    // fits even against the wall, so the frame does not move.
    assert_eq!(s.get_cell_color(2, 2), CellColor::Block(PieceType::J));
    assert_eq!(s.get_cell_color(3, 0), CellColor::Block(PieceType::J));
    assert_eq!(s.get_cell_color(3, 1), CellColor::Block(PieceType::J));
    assert_eq!(s.get_cell_color(3, 2), CellColor::Block(PieceType::J));
}

#[test]
fn floor_rotation_applies_first_fitting_kick() {
    let mut s = State::new();
    assert!(s.spawn_piece(PieceType::J));
    s.drop(false);
    // The J piece rests at frame y = 20. Rotating to Left needs three rows,
    // so the in-place kick (0,0) and the (1,0) kick both run off the bottom;
    // the third candidate (1,-1) is the first that fits, lifting the piece
    // one row and shifting it one column right: frame (6,19).
    s.rotate_left();
    assert_eq!(s.get_cell_color(6, 21), CellColor::Block(PieceType::J));
    assert_eq!(s.get_cell_color(7, 19), CellColor::Block(PieceType::J));
    assert_eq!(s.get_cell_color(7, 20), CellColor::Block(PieceType::J));
    assert_eq!(s.get_cell_color(7, 21), CellColor::Block(PieceType::J));
}

#[test]
fn hold_parks_piece_and_is_consumed() {
    let mut s = State::new();
    assert!(s.spawn_piece(PieceType::I));
    assert_eq!(s.get_hold_piece(), None);
    assert!(s.can_hold());
    s.hold();
    // The I piece is parked, a new piece spawned, and holding is used up.
    assert_eq!(s.get_hold_piece(), Some(PieceType::I));
    assert!(active_type(&s).is_some());
    assert!(!s.can_hold());
    // A second hold without an intervening spawn changes nothing.
    let hold_before = s.get_hold_piece();
    let grid_before = visible_cells(&s);
    let upper_before: Vec<CellColor> =
        (0..2).flat_map(|y| (2..FIELD_WIDTH).map(move |x| (x, y)))
            .map(|(x, y)| s.get_cell_color(x, y)).collect();
    s.hold();
    assert_eq!(s.get_hold_piece(), hold_before);
    assert!(!s.can_hold());
    assert_eq!(visible_cells(&s), grid_before);
    let upper_after: Vec<CellColor> =
        (0..2).flat_map(|y| (2..FIELD_WIDTH).map(move |x| (x, y)))
            .map(|(x, y)| s.get_cell_color(x, y)).collect();
    assert_eq!(upper_after, upper_before);
}

#[test]
fn hold_swaps_with_occupied_slot() {
    let mut s = State::new();
    assert!(s.spawn_piece(PieceType::I));
    s.hold();
    assert_eq!(s.get_hold_piece(), Some(PieceType::I));
    // A fresh spawn re-enables holding.
    assert!(s.spawn_piece(PieceType::T));
    assert!(s.can_hold());
    s.hold();
    // The slot and the active piece swap.
    assert_eq!(s.get_hold_piece(), Some(PieceType::T));
    assert_eq!(active_type(&s), Some(PieceType::I));
    assert!(!s.can_hold());
}

#[test]
fn completing_a_row_clears_it_and_shifts_the_stack() {
    let mut s = State::new();
    // Fill the bottom row except column 5, and leave a known pattern in
    // row 20: J on the left, O in the middle, I on the right.
    assert!(s.spawn_piece(PieceType::J));
    s.snap_left();
    s.drop(true); // row 21: cols 2,3,4; row 20: col 2
    assert!(s.spawn_piece(PieceType::O));
    s.drop(true); // rows 20,21: cols 6,7
    assert!(s.spawn_piece(PieceType::I));
    s.snap_right();
    s.drop(true); // row 21: cols 8,9,10,11
    // Row 21 now misses only column 5.
    assert_eq!(s.get_cell_color(5, 21), CellColor::Empty);
    assert_eq!(s.get_cell_color(4, 21), CellColor::Block(PieceType::J));
    assert_eq!(s.get_cell_color(8, 21), CellColor::Block(PieceType::I));
    // Drop a vertical I into the gap: rotate, shift to column 5, hard drop.
    assert!(s.spawn_piece(PieceType::I));
    s.rotate_right(); // occupies column 7
    s.piece_left();
    s.piece_left(); // occupies column 5
    s.drop(true); // fills rows 18..22 of column 5; row 21 completes
    // Pin the active piece somewhere harmless before reading the board.
    assert!(s.spawn_piece(PieceType::O));
    // Row 21 now holds what row 20 held, plus the shifted I stem.
    assert_eq!(s.get_cell_color(2, 21), CellColor::Block(PieceType::J));
    assert_eq!(s.get_cell_color(5, 21), CellColor::Block(PieceType::I));
    assert_eq!(s.get_cell_color(6, 21), CellColor::Block(PieceType::O));
    assert_eq!(s.get_cell_color(7, 21), CellColor::Block(PieceType::O));
    for x in [3, 4, 8, 9, 10, 11] {
        assert_eq!(s.get_cell_color(x, 21), CellColor::Empty, "at ({}, 21)", x);
    }
    // The I stem above the cleared row moved down one row with it.
    assert_eq!(s.get_cell_color(5, 20), CellColor::Block(PieceType::I));
    assert_eq!(s.get_cell_color(5, 19), CellColor::Block(PieceType::I));
    assert_eq!(s.get_cell_color(5, 18), CellColor::Empty);
    assert_eq!(s.get_cell_color(2, 20), CellColor::Empty);
}

#[test]
fn blocked_spawn_reports_top_out() {
    let mut s = State::new();
    // Stack O pieces in columns 6-7 until the stack reaches the hidden
    // rows; the eleventh piece locks at rows 0-1 and blocks the spawn cells.
    for _ in 0..11 {
        assert!(s.spawn_piece(PieceType::O));
        s.drop(true);
    }
    // The spawn area is now occupied: spawning fails and reports it.
    assert!(!s.spawn_piece(PieceType::O));
    assert_eq!(s.get_cell_color(6, 0), CellColor::Block(PieceType::O));
    assert_eq!(s.get_cell_color(7, 1), CellColor::Block(PieceType::O));
}

#[test]
fn piece_colors_are_fixed() {
    assert_eq!(PieceType::I.rgb(), (0, 255, 255));
    assert_eq!(PieceType::J.rgb(), (0, 0, 255));
    assert_eq!(PieceType::L.rgb(), (255, 128, 0));
    assert_eq!(PieceType::O.rgb(), (255, 255, 0));
    assert_eq!(PieceType::Z.rgb(), (255, 0, 0));
    assert_eq!(PieceType::S.rgb(), (0, 255, 0));
    assert_eq!(PieceType::T.rgb(), (127, 0, 255));
}

#[test]
fn fresh_game_starts_clean() {
    let mut s = State::new();
    assert!(s.can_hold());
    assert_eq!(s.get_hold_piece(), None);
    assert!(active_type(&s).is_some());
    for y in 4..FIELD_HEIGHT {
        for x in 2..FIELD_WIDTH {
            let c = s.get_cell_color(x, y);
            assert!(
                c == CellColor::Empty || c == CellColor::GhostOutline,
                "unexpected locked cell at ({}, {})",
                x,
                y
            );
        }
    }
}
