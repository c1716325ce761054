//! The game state: the grid of locked cells, the active piece with its ghost
//! projection, the hold slot, and the two seven-piece bags. All player-facing
//! operations live here; every mutation goes through the collision check
//! `can_place_piece`, so no out-of-bounds write ever reaches the grid.

use vstd::array::ArrayAdditionalExecFns;
use vstd::multiset::Multiset;
use vstd::prelude::*;

use crate::rotations::{
    get_coords, get_wallkicks, lemma_coords_distinct_in_frame, spec_coords, spec_kicks_defined,
    spec_wallkicks,
};

verus! {

broadcast use vstd::array::group_array_axioms, vstd::seq_lib::group_seq_properties;

/// Grid width in cells; the two leftmost columns are a permanent dead zone
/// reserved for rotation overhang and are never occupied.
pub const FIELD_WIDTH: usize = 12;

pub const FIELD_VIS_WIDTH: usize = 10;

/// Grid height in cells; the two topmost rows are hidden headroom for
/// spawning and rotation.
pub const FIELD_HEIGHT: usize = 22;

pub const FIELD_VIS_HEIGHT: usize = 20;

/// The four orientations a piece can take, in the cycle
/// `Spawn -> Right -> Flip -> Left -> Spawn` (clockwise).
#[derive(Clone, Copy, PartialEq, Eq, Structural, Debug)]
pub enum RotationState {
    Spawn,
    Right,
    Flip,
    Left,
}

pub open spec fn spec_rot_right(rot: RotationState) -> RotationState {
    match rot {
        RotationState::Spawn => RotationState::Right,
        RotationState::Right => RotationState::Flip,
        RotationState::Flip => RotationState::Left,
        RotationState::Left => RotationState::Spawn,
    }
}

pub open spec fn spec_rot_left(rot: RotationState) -> RotationState {
    match rot {
        RotationState::Spawn => RotationState::Left,
        RotationState::Left => RotationState::Flip,
        RotationState::Flip => RotationState::Right,
        RotationState::Right => RotationState::Spawn,
    }
}

impl RotationState {
    /// One clockwise step in the orientation cycle.
    pub fn right(&self) -> (r: Self)
        ensures
            r == spec_rot_right(*self),
    {
        match self {
            RotationState::Spawn => RotationState::Right,
            RotationState::Right => RotationState::Flip,
            RotationState::Flip => RotationState::Left,
            RotationState::Left => RotationState::Spawn,
        }
    }

    /// One counterclockwise step in the orientation cycle.
    pub fn left(&self) -> (r: Self)
        ensures
            r == spec_rot_left(*self),
    {
        match self {
            RotationState::Spawn => RotationState::Left,
            RotationState::Left => RotationState::Flip,
            RotationState::Flip => RotationState::Right,
            RotationState::Right => RotationState::Spawn,
        }
    }
}

/// The seven piece shapes.
#[derive(Clone, Copy, PartialEq, Eq, Structural, Debug)]
pub enum PieceType {
    I,
    J,
    L,
    O,
    Z,
    S,
    T,
}

pub open spec fn spec_piece_rgb(t: PieceType) -> (u8, u8, u8) {
    match t {
        PieceType::I => (0u8, 255u8, 255u8),
        PieceType::J => (0u8, 0u8, 255u8),
        PieceType::L => (255u8, 128u8, 0u8),
        PieceType::O => (255u8, 255u8, 0u8),
        PieceType::Z => (255u8, 0u8, 0u8),
        PieceType::S => (0u8, 255u8, 0u8),
        PieceType::T => (127u8, 0u8, 255u8),
    }
}

impl PieceType {
    /// The fixed display color of this piece type, as an RGB triple.
    pub fn rgb(self) -> (r: (u8, u8, u8))
        ensures
            r == spec_piece_rgb(self),
    {
        match self {
            PieceType::I => (0u8, 255u8, 255u8),
            PieceType::J => (0u8, 0u8, 255u8),
            PieceType::L => (255u8, 128u8, 0u8),
            PieceType::O => (255u8, 255u8, 0u8),
            PieceType::Z => (255u8, 0u8, 0u8),
            PieceType::S => (0u8, 255u8, 0u8),
            PieceType::T => (127u8, 0u8, 255u8),
        }
    }
}

/// What a grid cell shows to a renderer: a locked or active piece's color,
/// the ghost outline, or nothing.
#[derive(Clone, Copy, PartialEq, Eq, Structural, Debug)]
pub enum CellColor {
    Block(PieceType),
    GhostOutline,
    Empty,
}

/// The active piece: the top-left corner of its 4x4 local frame, its type
/// and its orientation. It is replaced wholesale on every accepted move and
/// never partially mutated.
#[derive(Clone, Copy, PartialEq, Eq, Structural, Debug)]
pub struct Piece {
    pub x: usize,
    pub y: usize,
    pub typ: PieceType,
    pub rot: RotationState,
}

/// Where the active piece would come to rest on an immediate hard drop;
/// recomputed after every successful placement, never set independently.
#[derive(Clone, Copy, PartialEq, Eq, Structural, Debug)]
pub struct GhostPos {
    pub x: usize,
    pub y: usize,
}

/// One grid cell: the type of the piece that locked here, if any.
#[derive(Clone, Copy, Debug)]
pub struct Cell {
    pub typ: Option<PieceType>,
}

/// One grid row of `FIELD_WIDTH` cells.
#[derive(Clone, Copy, Debug)]
pub struct Row {
    pub cells: [Cell; 12],
}

/// A shuffled permutation of the seven piece types plus a read cursor.
/// Until it is exhausted the seven entries are a permutation of all piece
/// types: no repeats, no omissions.
#[derive(Clone, Copy, Debug)]
pub struct Bag {
    pub index: usize,
    pub pieces: [PieceType; 7],
}

impl Bag {
    /// The bag invariant: a valid cursor over a 7-entry permutation in which
    /// every piece type appears exactly once.
    pub open spec fn wf(self) -> bool {
        &&& self.index <= 7
        &&& forall|t: PieceType| #[trigger] self.pieces@.to_multiset().count(t) == 1
    }

    /// Returns the piece at the cursor and advances it, or signals
    /// exhaustion once all seven have been drawn.
    pub fn pop(&mut self) -> (r: Option<PieceType>)
        ensures
            old(self).index < 7 ==> r == Some(old(self).pieces@[old(self).index as int])
                && final(self).index == old(self).index + 1 && final(self).pieces == old(
                self,
            ).pieces,
            old(self).index >= 7 ==> r is None && *final(self) == *old(self),
    {
        if self.index < 7 {
            self.index += 1;
            Some(self.pieces[self.index - 1])
        } else {
            None
        }
    }

    /// Returns the piece at the cursor without advancing, or signals
    /// exhaustion.
    pub fn peek(&self) -> (r: Option<PieceType>)
        ensures
            self.index < 7 ==> r == Some(self.pieces@[self.index as int]),
            self.index >= 7 ==> r is None,
    {
        if self.index < 7 {
            Some(self.pieces[self.index])
        } else {
            None
        }
    }
}

/// Builds a fresh bag: the seven piece types in a uniformly shuffled order,
/// with the cursor at the start.
fn generate_bag() -> (b: Bag)
    ensures
        b.wf(),
        b.index == 0,
{
    let mut pieces: [PieceType; 7] = [
        PieceType::I,
        PieceType::J,
        PieceType::L,
        PieceType::O,
        PieceType::Z,
        PieceType::S,
        PieceType::T,
    ];
    proof {
        lemma_seven_types_once(pieces@);
    }
    crate::rng::shuffle_pieces(&mut pieces);
    Bag { index: 0, pieces }
}

/// A sequence holding each of I, J, L, O, Z, S, T exactly once counts every
/// piece type exactly once.
proof fn lemma_seven_types_once(s: Seq<PieceType>)
    requires
        s =~= seq![
            PieceType::I,
            PieceType::J,
            PieceType::L,
            PieceType::O,
            PieceType::Z,
            PieceType::S,
            PieceType::T,
        ],
    ensures
        forall|t: PieceType| #[trigger] s.to_multiset().count(t) == 1,
{
    broadcast use vstd::seq_lib::group_to_multiset_ensures;

    let s0 = Seq::<PieceType>::empty();
    let s1 = s0.push(PieceType::I);
    let s2 = s1.push(PieceType::J);
    let s3 = s2.push(PieceType::L);
    let s4 = s3.push(PieceType::O);
    let s5 = s4.push(PieceType::Z);
    let s6 = s5.push(PieceType::S);
    let s7 = s6.push(PieceType::T);
    assert(s =~= s7);
    assert forall|t: PieceType| #[trigger] s.to_multiset().count(t) == 1 by {
        s0.to_multiset_ensures();
        assert(s0.to_multiset() =~= Multiset::<PieceType>::empty());
        assert(s7.to_multiset() =~= s0.to_multiset().insert(PieceType::I).insert(
            PieceType::J,
        ).insert(PieceType::L).insert(PieceType::O).insert(PieceType::Z).insert(
            PieceType::S,
        ).insert(PieceType::T));
        match t {
            PieceType::I => assert(s.to_multiset().count(t) == 1),
            PieceType::J => assert(s.to_multiset().count(t) == 1),
            PieceType::L => assert(s.to_multiset().count(t) == 1),
            PieceType::O => assert(s.to_multiset().count(t) == 1),
            PieceType::Z => assert(s.to_multiset().count(t) == 1),
            PieceType::S => assert(s.to_multiset().count(t) == 1),
            PieceType::T => assert(s.to_multiset().count(t) == 1),
        }
    }
}

/// Law: a freshly generated bag deals each of the seven piece types exactly
/// once across its seven successive draws. `pop` hands out `pieces[0]`
/// through `pieces[6]` in order, and that permutation holds every type
/// exactly once, so no type repeats and none is skipped within a bag.
pub proof fn lemma_fresh_bag_deals_each_type_once(b: Bag)
    requires
        b.wf(),
        b.index == 0,
    ensures
        forall|t: PieceType| #[trigger] b.pieces@.to_multiset().count(t) == 1,
        forall|i: int, j: int| 0 <= i < j < 7 ==> b.pieces@[i] != b.pieces@[j],
{
    broadcast use vstd::seq_lib::group_to_multiset_ensures;

    assert forall|i: int, j: int| 0 <= i < j < 7 implies b.pieces@[i] != b.pieces@[j] by {
        if b.pieces@[i] == b.pieces@[j] {
            let s = b.pieces@;
            let t = s[i];
            let s2 = s.remove(j);
            assert(s2.to_multiset() == s.to_multiset().remove(s[j]));
            assert(s2.to_multiset().count(t) == 0);
            assert(s2[i] == t);
            assert(s2.to_multiset().contains(t));
        }
    }
}

/// The grid as mathematics: 22 rows of 12 cells, each an optional piece
/// type.
pub type GridView = Seq<Seq<Option<PieceType>>>;

pub open spec fn row_view(r: Row) -> Seq<Option<PieceType>> {
    r.cells@.map_values(|c: Cell| c.typ)
}

pub open spec fn spec_empty_row() -> Seq<Option<PieceType>> {
    Seq::new(12, |x: int| Option::<PieceType>::None)
}

/// The two dead-zone columns on the left are never occupied.
pub open spec fn dead_cols_empty(g: GridView) -> bool {
    forall|y: int, x: int| 0 <= y < 22 && 0 <= x < 2 ==> g[y][x] is None
}

/// One occupied offset of `pc` sits inside the playable area (columns 2 to
/// 11, rows 0 to 21) on a free cell.
pub open spec fn spec_offset_free(g: GridView, pc: Piece, rc: (usize, usize)) -> bool {
    &&& pc.x + rc.1 < FIELD_WIDTH
    &&& 2 <= pc.x + rc.1
    &&& pc.y + rc.0 < FIELD_HEIGHT
    &&& g[pc.y + rc.0][pc.x + rc.1] is None
}

/// `pc` can be placed: all four of its occupied cells are in bounds, off the
/// dead zone, and unoccupied.
pub open spec fn spec_fits(g: GridView, pc: Piece) -> bool {
    forall|i: int|
        0 <= i < 4 ==> spec_offset_free(g, pc, #[trigger] spec_coords(pc.typ, pc.rot)[i])
}

/// A placeable piece keeps its whole 4x4-frame anchor on the grid.
pub proof fn lemma_fits_bounds(g: GridView, pc: Piece)
    requires
        spec_fits(g, pc),
    ensures
        pc.x < FIELD_WIDTH,
        pc.y < FIELD_HEIGHT,
{
    lemma_coords_distinct_in_frame(pc.typ, pc.rot);
    assert(spec_offset_free(g, pc, spec_coords(pc.typ, pc.rot)[0]));
}

/// The authoritative game state.
pub struct State {
    pub rows: [Row; 22],
    pub piece: Piece,
    pub ghost_pos: GhostPos,
    pub hold: Option<PieceType>,
    pub can_hold: bool,
    pub bag: Bag,
    pub next_bag: Bag,
}

impl State {
    pub open spec fn grid(self) -> GridView {
        self.rows@.map_values(|r: Row| row_view(r))
    }

    /// The state invariant: dead-zone columns empty, the active piece's
    /// occupied cells in bounds, both bags well formed, and the prepared
    /// next bag untouched.
    pub open spec fn wf(self) -> bool {
        &&& dead_cols_empty(self.grid())
        &&& piece_in_bounds(self.piece)
        &&& self.bag.wf()
        &&& self.next_bag.wf()
        &&& self.next_bag.index == 0
    }
}

/// The four occupied cells of `pc` are inside the playable area, whatever
/// the grid contents. This is exactly the grid-independent part of
/// `spec_fits`, and it survives locking other cells.
pub open spec fn piece_in_bounds(pc: Piece) -> bool {
    forall|i: int|
        0 <= i < 4 ==> {
            &&& pc.x + (#[trigger] spec_coords(pc.typ, pc.rot)[i]).1 < FIELD_WIDTH
            &&& 2 <= pc.x + spec_coords(pc.typ, pc.rot)[i].1
            &&& pc.y + spec_coords(pc.typ, pc.rot)[i].0 < FIELD_HEIGHT
        }
}

pub proof fn lemma_fits_in_bounds(g: GridView, pc: Piece)
    requires
        spec_fits(g, pc),
    ensures
        piece_in_bounds(pc),
{
    assert forall|i: int| 0 <= i < 4 implies {
        &&& pc.x + (#[trigger] spec_coords(pc.typ, pc.rot)[i]).1 < FIELD_WIDTH
        &&& 2 <= pc.x + spec_coords(pc.typ, pc.rot)[i].1
        &&& pc.y + spec_coords(pc.typ, pc.rot)[i].0 < FIELD_HEIGHT
    } by {
        assert(spec_offset_free(g, pc, spec_coords(pc.typ, pc.rot)[i]));
    }
}

impl State {
    /// True iff all four occupied cells of `pc` are in bounds, outside the
    /// two dead-zone columns, and free of locked cells.
    fn can_place_piece(&self, pc: Piece) -> (r: bool)
        ensures
            r == spec_fits(self.grid(), pc),
    {
        let coords = get_coords(pc.typ, pc.rot);
        proof {
            lemma_coords_distinct_in_frame(pc.typ, pc.rot);
        }
        let mut i: usize = 0;
        while i < 4
            invariant
                i <= 4,
                coords@ == spec_coords(pc.typ, pc.rot),
                forall|k: int|
                    0 <= k < i ==> spec_offset_free(
                        self.grid(),
                        pc,
                        #[trigger] spec_coords(pc.typ, pc.rot)[k],
                    ),
            decreases 4 - i,
        {
            let (r, c) = coords[i];
            proof {
                assert(spec_coords(pc.typ, pc.rot)[i as int].0 < 4);
                assert(spec_coords(pc.typ, pc.rot)[i as int].1 < 4);
            }
            if pc.x >= FIELD_WIDTH || pc.x + c >= FIELD_WIDTH || pc.x + c < 2 || pc.y
                >= FIELD_HEIGHT || pc.y + r >= FIELD_HEIGHT || self.rows[pc.y + r].cells[pc.x
                + c].typ.is_some() {
                proof {
                    assert(!spec_offset_free(self.grid(), pc, spec_coords(pc.typ, pc.rot)[i as int]));
                }
                return false;
            }
            i += 1;
        }
        true
    }
}

pub proof fn lemma_in_bounds_xy(pc: Piece)
    requires
        piece_in_bounds(pc),
    ensures
        pc.x < FIELD_WIDTH,
        pc.y < FIELD_HEIGHT,
{
    lemma_coords_distinct_in_frame(pc.typ, pc.rot);
    assert(pc.x + spec_coords(pc.typ, pc.rot)[0].1 < FIELD_WIDTH);
    assert(pc.y + spec_coords(pc.typ, pc.rot)[0].0 < FIELD_HEIGHT);
}

/// `pc` moved one row down.
pub open spec fn spec_down(pc: Piece) -> Piece {
    Piece { y: (pc.y + 1) as usize, ..pc }
}

/// How many rows `pc` can fall from its current position before placement
/// fails: the length of the chain of placeable one-row steps below it.
pub open spec fn spec_drop_dist(g: GridView, pc: Piece) -> nat
    decreases FIELD_HEIGHT - pc.y,
{
    if pc.y >= FIELD_HEIGHT {
        0
    } else if !spec_fits(g, spec_down(pc)) {
        0
    } else {
        1 + spec_drop_dist(g, spec_down(pc))
    }
}

/// Where the ghost lands for a piece at `pc`: the same column, as far down
/// as the drop chain reaches.
pub open spec fn spec_ghost_for(g: GridView, pc: Piece) -> GhostPos {
    GhostPos { x: pc.x, y: (pc.y + spec_drop_dist(g, pc)) as usize }
}

/// The drop distance is exact: a placeable piece still fits after falling
/// its full drop distance, lands inside the grid, and cannot fall one row
/// further. This is what makes the ghost the piece's hard-drop resting
/// position.
pub proof fn lemma_drop_dist_lands(g: GridView, pc: Piece)
    requires
        spec_fits(g, pc),
    ensures
        pc.y + spec_drop_dist(g, pc) < FIELD_HEIGHT,
        spec_fits(g, Piece { y: (pc.y + spec_drop_dist(g, pc)) as usize, ..pc }),
        !spec_fits(g, Piece { y: (pc.y + spec_drop_dist(g, pc) + 1) as usize, ..pc }),
    decreases FIELD_HEIGHT - pc.y,
{
    lemma_fits_bounds(g, pc);
    if pc.y < FIELD_HEIGHT && spec_fits(g, spec_down(pc)) {
        lemma_drop_dist_lands(g, spec_down(pc));
    }
}

/// The state after accepting candidate `pc`: the active piece is replaced
/// wholesale and the ghost is recomputed from the unchanged grid.
pub open spec fn spec_place(s: State, pc: Piece) -> State {
    State { piece: pc, ghost_pos: spec_ghost_for(s.grid(), pc), ..s }
}

/// The state after attempting candidate `pc`: accepted if it fits, else
/// unchanged.
pub open spec fn spec_try_place(s: State, pc: Piece) -> State {
    if spec_fits(s.grid(), pc) {
        spec_place(s, pc)
    } else {
        s
    }
}

/// The state after recomputing the ghost from the active piece's current
/// pose; if the active piece itself cannot be placed the ghost is left
/// alone.
pub open spec fn spec_with_ghost_updated(s: State) -> State {
    if spec_fits(s.grid(), s.piece) {
        State { ghost_pos: spec_ghost_for(s.grid(), s.piece), ..s }
    } else {
        s
    }
}

impl State {
    /// Starting from the active piece's pose, walks down one row at a time
    /// while placement succeeds; the last valid position becomes the ghost.
    fn update_ghost(&mut self)
        ensures
            *final(self) == spec_with_ghost_updated(*old(self)),
    {
        let ghost g0 = old(self).grid();
        let ghost p0 = old(self).piece;
        let mut piece = self.piece;
        loop
            invariant
                g0 == old(self).grid(),
                p0 == old(self).piece,
                self.rows == old(self).rows,
                self.piece == old(self).piece,
                self.hold == old(self).hold,
                self.can_hold == old(self).can_hold,
                self.bag == old(self).bag,
                self.next_bag == old(self).next_bag,
                piece.typ == p0.typ,
                piece.rot == p0.rot,
                piece.x == p0.x,
                p0.y <= piece.y,
                piece.y > p0.y ==> piece.y <= FIELD_HEIGHT,
                piece.y == p0.y ==> piece == p0 && self.ghost_pos == old(self).ghost_pos,
                piece.y > p0.y ==> {
                    let prev = Piece { y: (piece.y - 1) as usize, ..piece };
                    &&& spec_fits(g0, prev)
                    &&& spec_fits(g0, p0)
                    &&& spec_drop_dist(g0, p0) == piece.y - 1 - p0.y + spec_drop_dist(g0, prev)
                    &&& self.ghost_pos == (GhostPos { x: piece.x, y: (piece.y - 1) as usize })
                },
            ensures
                *self == spec_with_ghost_updated(*old(self)),
            decreases (if piece.y <= FIELD_HEIGHT {
                FIELD_HEIGHT + 1 - piece.y
            } else {
                0int
            }),
        {
            if self.can_place_piece(piece) {
                proof {
                    assert(self.grid() =~= g0);
                    lemma_fits_bounds(g0, piece);
                    if piece.y > p0.y {
                        let prev = Piece { y: (piece.y - 1) as usize, ..piece };
                        assert(spec_down(prev) == piece);
                        assert(spec_drop_dist(g0, prev) == 1 + spec_drop_dist(g0, piece));
                    }
                }
                self.ghost_pos.x = piece.x;
                self.ghost_pos.y = piece.y;
                piece = Piece { y: piece.y + 1, ..piece };
            } else {
                proof {
                    assert(self.grid() =~= g0);
                    if piece.y > p0.y {
                        let prev = Piece { y: (piece.y - 1) as usize, ..piece };
                        assert(spec_fits(g0, prev));
                        lemma_fits_bounds(g0, prev);
                        assert(spec_down(prev) == piece);
                        assert(spec_drop_dist(g0, prev) == 0);
                        assert(spec_drop_dist(g0, p0) == piece.y - 1 - p0.y);
                        assert(self.ghost_pos == spec_ghost_for(g0, p0));
                        assert(*self == spec_with_ghost_updated(*old(self)));
                    } else {
                        assert(!spec_fits(g0, p0));
                        assert(*self == spec_with_ghost_updated(*old(self)));
                    }
                }
                break ;
            }
        }
    }

    /// If `pc` can be placed, it becomes the active piece and the ghost is
    /// recomputed; otherwise nothing changes. The one gate every movement,
    /// rotation and spawn goes through.
    fn try_place_piece(&mut self, pc: Piece) -> (r: bool)
        requires
            old(self).wf(),
        ensures
            final(self).wf(),
            r == spec_fits(old(self).grid(), pc),
            *final(self) == spec_try_place(*old(self), pc),
    {
        if self.can_place_piece(pc) {
            proof {
                lemma_fits_in_bounds(self.grid(), pc);
            }
            self.piece = pc;
            self.update_ghost();
            true
        } else {
            false
        }
    }
}

/// The active piece one column to the left, clamped at zero since the
/// coordinates are unsigned.
pub open spec fn spec_left_cand(pc: Piece) -> Piece {
    Piece { x: if pc.x == 0 { 0usize } else { (pc.x - 1) as usize }, ..pc }
}

pub open spec fn spec_right_cand(pc: Piece) -> Piece {
    Piece { x: (pc.x + 1) as usize, ..pc }
}

pub open spec fn spec_up_cand(pc: Piece) -> Piece {
    Piece { y: if pc.y == 0 { 0usize } else { (pc.y - 1) as usize }, ..pc }
}

/// How many columns the piece can shift left before a shift fails.
pub open spec fn spec_left_dist(g: GridView, pc: Piece) -> nat
    decreases pc.x,
{
    if pc.x == 0 {
        0
    } else if !spec_fits(g, spec_left_cand(pc)) {
        0
    } else {
        1 + spec_left_dist(g, spec_left_cand(pc))
    }
}

/// How many columns the piece can shift right before a shift fails.
pub open spec fn spec_right_dist(g: GridView, pc: Piece) -> nat
    decreases FIELD_WIDTH - pc.x,
{
    if pc.x >= FIELD_WIDTH {
        0
    } else if !spec_fits(g, spec_right_cand(pc)) {
        0
    } else {
        1 + spec_right_dist(g, spec_right_cand(pc))
    }
}

/// The state after snapping to the left wall: the piece lands as many
/// columns left as single shifts succeed.
pub open spec fn spec_after_snap_left(s: State) -> State {
    let d = spec_left_dist(s.grid(), s.piece);
    if d == 0 {
        s
    } else {
        spec_place(s, Piece { x: (s.piece.x - d) as usize, ..s.piece })
    }
}

/// The state after snapping to the right wall.
pub open spec fn spec_after_snap_right(s: State) -> State {
    let d = spec_right_dist(s.grid(), s.piece);
    if d == 0 {
        s
    } else {
        spec_place(s, Piece { x: (s.piece.x + d) as usize, ..s.piece })
    }
}

/// The state after falling as far as single downward shifts succeed,
/// without locking.
pub open spec fn spec_after_fall(s: State) -> State {
    let d = spec_drop_dist(s.grid(), s.piece);
    if d == 0 {
        s
    } else {
        spec_place(s, Piece { y: (s.piece.y + d) as usize, ..s.piece })
    }
}

impl State {
    /// Single upward shift attempt; a debugging aid.
    pub fn _piece_up(&mut self)
        requires
            old(self).wf(),
        ensures
            final(self).wf(),
            *final(self) == spec_try_place(*old(self), spec_up_cand(old(self).piece)),
    {
        let cand = Piece { y: self.piece.y.saturating_sub(1), ..self.piece };
        self.try_place_piece(cand);
    }

    /// Single downward shift attempt.
    pub fn _piece_down(&mut self)
        requires
            old(self).wf(),
        ensures
            final(self).wf(),
            *final(self) == spec_try_place(*old(self), spec_down(old(self).piece)),
    {
        proof {
            lemma_in_bounds_xy(self.piece);
        }
        let cand = Piece { y: self.piece.y + 1, ..self.piece };
        self.try_place_piece(cand);
    }

    /// Single shift attempt one column to the left.
    pub fn piece_left(&mut self)
        requires
            old(self).wf(),
        ensures
            final(self).wf(),
            *final(self) == spec_try_place(*old(self), spec_left_cand(old(self).piece)),
    {
        let cand = Piece { x: self.piece.x.saturating_sub(1), ..self.piece };
        self.try_place_piece(cand);
    }

    /// Single shift attempt one column to the right.
    pub fn piece_right(&mut self)
        requires
            old(self).wf(),
        ensures
            final(self).wf(),
            *final(self) == spec_try_place(*old(self), spec_right_cand(old(self).piece)),
    {
        proof {
            lemma_in_bounds_xy(self.piece);
        }
        let cand = Piece { x: self.piece.x + 1, ..self.piece };
        self.try_place_piece(cand);
    }

    /// Shifts the piece left one column at a time until a shift fails; a
    /// tight loop bounded by the field width.
    pub fn snap_left(&mut self)
        requires
            old(self).wf(),
        ensures
            final(self).wf(),
            *final(self) == spec_after_snap_left(*old(self)),
    {
        let ghost s0 = *old(self);
        loop
            invariant
                s0 == *old(self),
                self.wf(),
                self.piece.typ == s0.piece.typ,
                self.piece.rot == s0.piece.rot,
                self.piece.y == s0.piece.y,
                self.piece.x <= s0.piece.x,
                self.piece.x == s0.piece.x ==> *self == s0,
                self.piece.x < s0.piece.x ==> {
                    &&& *self == spec_place(s0, self.piece)
                    &&& spec_left_dist(s0.grid(), s0.piece) == (s0.piece.x - self.piece.x)
                        + spec_left_dist(s0.grid(), self.piece)
                },
            ensures
                *self == spec_after_snap_left(s0),
            decreases self.piece.x,
        {
            if self.piece.x == 0 {
                proof {
                    assert(spec_left_dist(s0.grid(), self.piece) == 0);
                }
                break ;
            }
            let cand = Piece { x: self.piece.x - 1, ..self.piece };
            let ghost before = *self;
            proof {
                assert(cand == spec_left_cand(before.piece));
            }
            if !self.try_place_piece(cand) {
                proof {
                    assert(spec_left_dist(s0.grid(), before.piece) == 0);
                }
                break ;
            }
            proof {
                assert(spec_left_dist(s0.grid(), before.piece) == 1 + spec_left_dist(
                    s0.grid(),
                    self.piece,
                ));
                assert(spec_place(s0, self.piece) == spec_place(before, self.piece));
            }
        }
    }

    /// Shifts the piece right one column at a time until a shift fails.
    pub fn snap_right(&mut self)
        requires
            old(self).wf(),
        ensures
            final(self).wf(),
            *final(self) == spec_after_snap_right(*old(self)),
    {
        let ghost s0 = *old(self);
        loop
            invariant
                s0 == *old(self),
                self.wf(),
                self.piece.typ == s0.piece.typ,
                self.piece.rot == s0.piece.rot,
                self.piece.y == s0.piece.y,
                s0.piece.x <= self.piece.x,
                self.piece.x + spec_coords(self.piece.typ, self.piece.rot)[0].1 < FIELD_WIDTH,
                self.piece.x == s0.piece.x ==> *self == s0,
                self.piece.x > s0.piece.x ==> {
                    &&& *self == spec_place(s0, self.piece)
                    &&& spec_right_dist(s0.grid(), s0.piece) == (self.piece.x - s0.piece.x)
                        + spec_right_dist(s0.grid(), self.piece)
                },
            ensures
                *self == spec_after_snap_right(s0),
            decreases FIELD_WIDTH - self.piece.x,
        {
            proof {
                lemma_in_bounds_xy(self.piece);
            }
            let cand = Piece { x: self.piece.x + 1, ..self.piece };
            let ghost before = *self;
            proof {
                assert(cand == spec_right_cand(before.piece));
            }
            if !self.try_place_piece(cand) {
                proof {
                    assert(spec_right_dist(s0.grid(), before.piece) == 0);
                }
                break ;
            }
            proof {
                assert(spec_right_dist(s0.grid(), before.piece) == 1 + spec_right_dist(
                    s0.grid(),
                    self.piece,
                ));
                assert(spec_place(s0, self.piece) == spec_place(before, self.piece));
            }
        }
    }
}

/// The first of the ordered kick candidates that yields a legal placement
/// for the active piece of `s` rotated to `new_rot`, if any. A candidate
/// whose translated position would go negative is skipped without a
/// placement attempt.
pub open spec fn spec_kick_outcome(s: State, new_rot: RotationState, kicks: Seq<(i32, i32)>) -> Option<
    Piece,
>
    decreases kicks.len(),
{
    if kicks.len() == 0 {
        Option::None
    } else {
        let nx = s.piece.x + kicks[0].0;
        let ny = s.piece.y + kicks[0].1;
        let cand = Piece { x: nx as usize, y: ny as usize, typ: s.piece.typ, rot: new_rot };
        if nx >= 0 && ny >= 0 && spec_fits(s.grid(), cand) {
            Some(cand)
        } else {
            spec_kick_outcome(s, new_rot, kicks.drop_first())
        }
    }
}

/// What a rotation attempt towards `new_rot` does to `s`: the first
/// successful kick candidate wins and is placed; if none succeeds the
/// rotation is rejected and the state is untouched.
pub open spec fn spec_rotated(s: State, new_rot: RotationState) -> State {
    match spec_kick_outcome(
        s,
        new_rot,
        spec_wallkicks(s.piece.typ, s.piece.rot, new_rot),
    ) {
        Some(pc) => spec_place(s, pc),
        Option::None => s,
    }
}

/// Law: every kick table leads with the in-place offset, so whenever
/// rotating in place succeeds the piece keeps its exact position and only
/// its orientation changes; later kicks are never consulted.
pub proof fn lemma_rotation_prefers_in_place(s: State, new_rot: RotationState)
    requires
        spec_fits(s.grid(), Piece { rot: new_rot, ..s.piece }),
    ensures
        spec_rotated(s, new_rot) == spec_place(s, Piece { rot: new_rot, ..s.piece }),
{
    crate::rotations::lemma_kicks_start_in_place(s.piece.typ, s.piece.rot, new_rot);
    let kicks = spec_wallkicks(s.piece.typ, s.piece.rot, new_rot);
    assert(s.piece.x + kicks[0].0 == s.piece.x);
    assert(s.piece.y + kicks[0].1 == s.piece.y);
    assert(spec_kick_outcome(s, new_rot, kicks) == Some(Piece { rot: new_rot, ..s.piece }));
}

impl State {
    /// Rotates the active piece one step clockwise, trying the ordered kick
    /// candidates; the first legal one wins and a rotation with no legal
    /// candidate is a no-op.
    pub fn rotate_right(&mut self)
        requires
            old(self).wf(),
        ensures
            final(self).wf(),
            *final(self) == spec_rotated(*old(self), spec_rot_right(old(self).piece.rot)),
    {
        let new_rot = self.piece.rot.right();
        self.rotate_to(new_rot);
    }

    /// Rotates the active piece one step counterclockwise, under the same
    /// kick policy as `rotate_right`.
    pub fn rotate_left(&mut self)
        requires
            old(self).wf(),
        ensures
            final(self).wf(),
            *final(self) == spec_rotated(*old(self), spec_rot_left(old(self).piece.rot)),
    {
        let new_rot = self.piece.rot.left();
        self.rotate_to(new_rot);
    }

    /// Shared kick loop of the two rotations: walks the five candidates in
    /// table order and places the first that fits.
    #[verifier::rlimit(100)]
    fn rotate_to(&mut self, new_rot: RotationState)
        requires
            old(self).wf(),
            spec_kicks_defined(old(self).piece.typ, old(self).piece.rot, new_rot),
        ensures
            final(self).wf(),
            *final(self) == spec_rotated(*old(self), new_rot),
    {
        let ghost s0 = *old(self);
        let kicks = get_wallkicks(self.piece.typ, self.piece.rot, new_rot);
        proof {
            lemma_in_bounds_xy(self.piece);
        }
        let mut i: usize = 0;
        loop
            invariant
                s0 == *old(self),
                *self == s0,
                self.wf(),
                i <= 5,
                kicks@ == spec_wallkicks(s0.piece.typ, s0.piece.rot, new_rot),
                spec_kick_outcome(s0, new_rot, kicks@.skip(i as int)) == spec_kick_outcome(
                    s0,
                    new_rot,
                    kicks@,
                ),
            ensures
                *self == spec_rotated(s0, new_rot),
            decreases 5 - i,
        {
            if i >= 5 {
                proof {
                    assert(kicks@.skip(5) =~= Seq::<(i32, i32)>::empty());
                    assert(spec_kick_outcome(s0, new_rot, kicks@) is None);
                }
                break ;
            }
            let (dx, dy) = kicks[i];
            proof {
                lemma_in_bounds_xy(self.piece);
            }
            let newx = self.piece.x as i32 + dx;
            let newy = self.piece.y as i32 + dy;
            let ghost rest = kicks@.skip(i as int);
            proof {
                assert(rest[0] == kicks@[i as int]);
                assert(rest.drop_first() =~= kicks@.skip(i as int + 1));
            }
            if newx >= 0 && newy >= 0 {
                let cand = Piece {
                    x: newx as usize,
                    y: newy as usize,
                    typ: self.piece.typ,
                    rot: new_rot,
                };
                if self.try_place_piece(cand) {
                    proof {
                        assert(spec_kick_outcome(s0, new_rot, rest) == Some(cand));
                        assert(*self == spec_place(s0, cand));
                    }
                    return ;
                }
            }
            proof {
                assert(spec_kick_outcome(s0, new_rot, rest) == spec_kick_outcome(
                    s0,
                    new_rot,
                    rest.drop_first(),
                ));
            }
            i += 1;
        }
    }
}

/// A row is full when every cell from column 2 to the last is occupied; the
/// two dead-zone columns are excluded from the test.
pub open spec fn spec_row_full(row: Seq<Option<PieceType>>) -> bool {
    forall|x: int| 2 <= x < 12 ==> (#[trigger] row[x]) is Some
}

/// The predicate a row must satisfy to survive a clearing pass.
pub open spec fn spec_not_full() -> spec_fn(Seq<Option<PieceType>>) -> bool {
    |row: Seq<Option<PieceType>>| !spec_row_full(row)
}

pub open spec fn spec_nonfull_rows(g: GridView) -> GridView {
    g.filter(spec_not_full())
}

/// The grid after a clearing pass: every full row is removed, the rows
/// above each removed row shift down, and one fresh empty row enters at the
/// top for every row removed.
pub open spec fn spec_cleared(g: GridView) -> GridView {
    Seq::new((g.len() - spec_nonfull_rows(g).len()) as nat, |i: int| spec_empty_row())
        + spec_nonfull_rows(g)
}

/// What one `remove_line(i)` does to the grid: rows above `i` shift down by
/// one and a fresh empty row appears at index 0.
pub open spec fn spec_removed_line(g: GridView, i: int) -> GridView {
    seq![spec_empty_row()] + g.take(i) + g.skip(i + 1)
}

/// Filtering keeps a sequence whose elements all satisfy the predicate.
proof fn lemma_filter_all_pass<A>(s: Seq<A>, pred: spec_fn(A) -> bool)
    requires
        forall|k: int| 0 <= k < s.len() ==> pred(#[trigger] s[k]),
    ensures
        s.filter(pred) == s,
    decreases s.len(),
{
    reveal(Seq::filter);
    if s.len() == 0 {
        assert(s.filter(pred) =~= s);
    } else {
        lemma_filter_all_pass(s.drop_last(), pred);
        assert(s.filter(pred) =~= s);
    }
}

/// Filtering a singleton keeps or drops its one element.
proof fn lemma_filter_single<A>(x: A, pred: spec_fn(A) -> bool)
    ensures
        pred(x) ==> seq![x].filter(pred) == seq![x],
        !pred(x) ==> seq![x].filter(pred) == Seq::<A>::empty(),
{
    reveal(Seq::filter);
    assert(seq![x].drop_last() =~= Seq::<A>::empty());
    assert(Seq::<A>::empty().filter(pred) =~= Seq::<A>::empty());
    if pred(x) {
        assert(seq![x].filter(pred) =~= seq![x]);
    } else {
        assert(seq![x].filter(pred) =~= Seq::<A>::empty());
    }
}

/// The left edge of the unprocessed part of the grid while full rows are
/// being removed bottom of list first: everything below the `j`th collected
/// full row has already been handled.
pub open spec fn spec_scan_bound(fulls: Seq<usize>, j: int) -> int {
    if j == 0 {
        0
    } else {
        fulls[j - 1] + 1
    }
}

impl State {
    /// True iff every playable cell of `row` is occupied.
    fn row_is_full(row: &Row) -> (r: bool)
        ensures
            r == spec_row_full(row_view(*row)),
    {
        let mut x: usize = 2;
        while x < 12
            invariant
                2 <= x <= 12,
                forall|k: int| 2 <= k < x ==> (#[trigger] row_view(*row)[k]) is Some,
            decreases 12 - x,
        {
            if row.cells[x].typ.is_none() {
                proof {
                    assert(row_view(*row)[x as int] is None);
                }
                return false;
            }
            x += 1;
        }
        true
    }

    /// Removes row `i`: every row above it shifts down one step and a fresh
    /// empty row takes index 0.
    fn remove_line(&mut self, i: usize)
        requires
            i < 22,
        ensures
            final(self).grid() == spec_removed_line(old(self).grid(), i as int),
            final(self).piece == old(self).piece,
            final(self).ghost_pos == old(self).ghost_pos,
            final(self).hold == old(self).hold,
            final(self).can_hold == old(self).can_hold,
            final(self).bag == old(self).bag,
            final(self).next_bag == old(self).next_bag,
    {
        let ghost g0 = old(self).grid();
        let mut j: usize = i;
        loop
            invariant
                g0 == old(self).grid(),
                j <= i < 22,
                self.piece == old(self).piece,
                self.ghost_pos == old(self).ghost_pos,
                self.hold == old(self).hold,
                self.can_hold == old(self).can_hold,
                self.bag == old(self).bag,
                self.next_bag == old(self).next_bag,
                forall|m: int| 0 <= m <= j ==> self.grid()[m] == g0[m],
                forall|m: int| j < m <= i ==> self.grid()[m] == g0[m - 1],
                forall|m: int| i < m < 22 ==> self.grid()[m] == g0[m],
            ensures
                j == 0,
            decreases j,
        {
            if j < 1 {
                break ;
            }
            let ghost rows_b = self.rows@;
            let ghost gb = self.grid();
            let r = self.rows[j - 1];
            self.rows[j] = r;
            proof {
                assert(self.rows@ == rows_b.update(j as int, r));
                assert forall|m: int| 0 <= m < 22 && m != j implies #[trigger] self.grid()[m]
                    == gb[m] by {
                    assert(self.rows@[m] == rows_b[m]);
                }
                assert(self.grid()[j as int] == row_view(r));
                assert(row_view(r) == gb[j - 1]);
            }
            j -= 1;
        }
        let ghost rows_b = self.rows@;
        let ghost gb = self.grid();
        self.rows[0] = Row { cells: [Cell { typ: Option::None }; 12] };
        proof {
            assert(self.rows@ == rows_b.update(0, self.rows@[0]));
            assert forall|m: int| 0 < m < 22 implies #[trigger] self.grid()[m] == gb[m] by {
                assert(self.rows@[m] == rows_b[m]);
            }
            assert(row_view(self.rows@[0]) =~= spec_empty_row());
            assert(self.grid()[0] == spec_empty_row());
            assert(self.grid() =~~= spec_removed_line(g0, i as int));
        }
    }

    /// Finds every full row, then removes them from the lowest index to the
    /// highest; removing bottom-of-list last keeps the collected indices
    /// valid, since a removal only moves the rows above it.
    fn check_clears(&mut self)
        requires
            old(self).wf(),
        ensures
            final(self).wf(),
            final(self).grid() == spec_cleared(old(self).grid()),
            final(self).piece == old(self).piece,
            final(self).ghost_pos == old(self).ghost_pos,
            final(self).hold == old(self).hold,
            final(self).can_hold == old(self).can_hold,
            final(self).bag == old(self).bag,
            final(self).next_bag == old(self).next_bag,
    {
        broadcast use vstd::seq_lib::group_filter_ensures;

        let ghost g0 = old(self).grid();
        let mut lines: Vec<usize> = Vec::new();
        let mut y: usize = 0;
        while y < FIELD_HEIGHT
            invariant
                g0 == old(self).grid(),
                *self == *old(self),
                y <= 22,
                forall|k: int| 0 <= k < lines@.len() ==> 0 <= #[trigger] lines@[k] < y,
                forall|k: int|
                    0 <= k < lines@.len() ==> spec_row_full(g0[#[trigger] lines@[k] as int]),
                forall|k1: int, k2: int|
                    0 <= k1 < k2 < lines@.len() ==> lines@[k1] < lines@[k2],
                forall|m: int|
                    0 <= m < y && spec_row_full(#[trigger] g0[m]) ==> exists|k: int|
                        0 <= k < lines@.len() && (#[trigger] lines@[k]) == m,
            decreases 22 - y,
        {
            if Self::row_is_full(&self.rows[y]) {
                proof {
                    assert(row_view(self.rows@[y as int]) == g0[y as int]);
                }
                let ghost lines_b = lines@;
                lines.push(y);
                proof {
                    assert forall|m: int|
                        0 <= m < y + 1 && spec_row_full(#[trigger] g0[m]) implies exists|k: int|
                        0 <= k < lines@.len() && (#[trigger] lines@[k]) == m by {
                        if m < y {
                            let k0 = choose|k: int|
                                0 <= k < lines_b.len() && (#[trigger] lines_b[k]) == m;
                            assert(lines@[k0] == m);
                        } else {
                            assert(lines@[lines@.len() - 1] == m);
                        }
                    }
                }
            } else {
                proof {
                    assert(row_view(self.rows@[y as int]) == g0[y as int]);
                }
            }
            y += 1;
        }
        let ghost fulls = lines@;
        let mut j: usize = 0;
        while j < lines.len()
            invariant
                g0 == old(self).grid(),
                fulls == lines@,
                j <= fulls.len(),
                forall|k: int| 0 <= k < fulls.len() ==> 0 <= #[trigger] fulls[k] < 22,
                forall|k: int| 0 <= k < fulls.len() ==> spec_row_full(g0[#[trigger] fulls[k] as int]),
                forall|k1: int, k2: int| 0 <= k1 < k2 < fulls.len() ==> fulls[k1] < fulls[k2],
                forall|m: int|
                    0 <= m < 22 && spec_row_full(#[trigger] g0[m]) ==> exists|k: int|
                        0 <= k < fulls.len() && (#[trigger] fulls[k]) == m,
                self.piece == old(self).piece,
                self.ghost_pos == old(self).ghost_pos,
                self.hold == old(self).hold,
                self.can_hold == old(self).can_hold,
                self.bag == old(self).bag,
                self.next_bag == old(self).next_bag,
                self.grid() == Seq::new(j as nat, |t: int| spec_empty_row()) + spec_nonfull_rows(
                    g0.take(spec_scan_bound(fulls, j as int)),
                ) + g0.skip(spec_scan_bound(fulls, j as int)),
            decreases fulls.len() - j,
        {
            let i = lines[j];
            let ghost b = spec_scan_bound(fulls, j as int);
            let ghost cb = self.grid();
            proof {
                assert(b <= i < 22) by {
                    if j > 0 {
                        assert(fulls[j - 1] < fulls[j as int]);
                    }
                }
                assert(g0.len() == 22);
                assert(cb.len() == 22);
                assert(spec_nonfull_rows(g0.take(b)).len() == b - j);
            }
            self.remove_line(i);
            proof {
                let nfb = spec_nonfull_rows(g0.take(b));
                let mid = g0.subrange(b, i as int);
                // no full row sits strictly between the previous full row and this one
                assert forall|m: int| 0 <= m < mid.len() implies spec_not_full()(
                    #[trigger] mid[m],
                ) by {
                    let gm = b + m;
                    assert(mid[m] == g0[gm]);
                    if spec_row_full(g0[gm]) {
                        let k = choose|k: int|
                            0 <= k < fulls.len() && (#[trigger] fulls[k]) == gm;
                        if k < j {
                            if j > 0 && k < j - 1 {
                                assert(fulls[k] < fulls[j - 1]);
                            }
                            assert(fulls[k] < b);
                        } else if k > j {
                            assert(fulls[j as int] < fulls[k]);
                        }
                        assert(false);
                    }
                }
                lemma_filter_all_pass(mid, spec_not_full());
                lemma_filter_single(g0[i as int], spec_not_full());
                assert(g0.take(i + 1) =~= g0.take(b) + mid + seq![g0[i as int]]);
                assert(spec_nonfull_rows(g0.take(i + 1)) == nfb + mid) by {
                    assert((g0.take(b) + mid + seq![g0[i as int]]).filter(spec_not_full())
                        == g0.take(b).filter(spec_not_full()) + mid.filter(spec_not_full())
                        + seq![g0[i as int]].filter(spec_not_full()));
                    assert(nfb + mid + Seq::<Seq<Option<PieceType>>>::empty() =~= nfb + mid);
                }
                // the removal rewrites the tracked shape into the next one
                assert(cb.take(i as int) =~= Seq::new(j as nat, |t: int| spec_empty_row()) + nfb
                    + mid);
                assert(cb.skip(i + 1) =~= g0.skip(i + 1));
                assert(self.grid() =~= Seq::new((j + 1) as nat, |t: int| spec_empty_row())
                    + spec_nonfull_rows(g0.take(i + 1)) + g0.skip(i + 1));
                assert(spec_scan_bound(fulls, j + 1) == i + 1);
            }
            j += 1;
        }
        proof {
            let jn = fulls.len() as int;
            let b = spec_scan_bound(fulls, jn);
            let tail = g0.skip(b);
            assert(g0.len() == 22);
            assert(b <= 22) by {
                if jn > 0 {
                    assert(fulls[jn - 1] < 22);
                }
            }
            assert forall|m: int| 0 <= m < tail.len() implies spec_not_full()(
                #[trigger] tail[m],
            ) by {
                let gm = b + m;
                assert(tail[m] == g0[gm]);
                if spec_row_full(g0[gm]) {
                    let k = choose|k: int| 0 <= k < fulls.len() && (#[trigger] fulls[k]) == gm;
                    if jn > 0 && k < jn - 1 {
                        assert(fulls[k] < fulls[jn - 1]);
                    }
                    assert(false);
                }
            }
            lemma_filter_all_pass(tail, spec_not_full());
            assert(g0.take(b) + tail =~= g0);
            assert(spec_nonfull_rows(g0) == spec_nonfull_rows(g0.take(b)) + tail) by {
                assert((g0.take(b) + tail).filter(spec_not_full()) == g0.take(b).filter(
                    spec_not_full(),
                ) + tail.filter(spec_not_full()));
            }
            assert(self.grid().len() == 22);
            assert(spec_nonfull_rows(g0.take(b)).len() == b - jn);
            assert(spec_nonfull_rows(g0).len() == 22 - jn);
            assert(self.grid() =~= spec_cleared(g0));
            // the cleared grid keeps the dead-zone columns empty
            assert forall|yy: int, xx: int| 0 <= yy < 22 && 0 <= xx < 2 implies self.grid(
            )[yy][xx] is None by {
                if yy >= jn {
                    let row = spec_nonfull_rows(g0)[yy - jn];
                    assert(self.grid()[yy] == row);
                    assert(spec_nonfull_rows(g0).contains(row));
                    g0.lemma_filter_contains_rev(spec_not_full(), row);
                    let n = choose|n: int| 0 <= n < g0.len() && g0[n] == row;
                    assert(g0[n][xx] is None);
                }
            }
        }
    }
}

/// The per-cell predicate behind the occupancy count.
pub open spec fn spec_filled() -> spec_fn(Option<PieceType>) -> bool {
    |c: Option<PieceType>| c is Some
}

/// How many cells of a row are occupied.
pub open spec fn spec_row_occ(row: Seq<Option<PieceType>>) -> int {
    row.filter(spec_filled()).len() as int
}

/// How many cells of the whole grid are occupied.
pub open spec fn spec_grid_occ(g: GridView) -> int
    decreases g.len(),
{
    if g.len() == 0 {
        0
    } else {
        spec_grid_occ(g.drop_last()) + spec_row_occ(g.last())
    }
}

proof fn lemma_grid_occ_add(a: GridView, b: GridView)
    ensures
        spec_grid_occ(a + b) == spec_grid_occ(a) + spec_grid_occ(b),
    decreases b.len(),
{
    if b.len() == 0 {
        assert(a + b =~= a);
    } else {
        lemma_grid_occ_add(a, b.drop_last());
        assert((a + b).drop_last() =~= a + b.drop_last());
        assert((a + b).last() == b.last());
    }
}

proof fn lemma_empty_row_occ()
    ensures
        spec_row_occ(spec_empty_row()) == 0,
{
    spec_empty_row().lemma_all_neg_filter_empty(spec_filled());
}

proof fn lemma_empties_occ(k: nat)
    ensures
        spec_grid_occ(Seq::new(k, |i: int| spec_empty_row())) == 0,
    decreases k,
{
    let s = Seq::new(k, |i: int| spec_empty_row());
    if k == 0 {
    } else {
        assert(s.drop_last() =~= Seq::new((k - 1) as nat, |i: int| spec_empty_row()));
        lemma_empties_occ((k - 1) as nat);
        lemma_empty_row_occ();
    }
}

/// A full row carries exactly ten occupied cells: the whole playable width,
/// with the two dead-zone columns empty.
proof fn lemma_full_row_occ(row: Seq<Option<PieceType>>)
    requires
        row.len() == 12,
        row[0] is None,
        row[1] is None,
        spec_row_full(row),
    ensures
        spec_row_occ(row) == 10,
{
    let dead = row.take(2);
    let live = row.skip(2);
    assert(row =~= dead + live);
    Seq::filter_distributes_over_add(dead, live, spec_filled());
    dead.lemma_all_neg_filter_empty(spec_filled());
    lemma_filter_all_pass(live, spec_filled());
    assert(row.filter(spec_filled()).len() == dead.filter(spec_filled()).len() + live.filter(
        spec_filled(),
    ).len());
}

/// Dropping the full rows of `g` removes exactly ten occupied cells per
/// dropped row.
proof fn lemma_nonfull_occ(g: GridView)
    requires
        forall|y: int|
            0 <= y < g.len() ==> (#[trigger] g[y]).len() == 12 && g[y][0] is None
                && g[y][1] is None,
    ensures
        spec_nonfull_rows(g).len() <= g.len(),
        spec_grid_occ(spec_nonfull_rows(g)) == spec_grid_occ(g) - 10 * (g.len()
            - spec_nonfull_rows(g).len()),
    decreases g.len(),
{
    reveal(Seq::filter);
    g.lemma_filter_len(spec_not_full());
    if g.len() == 0 {
    } else {
        let d = g.drop_last();
        lemma_nonfull_occ(d);
        if spec_not_full()(g.last()) {
            assert(spec_nonfull_rows(g) == spec_nonfull_rows(d).push(g.last()));
            assert(spec_nonfull_rows(g).drop_last() =~= spec_nonfull_rows(d));
            assert(spec_grid_occ(spec_nonfull_rows(g)) == spec_grid_occ(spec_nonfull_rows(d))
                + spec_row_occ(g.last()));
        } else {
            assert(spec_nonfull_rows(g) == spec_nonfull_rows(d));
            lemma_full_row_occ(g.last());
        }
    }
}

/// Falling to rest keeps the state well formed and the grid untouched, so
/// the locking laws below apply to the state a hard drop locks from.
pub proof fn lemma_after_fall_wf(s: State)
    requires
        s.wf(),
    ensures
        spec_after_fall(s).wf(),
        spec_after_fall(s).grid() == s.grid(),
        spec_after_fall(s).piece.typ == s.piece.typ,
{
    let d = spec_drop_dist(s.grid(), s.piece);
    if d > 0 {
        let down = spec_down(s.piece);
        assert(spec_fits(s.grid(), down));
        lemma_drop_dist_lands(s.grid(), down);
        let landed = Piece { y: (s.piece.y + d) as usize, ..s.piece };
        assert(landed == Piece { y: (down.y + spec_drop_dist(s.grid(), down)) as usize, ..down });
        lemma_fits_in_bounds(s.grid(), landed);
        assert(spec_after_fall(s).grid() =~= s.grid());
    }
}

/// The grid a lock produces satisfies everything `lemma_clear_occupancy`
/// asks of its input: full height, full-width rows, and an untouched dead
/// zone, since the active piece can only cover playable cells.
pub proof fn lemma_locked_grid_shape(s: State)
    requires
        s.wf(),
    ensures
        spec_locked_grid(s.grid(), s.piece).len() == 22,
        forall|y: int|
            0 <= y < 22 ==> {
                let g = #[trigger] spec_locked_grid(s.grid(), s.piece)[y];
                g.len() == 12 && g[0] is None && g[1] is None
            },
{
    let gl = spec_locked_grid(s.grid(), s.piece);
    assert forall|y: int|
        0 <= y < 22 implies {
        let g = #[trigger] gl[y];
        g.len() == 12 && g[0] is None && g[1] is None
    } by {
        assert forall|x: int| 0 <= x < 2 implies gl[y][x] is None by {
            if piece_covers(s.piece, y, x) {
                let w = choose|w: int|
                    0 <= w < 4 && y == s.piece.y + (#[trigger] spec_coords(
                        s.piece.typ,
                        s.piece.rot,
                    )[w]).0 && x == s.piece.x + spec_coords(s.piece.typ, s.piece.rot)[w].1;
                assert(false);
            }
            assert(s.grid()[y][x] is None);
        }
    }
}

/// Law: after a clearing pass every completed row is gone, the surviving
/// rows keep their order below the fresh empty rows, the grid keeps its
/// height, and the occupied-cell count drops by exactly ten (the playable
/// width) for every row cleared.
pub proof fn lemma_clear_occupancy(g: GridView)
    requires
        g.len() == 22,
        forall|y: int|
            0 <= y < 22 ==> (#[trigger] g[y]).len() == 12 && g[y][0] is None && g[y][1] is None,
    ensures
        spec_cleared(g).len() == 22,
        forall|y: int| 0 <= y < 22 ==> !spec_row_full(#[trigger] spec_cleared(g)[y]),
        spec_grid_occ(spec_cleared(g)) == spec_grid_occ(g) - 10 * (22 - spec_nonfull_rows(
            g,
        ).len()),
{
    broadcast use vstd::seq_lib::group_filter_ensures;

    let nf = spec_nonfull_rows(g);
    let k = (g.len() - nf.len()) as nat;
    let empties = Seq::new(k, |i: int| spec_empty_row());
    lemma_nonfull_occ(g);
    lemma_grid_occ_add(empties, nf);
    lemma_empties_occ(k);
    assert forall|y: int| 0 <= y < 22 implies !spec_row_full(#[trigger] spec_cleared(g)[y]) by {
        if y < k {
            assert(spec_cleared(g)[y] == spec_empty_row());
            assert(spec_empty_row()[2] is None);
        } else {
            assert(spec_cleared(g)[y] == nf[y - k]);
            assert(spec_not_full()(nf[y - k]));
        }
    }
}

/// The fixed pose every piece spawns in: top-left corner at column 5,
/// row 0, spawn orientation.
pub open spec fn spec_spawn_pose(t: PieceType) -> Piece {
    Piece { x: 5, y: 0, typ: t, rot: RotationState::Spawn }
}

/// The piece the next draw yields: the current bag's cursor entry, or the
/// head of the prepared next bag once the current one is exhausted.
pub open spec fn spec_drawn(bag0: Bag, next0: Bag) -> PieceType {
    if bag0.index < 7 {
        bag0.pieces@[bag0.index as int]
    } else {
        next0.pieces@[0]
    }
}

/// How the pair of bags moves on one draw: the cursor advances, or the
/// exhausted bag is replaced by the prepared one and a fresh bag (about
/// which only well-formedness is known) takes its place.
pub open spec fn spec_bag_advanced(bag0: Bag, next0: Bag, bag1: Bag, next1: Bag) -> bool {
    if bag0.index < 7 {
        &&& bag1 == (Bag { index: (bag0.index + 1) as usize, ..bag0 })
        &&& next1 == next0
    } else {
        &&& bag1 == (Bag { index: 1, ..next0 })
        &&& next1.wf()
        &&& next1.index == 0
    }
}

/// What a spawn attempt of type `t` on grid `g` does to the piece, the
/// ghost and the hold-availability flag: on success the piece takes the
/// spawn pose and holding is re-enabled; on a blocked spawn (top-out) all
/// three are left alone.
pub open spec fn spec_spawn_attempt(pre: State, post: State, g: GridView, t: PieceType) -> bool {
    let cand = spec_spawn_pose(t);
    if spec_fits(g, cand) {
        &&& post.piece == cand
        &&& post.ghost_pos == spec_ghost_for(g, cand)
        &&& post.can_hold == true
    } else {
        &&& post.piece == pre.piece
        &&& post.ghost_pos == pre.ghost_pos
        &&& post.can_hold == pre.can_hold
    }
}

impl State {
    /// Draws the next piece from the bag, rolling over to the prepared bag
    /// when the current one is exhausted, and places it at the spawn pose.
    /// Returns false when the spawn position is blocked: the observable
    /// top-out signal, with the grid and the old piece left untouched.
    pub fn next_piece(&mut self) -> (r: bool)
        requires
            old(self).wf(),
        ensures
            final(self).wf(),
            final(self).rows == old(self).rows,
            final(self).grid() == old(self).grid(),
            final(self).hold == old(self).hold,
            spec_bag_advanced(
                old(self).bag,
                old(self).next_bag,
                final(self).bag,
                final(self).next_bag,
            ),
            spec_spawn_attempt(
                *old(self),
                *final(self),
                old(self).grid(),
                spec_drawn(old(self).bag, old(self).next_bag),
            ),
            r == spec_fits(
                old(self).grid(),
                spec_spawn_pose(spec_drawn(old(self).bag, old(self).next_bag)),
            ),
    {
        let typ: PieceType;
        match self.bag.pop() {
            Some(p) => {
                typ = p;
            },
            Option::None => {
                self.bag = self.next_bag;
                self.next_bag = generate_bag();
                match self.bag.pop() {
                    Some(p) => {
                        typ = p;
                    },
                    Option::None => {
                        proof {
                            assert(false);
                        }
                        typ = PieceType::I;
                    },
                }
            },
        }
        let placed = self.try_place_piece(
            Piece { x: 5, y: 0, typ, rot: RotationState::Spawn },
        );
        if placed {
            self.can_hold = true;
        }
        placed
    }

    /// Places a piece of the given type at the spawn pose, bypassing the
    /// bags; a debugging and testing aid, and the path a hold swap spawns
    /// through. Returns false on a blocked spawn.
    pub fn spawn_piece(&mut self, typ: PieceType) -> (r: bool)
        requires
            old(self).wf(),
        ensures
            final(self).wf(),
            final(self).rows == old(self).rows,
            final(self).grid() == old(self).grid(),
            final(self).hold == old(self).hold,
            final(self).bag == old(self).bag,
            final(self).next_bag == old(self).next_bag,
            spec_spawn_attempt(*old(self), *final(self), old(self).grid(), typ),
            r == spec_fits(old(self).grid(), spec_spawn_pose(typ)),
    {
        let placed = self.try_place_piece(
            Piece { x: 5, y: 0, typ, rot: RotationState::Spawn },
        );
        if placed {
            self.can_hold = true;
        }
        placed
    }
}

/// Cell `(y, x)` is one of the first `n` occupied offsets of `pc`.
pub open spec fn piece_covers_upto(pc: Piece, y: int, x: int, n: int) -> bool {
    exists|i: int|
        0 <= i < n && y == pc.y + (#[trigger] spec_coords(pc.typ, pc.rot)[i]).0 && x == pc.x
            + spec_coords(pc.typ, pc.rot)[i].1
}

/// Cell `(y, x)` is occupied by `pc`.
pub open spec fn piece_covers(pc: Piece, y: int, x: int) -> bool {
    piece_covers_upto(pc, y, x, 4)
}

pub open spec fn spec_locked_upto(g: GridView, pc: Piece, n: int) -> GridView {
    Seq::new(
        g.len(),
        |y: int|
            Seq::new(
                g[y].len(),
                |x: int|
                    if piece_covers_upto(pc, y, x, n) {
                        Some(pc.typ)
                    } else {
                        g[y][x]
                    },
            ),
    )
}

/// The grid after the four occupied cells of `pc` are committed as locked
/// cells carrying its type.
pub open spec fn spec_locked_grid(g: GridView, pc: Piece) -> GridView {
    spec_locked_upto(g, pc, 4)
}

impl State {
    /// Commits the active piece's cells into the grid, clears any completed
    /// rows, and advances play by drawing the next piece.
    fn lock_piece(&mut self)
        requires
            old(self).wf(),
        ensures
            final(self).wf(),
            final(self).grid() == spec_cleared(
                spec_locked_grid(old(self).grid(), old(self).piece),
            ),
            final(self).hold == old(self).hold,
            spec_bag_advanced(
                old(self).bag,
                old(self).next_bag,
                final(self).bag,
                final(self).next_bag,
            ),
            spec_spawn_attempt(
                *old(self),
                *final(self),
                final(self).grid(),
                spec_drawn(old(self).bag, old(self).next_bag),
            ),
    {
        let ghost g0 = old(self).grid();
        let ghost pc = old(self).piece;
        let typ = self.piece.typ;
        let coords = get_coords(self.piece.typ, self.piece.rot);
        proof {
            lemma_coords_distinct_in_frame(pc.typ, pc.rot);
            assert(spec_locked_upto(g0, pc, 0) =~~= g0);
        }
        let mut i: usize = 0;
        while i < 4
            invariant
                g0 == old(self).grid(),
                pc == old(self).piece,
                typ == pc.typ,
                i <= 4,
                coords@ == spec_coords(pc.typ, pc.rot),
                self.piece == old(self).piece,
                self.ghost_pos == old(self).ghost_pos,
                self.hold == old(self).hold,
                self.can_hold == old(self).can_hold,
                self.bag == old(self).bag,
                self.next_bag == old(self).next_bag,
                piece_in_bounds(pc),
                self.grid() == spec_locked_upto(g0, pc, i as int),
            decreases 4 - i,
        {
            let (r, c) = coords[i];
            proof {
                assert(pc.y + (spec_coords(pc.typ, pc.rot)[i as int]).0 < FIELD_HEIGHT);
                assert(pc.x + (spec_coords(pc.typ, pc.rot)[i as int]).1 < FIELD_WIDTH);
            }
            let yy = self.piece.y + r;
            let xx = self.piece.x + c;
            let ghost gb = self.grid();
            let mut row = self.rows[yy];
            row.cells[xx] = Cell { typ: Some(typ) };
            self.rows[yy] = row;
            proof {
                assert forall|y: int, x: int|
                    0 <= y < 22 && 0 <= x < 12 implies #[trigger] self.grid()[y][x] == (
                if y == yy && x == xx {
                    Some(pc.typ)
                } else {
                    gb[y][x]
                }) by {
                    if y != yy {
                        assert(self.grid()[y] == row_view(self.rows@[y]));
                    }
                }
                assert forall|y: int, x: int|
                    0 <= y < 22 && 0 <= x < 12 implies #[trigger] self.grid()[y][x]
                    == spec_locked_upto(g0, pc, i + 1)[y][x] by {
                    if y == yy && x == xx {
                        assert(piece_covers_upto(pc, y, x, i + 1));
                    } else {
                        if piece_covers_upto(pc, y, x, i + 1) {
                            let w = choose|w: int|
                                0 <= w < i + 1 && y == pc.y + (#[trigger] spec_coords(
                                    pc.typ,
                                    pc.rot,
                                )[w]).0 && x == pc.x + spec_coords(pc.typ, pc.rot)[w].1;
                            assert(w < i);
                            assert(piece_covers_upto(pc, y, x, i as int));
                        }
                        if piece_covers_upto(pc, y, x, i as int) {
                            assert(piece_covers_upto(pc, y, x, i + 1));
                        }
                    }
                }
                assert(self.grid() =~~= spec_locked_upto(g0, pc, i + 1));
            }
            i += 1;
        }
        proof {
            // the lock writes only playable cells, so the dead zone stays empty
            assert forall|y: int, x: int| 0 <= y < 22 && 0 <= x < 2 implies #[trigger] self.grid(
            )[y][x] is None by {
                if piece_covers_upto(pc, y, x, 4) {
                    let w = choose|w: int|
                        0 <= w < 4 && y == pc.y + (#[trigger] spec_coords(pc.typ, pc.rot)[w]).0
                            && x == pc.x + spec_coords(pc.typ, pc.rot)[w].1;
                    assert(false);
                }
                assert(g0[y][x] is None);
            }
        }
        self.check_clears();
        let _advanced = self.next_piece();
    }

    /// Moves the active piece down one row at a time until it is blocked;
    /// on a hard drop (`hardly`) the piece then locks, rows clear, and the
    /// next piece is drawn.
    pub fn drop(&mut self, hardly: bool)
        requires
            old(self).wf(),
        ensures
            final(self).wf(),
            !hardly ==> *final(self) == spec_after_fall(*old(self)),
            hardly ==> {
                let fallen = spec_after_fall(*old(self));
                let cleared = spec_cleared(spec_locked_grid(fallen.grid(), fallen.piece));
                &&& final(self).grid() == cleared
                &&& final(self).hold == fallen.hold
                &&& spec_bag_advanced(
                    fallen.bag,
                    fallen.next_bag,
                    final(self).bag,
                    final(self).next_bag,
                )
                &&& spec_spawn_attempt(
                    fallen,
                    *final(self),
                    cleared,
                    spec_drawn(fallen.bag, fallen.next_bag),
                )
            },
    {
        let ghost s0 = *old(self);
        loop
            invariant
                s0 == *old(self),
                self.wf(),
                self.piece.typ == s0.piece.typ,
                self.piece.rot == s0.piece.rot,
                self.piece.x == s0.piece.x,
                s0.piece.y <= self.piece.y,
                self.piece.y == s0.piece.y ==> *self == s0,
                self.piece.y > s0.piece.y ==> {
                    &&& *self == spec_place(s0, self.piece)
                    &&& spec_drop_dist(s0.grid(), s0.piece) == (self.piece.y - s0.piece.y)
                        + spec_drop_dist(s0.grid(), self.piece)
                },
            ensures
                *self == spec_after_fall(s0),
            decreases FIELD_HEIGHT - self.piece.y,
        {
            proof {
                lemma_in_bounds_xy(self.piece);
            }
            let cand = Piece { y: self.piece.y + 1, ..self.piece };
            let ghost before = *self;
            proof {
                assert(cand == spec_down(before.piece));
            }
            if !self.try_place_piece(cand) {
                proof {
                    assert(before.piece.y < FIELD_HEIGHT);
                    assert(spec_drop_dist(s0.grid(), before.piece) == 0);
                }
                break ;
            }
            proof {
                assert(spec_drop_dist(s0.grid(), before.piece) == 1 + spec_drop_dist(
                    s0.grid(),
                    self.piece,
                ));
                assert(spec_place(s0, self.piece) == spec_place(before, self.piece));
            }
        }
        if hardly {
            self.lock_piece();
        }
    }
}

/// What one `hold` call does. With holding unavailable it is a strict
/// no-op. Otherwise the active piece's type goes into the hold slot, the
/// previously held type (or, with an empty slot, the next bag draw) spawns,
/// and holding becomes unavailable until the next successful spawn.
pub open spec fn spec_holds_to(pre: State, post: State) -> bool {
    if !pre.can_hold {
        post == pre
    } else {
        &&& post.rows == pre.rows
        &&& post.hold == Some(pre.piece.typ)
        &&& post.can_hold == false
        &&& match pre.hold {
            Some(held) => {
                &&& post.bag == pre.bag
                &&& post.next_bag == pre.next_bag
                &&& spec_hold_spawn(pre, post, held)
            },
            Option::None => {
                &&& spec_bag_advanced(pre.bag, pre.next_bag, post.bag, post.next_bag)
                &&& spec_hold_spawn(pre, post, spec_drawn(pre.bag, pre.next_bag))
            },
        }
    }
}

/// The piece/ghost part of a spawn during a hold: as `spec_spawn_attempt`,
/// but the flag outcome is pinned by `spec_holds_to` itself.
pub open spec fn spec_hold_spawn(pre: State, post: State, t: PieceType) -> bool {
    let cand = spec_spawn_pose(t);
    if spec_fits(pre.grid(), cand) {
        post.piece == cand && post.ghost_pos == spec_ghost_for(pre.grid(), cand)
    } else {
        post.piece == pre.piece && post.ghost_pos == pre.ghost_pos
    }
}

/// Law: holding is consumed by use and only a spawn restores it, so two
/// `hold` calls with no successful spawn in between are equivalent to one:
/// the second call changes nothing.
pub proof fn lemma_hold_twice_is_once(s1: State, s2: State, s3: State)
    requires
        spec_holds_to(s1, s2),
        spec_holds_to(s2, s3),
    ensures
        s3 == s2,
{
    assert(!s2.can_hold);
}

impl State {
    /// Whether a hold action is currently allowed: true from the latest
    /// successful spawn until the next hold.
    pub fn can_hold(&self) -> (r: bool)
        ensures
            r == self.can_hold,
    {
        self.can_hold
    }

    /// The piece type currently parked in the hold slot, if any.
    pub fn get_hold_piece(&self) -> (r: Option<PieceType>)
        ensures
            r == self.hold,
    {
        self.hold
    }

    /// Swaps the active piece with the hold slot, or parks it and draws
    /// from the bag when the slot is empty; gated so that at most one hold
    /// can happen per piece in play.
    pub fn hold(&mut self)
        requires
            old(self).wf(),
        ensures
            final(self).wf(),
            spec_holds_to(*old(self), *final(self)),
    {
        if !self.can_hold {
            return ;
        }
        match self.hold {
            Some(held) => {
                self.hold = Some(self.piece.typ);
                let _spawned = self.spawn_piece(held);
                self.can_hold = false;
            },
            Option::None => {
                self.hold = Some(self.piece.typ);
                let _spawned = self.next_piece();
                self.can_hold = false;
            },
        }
    }
}

pub open spec fn spec_empty_grid() -> GridView {
    Seq::new(22, |y: int| spec_empty_row())
}

/// Every piece type fits at the spawn pose on an empty grid.
pub proof fn lemma_spawn_fits_empty(t: PieceType)
    ensures
        spec_fits(spec_empty_grid(), spec_spawn_pose(t)),
{
    let pc = spec_spawn_pose(t);
    lemma_coords_distinct_in_frame(pc.typ, pc.rot);
    assert forall|i: int|
        0 <= i < 4 implies spec_offset_free(
        spec_empty_grid(),
        pc,
        #[trigger] spec_coords(pc.typ, pc.rot)[i],
    ) by {
        assert(spec_coords(pc.typ, pc.rot)[i].0 < 4);
        assert(spec_coords(pc.typ, pc.rot)[i].1 < 4);
    }
}

impl State {
    /// A fresh game: an empty grid, an empty hold slot, two freshly
    /// shuffled bags, and the first piece already drawn and placed at the
    /// spawn pose.
    pub fn new() -> (s: State)
        ensures
            s.wf(),
            s.grid() == spec_empty_grid(),
            s.hold is None,
            s.can_hold == true,
            s.bag.index == 1,
            s.next_bag.index == 0,
            s.piece == spec_spawn_pose(s.bag.pieces@[0]),
            s.ghost_pos == spec_ghost_for(s.grid(), s.piece),
    {
        let mut slf = State {
            piece: Piece { x: 5, y: 0, typ: PieceType::I, rot: RotationState::Spawn },
            can_hold: true,
            hold: Option::None,
            ghost_pos: GhostPos { x: 0, y: 0 },
            rows: [Row { cells: [Cell { typ: Option::None }; 12] }; 22],
            bag: generate_bag(),
            next_bag: generate_bag(),
        };
        proof {
            assert(slf.grid() =~~= spec_empty_grid());
            lemma_coords_distinct_in_frame(slf.piece.typ, slf.piece.rot);
            lemma_spawn_fits_empty(slf.piece.typ);
            lemma_fits_in_bounds(slf.grid(), slf.piece);
            lemma_spawn_fits_empty(spec_drawn(slf.bag, slf.next_bag));
        }
        let _placed = slf.next_piece();
        slf
    }

    /// The piece the next draw will yield, without consuming it. Applies
    /// the same bag-rollover rule as `next_piece`, so the preview is always
    /// accurate; rolling over is the one way this peek mutates the state.
    pub fn get_next_piece(&mut self) -> (t: PieceType)
        requires
            old(self).wf(),
        ensures
            final(self).wf(),
            t == spec_drawn(old(self).bag, old(self).next_bag),
            old(self).bag.index < 7 ==> *final(self) == *old(self),
            old(self).bag.index >= 7 ==> {
                &&& final(self).bag == old(self).next_bag
                &&& final(self).next_bag.wf()
                &&& final(self).next_bag.index == 0
                &&& *final(self) == (State {
                    bag: final(self).bag,
                    next_bag: final(self).next_bag,
                    ..*old(self)
                })
            },
    {
        match self.bag.peek() {
            Some(p) => p,
            Option::None => {
                self.bag = self.next_bag;
                self.next_bag = generate_bag();
                match self.bag.peek() {
                    Some(p) => p,
                    Option::None => {
                        proof {
                            assert(false);
                        }
                        PieceType::I
                    },
                }
            },
        }
    }
}

/// Where `get_cell_color` looks, in priority order: a locked cell's piece
/// type first, then the active piece, then the ghost outline, else empty.
pub open spec fn spec_cell_color(s: State, x: int, y: int) -> CellColor {
    match s.grid()[y][x] {
        Some(t) => CellColor::Block(t),
        Option::None => {
            if x >= s.piece.x && y >= s.piece.y && spec_coords(s.piece.typ, s.piece.rot).contains(
                (((y - s.piece.y) as usize, (x - s.piece.x) as usize)),
            ) {
                CellColor::Block(s.piece.typ)
            } else if x >= s.ghost_pos.x && y >= s.ghost_pos.y && spec_coords(
                s.piece.typ,
                s.piece.rot,
            ).contains((((y - s.ghost_pos.y) as usize, (x - s.ghost_pos.x) as usize))) {
                CellColor::GhostOutline
            } else {
                CellColor::Empty
            }
        },
    }
}

impl State {
    /// True iff `(r, c)` is among the four offsets.
    fn coords_contain(coords: &[(usize, usize); 4], r: usize, c: usize) -> (res: bool)
        ensures
            res == coords@.contains((r, c)),
    {
        let mut i: usize = 0;
        while i < 4
            invariant
                i <= 4,
                forall|k: int| 0 <= k < i ==> #[trigger] coords@[k] != (r, c),
            decreases 4 - i,
        {
            if coords[i].0 == r && coords[i].1 == c {
                proof {
                    assert(coords@[i as int] == (r, c));
                }
                return true;
            }
            i += 1;
        }
        proof {
            assert(!coords@.contains((r, c)));
        }
        false
    }

    /// The sole rendering-facing query: what cell `(x, y)` shows, with
    /// locked cells taking priority over the active piece and the active
    /// piece over its ghost. A pure function of the current state.
    pub fn get_cell_color(&self, x: usize, y: usize) -> (color: CellColor)
        requires
            x < FIELD_WIDTH,
            y < FIELD_HEIGHT,
        ensures
            color == spec_cell_color(*self, x as int, y as int),
    {
        proof {
            assert(self.grid()[y as int][x as int] == self.rows@[y as int].cells@[x as int].typ);
        }
        match self.rows[y].cells[x].typ {
            Some(t) => CellColor::Block(t),
            Option::None => {
                let coords = get_coords(self.piece.typ, self.piece.rot);
                if x >= self.piece.x && y >= self.piece.y && Self::coords_contain(
                    &coords,
                    y - self.piece.y,
                    x - self.piece.x,
                ) {
                    CellColor::Block(self.piece.typ)
                } else if x >= self.ghost_pos.x && y >= self.ghost_pos.y && Self::coords_contain(
                    &coords,
                    y - self.ghost_pos.y,
                    x - self.ghost_pos.x,
                ) {
                    CellColor::GhostOutline
                } else {
                    CellColor::Empty
                }
            },
        }
    }
}

} // verus!
