//! The falling pieces: their rotation-state bitmaps and the legality tests
//! that every movement and rotation funnels through.

use vstd::prelude::*;

verus! {

/// One rotation state: a 4x4 grid of cells, 0 = empty, nonzero = the piece's
/// kind id (1 through 7, doubling as the renderer's texture index).
pub type Piece = Vec<Vec<u8>>;

/// The ordered rotation-state cycle of a piece kind.
pub type States = Vec<Piece>;

/// The piece currently under player control, not yet locked into the grid.
pub struct Tetrimino {
    /// The rotation-state table of this piece's kind.
    pub states: States,
    /// Horizontal origin of the 4x4 bitmap (may be negative while a shape's
    /// empty columns hang over the left edge).
    pub x: isize,
    /// Vertical origin (row index, grid top = 0).
    pub y: usize,
    /// Index into `states` of the current rotation state.
    pub current_state: u8,
}

/// The seven piece kinds.
#[derive(Clone, Copy, PartialEq, Eq, Structural, Debug)]
pub enum PieceKind {
    I,
    J,
    L,
    O,
    S,
    Z,
    T,
}

/// Rotation states of the I piece (kind id 1): a horizontal bar and a
/// vertical bar in column 1.
pub open spec fn i_states() -> Seq<Seq<Seq<u8>>> {
    seq![
        seq![seq![1u8, 1, 1, 1], seq![0u8, 0, 0, 0], seq![0u8, 0, 0, 0], seq![0u8, 0, 0, 0]],
        seq![seq![0u8, 1, 0, 0], seq![0u8, 1, 0, 0], seq![0u8, 1, 0, 0], seq![0u8, 1, 0, 0]],
    ]
}

/// Rotation states of the J piece (kind id 2).
pub open spec fn j_states() -> Seq<Seq<Seq<u8>>> {
    seq![
        seq![seq![2u8, 2, 2, 0], seq![2u8, 0, 0, 0], seq![0u8, 0, 0, 0], seq![0u8, 0, 0, 0]],
        seq![seq![2u8, 2, 0, 0], seq![0u8, 2, 0, 0], seq![0u8, 2, 0, 0], seq![0u8, 0, 0, 0]],
        seq![seq![0u8, 0, 2, 0], seq![2u8, 2, 2, 0], seq![0u8, 0, 0, 0], seq![0u8, 0, 0, 0]],
        seq![seq![2u8, 0, 0, 0], seq![2u8, 0, 0, 0], seq![2u8, 2, 0, 0], seq![0u8, 0, 0, 0]],
    ]
}

/// Rotation states of the L piece (kind id 3).
pub open spec fn l_states() -> Seq<Seq<Seq<u8>>> {
    seq![
        seq![seq![3u8, 3, 3, 0], seq![0u8, 0, 3, 0], seq![0u8, 0, 0, 0], seq![0u8, 0, 0, 0]],
        seq![seq![0u8, 3, 0, 0], seq![0u8, 3, 0, 0], seq![3u8, 3, 0, 0], seq![0u8, 0, 0, 0]],
        seq![seq![3u8, 0, 0, 0], seq![3u8, 3, 3, 0], seq![0u8, 0, 0, 0], seq![0u8, 0, 0, 0]],
        seq![seq![3u8, 3, 0, 0], seq![3u8, 0, 0, 0], seq![3u8, 0, 0, 0], seq![0u8, 0, 0, 0]],
    ]
}

/// The single rotation state of the O piece (kind id 4): rotation is a no-op.
pub open spec fn o_states() -> Seq<Seq<Seq<u8>>> {
    seq![
        seq![seq![4u8, 4, 0, 0], seq![4u8, 4, 0, 0], seq![0u8, 0, 0, 0], seq![0u8, 0, 0, 0]],
    ]
}

/// Rotation states of the S piece (kind id 5).
pub open spec fn s_states() -> Seq<Seq<Seq<u8>>> {
    seq![
        seq![seq![0u8, 5, 5, 0], seq![5u8, 5, 0, 0], seq![0u8, 0, 0, 0], seq![0u8, 0, 0, 0]],
        seq![seq![0u8, 5, 0, 0], seq![0u8, 5, 5, 0], seq![0u8, 0, 5, 0], seq![0u8, 0, 0, 0]],
    ]
}

/// Rotation states of the Z piece (kind id 6).
pub open spec fn z_states() -> Seq<Seq<Seq<u8>>> {
    seq![
        seq![seq![6u8, 6, 0, 0], seq![0u8, 6, 6, 0], seq![0u8, 0, 0, 0], seq![0u8, 0, 0, 0]],
        seq![seq![0u8, 0, 6, 0], seq![0u8, 6, 6, 0], seq![0u8, 6, 0, 0], seq![0u8, 0, 0, 0]],
    ]
}

/// Rotation states of the T piece (kind id 7).
pub open spec fn t_states() -> Seq<Seq<Seq<u8>>> {
    seq![
        seq![seq![7u8, 7, 7, 0], seq![0u8, 7, 0, 0], seq![0u8, 0, 0, 0], seq![0u8, 0, 0, 0]],
        seq![seq![0u8, 7, 0, 0], seq![7u8, 7, 0, 0], seq![0u8, 7, 0, 0], seq![0u8, 0, 0, 0]],
        seq![seq![0u8, 7, 0, 0], seq![7u8, 7, 7, 0], seq![0u8, 0, 0, 0], seq![0u8, 0, 0, 0]],
        seq![seq![0u8, 7, 0, 0], seq![0u8, 7, 7, 0], seq![0u8, 7, 0, 0], seq![0u8, 0, 0, 0]],
    ]
}

/// The fixed rotation-state table of a kind.
pub open spec fn kind_states(kind: PieceKind) -> Seq<Seq<Seq<u8>>> {
    match kind {
        PieceKind::I => i_states(),
        PieceKind::J => j_states(),
        PieceKind::L => l_states(),
        PieceKind::O => o_states(),
        PieceKind::S => s_states(),
        PieceKind::Z => z_states(),
        PieceKind::T => t_states(),
    }
}

/// The spawn column of a kind's bitmap origin: 5 for O, 4 for the rest.
pub open spec fn kind_spawn_x(kind: PieceKind) -> int {
    if kind == PieceKind::O {
        5
    } else {
        4
    }
}

/// Every kind's table holds 1 to 4 rotation states, each a full 4x4 grid
/// with at least one filled cell.
pub proof fn lemma_kind_states_wf(kind: PieceKind)
    ensures
        states_wf(kind_states(kind)),
        1 <= kind_states(kind).len() <= 4,
        forall|s: int|
            0 <= s < kind_states(kind).len() ==> shape_has_cell(#[trigger] kind_states(kind)[s]),
{
    let sts = kind_states(kind);
    assert forall|s: int| 0 <= s < sts.len() implies shape_wf(#[trigger] sts[s]) by {
        assert(sts[s].len() == 4);
        assert forall|r: int| 0 <= r < 4 implies (#[trigger] sts[s][r]).len() == 4 by {
            assert(sts[s][r].len() == 4);
        }
    }
    assert forall|s: int| 0 <= s < sts.len() implies shape_has_cell(#[trigger] sts[s]) by {
        // every rotation state shows a filled cell in its top row
        assert(sts[s][0][0] != 0 || sts[s][0][1] != 0 || sts[s][0][2] != 0);
    }
}

/// A rotation-state bitmap is a full 4x4 grid.
pub open spec fn shape_wf(shape: Seq<Seq<u8>>) -> bool {
    &&& shape.len() == 4
    &&& forall|r: int| 0 <= r < 4 ==> (#[trigger] shape[r]).len() == 4
}

/// Every rotation state in the table is a full 4x4 grid.
pub open spec fn states_wf(states: Seq<Seq<Seq<u8>>>) -> bool {
    forall|s: int| 0 <= s < states.len() ==> shape_wf(#[trigger] states[s])
}

/// A rotation state shows at least one filled cell: an all-empty bitmap is
/// no piece.
pub open spec fn shape_has_cell(shape: Seq<Seq<u8>>) -> bool {
    exists|dy: int, dx: int| 0 <= dy < 4 && 0 <= dx < 4 && #[trigger] shape[dy][dx] != 0
}

/// The filled cell at shape offset `(dy, dx)` lands inside the grid, on an
/// empty cell, when the shape origin is at `(x, y)`.
pub open spec fn cell_ok(map: Seq<Seq<u8>>, x: int, y: int, dy: int, dx: int) -> bool {
    &&& y + dy < map.len()
    &&& 0 <= x + dx < map[y + dy].len()
    &&& map[y + dy][x + dx] == 0
}

/// Every filled cell of `shape`, placed with its origin at `(x, y)`, lands
/// inside the grid on an empty cell.  This is the single source of truth for
/// placement legality.
pub open spec fn piece_fits(shape: Seq<Seq<u8>>, map: Seq<Seq<u8>>, x: int, y: int) -> bool {
    forall|dy: int, dx: int|
        0 <= dy < 4 && 0 <= dx < 4 && #[trigger] shape[dy][dx] != 0 ==> cell_ok(map, x, y, dy, dx)
}

/// One row of a rotation-state bitmap.
fn piece_row(a: u8, b: u8, c: u8, d: u8) -> (v: Vec<u8>)
    ensures
        v.deep_view() == seq![a, b, c, d],
{
    let mut v: Vec<u8> = Vec::new();
    v.push(a);
    v.push(b);
    v.push(c);
    v.push(d);
    proof {
        assert(v@ =~= seq![a, b, c, d]);
        assert(v.deep_view() =~= seq![a, b, c, d]);
    }
    v
}

/// One rotation-state bitmap out of its four rows.
fn piece_shape(r0: Vec<u8>, r1: Vec<u8>, r2: Vec<u8>, r3: Vec<u8>) -> (s: Piece)
    ensures
        s.deep_view() == seq![r0.deep_view(), r1.deep_view(), r2.deep_view(), r3.deep_view()],
{
    let ghost g0 = r0.deep_view();
    let ghost g1 = r1.deep_view();
    let ghost g2 = r2.deep_view();
    let ghost g3 = r3.deep_view();
    let mut s: Piece = Vec::new();
    s.push(r0);
    s.push(r1);
    s.push(r2);
    s.push(r3);
    proof {
        assert(s.deep_view() =~= seq![g0, g1, g2, g3]);
    }
    s
}

/// The fixed rotation-state list for a kind; never fails.
pub fn shapes_for(kind: PieceKind) -> (v: States)
    ensures
        v.deep_view() == kind_states(kind),
{
    let mut v: States = Vec::new();
    match kind {
        PieceKind::I => {
            v.push(
                piece_shape(
                    piece_row(1, 1, 1, 1),
                    piece_row(0, 0, 0, 0),
                    piece_row(0, 0, 0, 0),
                    piece_row(0, 0, 0, 0),
                ),
            );
            v.push(
                piece_shape(
                    piece_row(0, 1, 0, 0),
                    piece_row(0, 1, 0, 0),
                    piece_row(0, 1, 0, 0),
                    piece_row(0, 1, 0, 0),
                ),
            );
            proof {
                assert(v.deep_view() =~~= i_states());
            }
        },
        PieceKind::J => {
            v.push(
                piece_shape(
                    piece_row(2, 2, 2, 0),
                    piece_row(2, 0, 0, 0),
                    piece_row(0, 0, 0, 0),
                    piece_row(0, 0, 0, 0),
                ),
            );
            v.push(
                piece_shape(
                    piece_row(2, 2, 0, 0),
                    piece_row(0, 2, 0, 0),
                    piece_row(0, 2, 0, 0),
                    piece_row(0, 0, 0, 0),
                ),
            );
            v.push(
                piece_shape(
                    piece_row(0, 0, 2, 0),
                    piece_row(2, 2, 2, 0),
                    piece_row(0, 0, 0, 0),
                    piece_row(0, 0, 0, 0),
                ),
            );
            v.push(
                piece_shape(
                    piece_row(2, 0, 0, 0),
                    piece_row(2, 0, 0, 0),
                    piece_row(2, 2, 0, 0),
                    piece_row(0, 0, 0, 0),
                ),
            );
            proof {
                assert(v.deep_view() =~~= j_states());
            }
        },
        PieceKind::L => {
            v.push(
                piece_shape(
                    piece_row(3, 3, 3, 0),
                    piece_row(0, 0, 3, 0),
                    piece_row(0, 0, 0, 0),
                    piece_row(0, 0, 0, 0),
                ),
            );
            v.push(
                piece_shape(
                    piece_row(0, 3, 0, 0),
                    piece_row(0, 3, 0, 0),
                    piece_row(3, 3, 0, 0),
                    piece_row(0, 0, 0, 0),
                ),
            );
            v.push(
                piece_shape(
                    piece_row(3, 0, 0, 0),
                    piece_row(3, 3, 3, 0),
                    piece_row(0, 0, 0, 0),
                    piece_row(0, 0, 0, 0),
                ),
            );
            v.push(
                piece_shape(
                    piece_row(3, 3, 0, 0),
                    piece_row(3, 0, 0, 0),
                    piece_row(3, 0, 0, 0),
                    piece_row(0, 0, 0, 0),
                ),
            );
            proof {
                assert(v.deep_view() =~~= l_states());
            }
        },
        PieceKind::O => {
            v.push(
                piece_shape(
                    piece_row(4, 4, 0, 0),
                    piece_row(4, 4, 0, 0),
                    piece_row(0, 0, 0, 0),
                    piece_row(0, 0, 0, 0),
                ),
            );
            proof {
                assert(v.deep_view() =~~= o_states());
            }
        },
        PieceKind::S => {
            v.push(
                piece_shape(
                    piece_row(0, 5, 5, 0),
                    piece_row(5, 5, 0, 0),
                    piece_row(0, 0, 0, 0),
                    piece_row(0, 0, 0, 0),
                ),
            );
            v.push(
                piece_shape(
                    piece_row(0, 5, 0, 0),
                    piece_row(0, 5, 5, 0),
                    piece_row(0, 0, 5, 0),
                    piece_row(0, 0, 0, 0),
                ),
            );
            proof {
                assert(v.deep_view() =~~= s_states());
            }
        },
        PieceKind::Z => {
            v.push(
                piece_shape(
                    piece_row(6, 6, 0, 0),
                    piece_row(0, 6, 6, 0),
                    piece_row(0, 0, 0, 0),
                    piece_row(0, 0, 0, 0),
                ),
            );
            v.push(
                piece_shape(
                    piece_row(0, 0, 6, 0),
                    piece_row(0, 6, 6, 0),
                    piece_row(0, 6, 0, 0),
                    piece_row(0, 0, 0, 0),
                ),
            );
            proof {
                assert(v.deep_view() =~~= z_states());
            }
        },
        PieceKind::T => {
            v.push(
                piece_shape(
                    piece_row(7, 7, 7, 0),
                    piece_row(0, 7, 0, 0),
                    piece_row(0, 0, 0, 0),
                    piece_row(0, 0, 0, 0),
                ),
            );
            v.push(
                piece_shape(
                    piece_row(0, 7, 0, 0),
                    piece_row(7, 7, 0, 0),
                    piece_row(0, 7, 0, 0),
                    piece_row(0, 0, 0, 0),
                ),
            );
            v.push(
                piece_shape(
                    piece_row(0, 7, 0, 0),
                    piece_row(7, 7, 7, 0),
                    piece_row(0, 0, 0, 0),
                    piece_row(0, 0, 0, 0),
                ),
            );
            v.push(
                piece_shape(
                    piece_row(0, 7, 0, 0),
                    piece_row(0, 7, 7, 0),
                    piece_row(0, 7, 0, 0),
                    piece_row(0, 0, 0, 0),
                ),
            );
            proof {
                assert(v.deep_view() =~~= t_states());
            }
        },
    }
    v
}

/// Builds a fresh piece of one fixed kind at its spawn origin.
pub trait TetriminoGenerator {
    fn new() -> Tetrimino;
}

/// Generator of I pieces.
pub struct TetriminoI;

/// Generator of J pieces.
pub struct TetriminoJ;

/// Generator of L pieces.
pub struct TetriminoL;

/// Generator of O pieces.
pub struct TetriminoO;

/// Generator of S pieces.
pub struct TetriminoS;

/// Generator of Z pieces.
pub struct TetriminoZ;

/// Generator of T pieces.
pub struct TetriminoT;

impl TetriminoGenerator for TetriminoI {
    fn new() -> (t: Tetrimino)
        ensures
            t.states.deep_view() == kind_states(PieceKind::I),
            t.x == kind_spawn_x(PieceKind::I),
            t.y == 0,
            t.current_state == 0,
            t.wf(),
    {
        proof {
            lemma_kind_states_wf(PieceKind::I);
        }
        Tetrimino { states: shapes_for(PieceKind::I), x: 4, y: 0, current_state: 0 }
    }
}

impl TetriminoGenerator for TetriminoJ {
    fn new() -> (t: Tetrimino)
        ensures
            t.states.deep_view() == kind_states(PieceKind::J),
            t.x == kind_spawn_x(PieceKind::J),
            t.y == 0,
            t.current_state == 0,
            t.wf(),
    {
        proof {
            lemma_kind_states_wf(PieceKind::J);
        }
        Tetrimino { states: shapes_for(PieceKind::J), x: 4, y: 0, current_state: 0 }
    }
}

impl TetriminoGenerator for TetriminoL {
    fn new() -> (t: Tetrimino)
        ensures
            t.states.deep_view() == kind_states(PieceKind::L),
            t.x == kind_spawn_x(PieceKind::L),
            t.y == 0,
            t.current_state == 0,
            t.wf(),
    {
        proof {
            lemma_kind_states_wf(PieceKind::L);
        }
        Tetrimino { states: shapes_for(PieceKind::L), x: 4, y: 0, current_state: 0 }
    }
}

impl TetriminoGenerator for TetriminoO {
    fn new() -> (t: Tetrimino)
        ensures
            t.states.deep_view() == kind_states(PieceKind::O),
            t.x == kind_spawn_x(PieceKind::O),
            t.y == 0,
            t.current_state == 0,
            t.wf(),
    {
        proof {
            lemma_kind_states_wf(PieceKind::O);
        }
        Tetrimino { states: shapes_for(PieceKind::O), x: 5, y: 0, current_state: 0 }
    }
}

impl TetriminoGenerator for TetriminoS {
    fn new() -> (t: Tetrimino)
        ensures
            t.states.deep_view() == kind_states(PieceKind::S),
            t.x == kind_spawn_x(PieceKind::S),
            t.y == 0,
            t.current_state == 0,
            t.wf(),
    {
        proof {
            lemma_kind_states_wf(PieceKind::S);
        }
        Tetrimino { states: shapes_for(PieceKind::S), x: 4, y: 0, current_state: 0 }
    }
}

impl TetriminoGenerator for TetriminoZ {
    fn new() -> (t: Tetrimino)
        ensures
            t.states.deep_view() == kind_states(PieceKind::Z),
            t.x == kind_spawn_x(PieceKind::Z),
            t.y == 0,
            t.current_state == 0,
            t.wf(),
    {
        proof {
            lemma_kind_states_wf(PieceKind::Z);
        }
        Tetrimino { states: shapes_for(PieceKind::Z), x: 4, y: 0, current_state: 0 }
    }
}

impl TetriminoGenerator for TetriminoT {
    fn new() -> (t: Tetrimino)
        ensures
            t.states.deep_view() == kind_states(PieceKind::T),
            t.x == kind_spawn_x(PieceKind::T),
            t.y == 0,
            t.current_state == 0,
            t.wf(),
    {
        proof {
            lemma_kind_states_wf(PieceKind::T);
        }
        Tetrimino { states: shapes_for(PieceKind::T), x: 4, y: 0, current_state: 0 }
    }
}

/// The kind a draw in 0..7 selects, in the fixed order I, J, L, O, S, Z, T.
pub open spec fn spec_kind_of_index(i: int) -> PieceKind {
    if i == 0 {
        PieceKind::I
    } else if i == 1 {
        PieceKind::J
    } else if i == 2 {
        PieceKind::L
    } else if i == 3 {
        PieceKind::O
    } else if i == 4 {
        PieceKind::S
    } else if i == 5 {
        PieceKind::Z
    } else {
        PieceKind::T
    }
}

/// Maps a draw in 0..7 to its kind.
pub fn kind_of_index(i: u8) -> (k: PieceKind)
    requires
        i < 7,
    ensures
        k == spec_kind_of_index(i as int),
{
    match i {
        0 => PieceKind::I,
        1 => PieceKind::J,
        2 => PieceKind::L,
        3 => PieceKind::O,
        4 => PieceKind::S,
        5 => PieceKind::Z,
        _ => PieceKind::T,
    }
}

/// The no-immediate-repeat policy: the first draw stands, unless it selects
/// the previously emitted kind, in which case the second draw stands,
/// whatever it is (a repeat on the second draw is accepted).
pub open spec fn spec_pick_kind(first: int, second: int, previous: Option<PieceKind>) -> PieceKind {
    if previous == Some(spec_kind_of_index(first)) {
        spec_kind_of_index(second)
    } else {
        spec_kind_of_index(first)
    }
}

/// Resolves two draws in 0..7 against the previously emitted kind under the
/// no-immediate-repeat policy.
pub fn pick_kind(first: u8, second: u8, previous: Option<PieceKind>) -> (k: PieceKind)
    requires
        first < 7,
        second < 7,
    ensures
        k == spec_pick_kind(first as int, second as int, previous),
{
    let candidate = kind_of_index(first);
    let repeat = match previous {
        Some(p) => p == candidate,
        None => false,
    };
    if repeat {
        kind_of_index(second)
    } else {
        candidate
    }
}

/// Relies on rand::random: a uniformly random byte from the thread-local
/// generator.  Nothing can be promised of its value.
#[verifier::external_body]
fn random_byte() -> u8 {
    rand::random::<u8>()
}

/// Draws a uniformly random kind of the 7; if it equals `previous_kind`,
/// a second uniform draw is taken instead, accepted even if it repeats
/// again.  This caps the repeat probability without eliminating it.
pub fn random_next(previous_kind: Option<PieceKind>) -> (k: PieceKind)
    ensures
        exists|a: int, b: int|
            0 <= a < 7 && 0 <= b < 7 && k == #[trigger] spec_pick_kind(a, b, previous_kind),
{
    let first = random_byte() % 7;
    let second = random_byte() % 7;
    let k = pick_kind(first, second, previous_kind);
    proof {
        assert(k == spec_pick_kind(first as int, second as int, previous_kind));
    }
    k
}

/// The horizontal offsets a rotation is tried at, in priority order:
/// centered first, then alternating left and right, widening.
pub open spec fn rotation_offsets() -> Seq<int> {
    seq![0, -1, 1, -2, 2, -3]
}

/// The rotation state a rotation moves to: the next index in the cycle,
/// wrapping to 0 past the last state.
pub open spec fn spec_next_state(pre: Tetrimino) -> int {
    if pre.current_state as int + 1 >= pre.states@.len() {
        0
    } else {
        pre.current_state as int + 1
    }
}

/// The rotation committed at offset index `j`: that offset is the first
/// legal one, and the piece took the next rotation state and moved by it.
pub open spec fn rotate_commits(pre: Tetrimino, post: Tetrimino, map: Seq<Seq<u8>>, j: int) -> bool {
    let ns = spec_next_state(pre);
    let offs = rotation_offsets();
    &&& 0 <= j < offs.len()
    &&& piece_fits(pre.states.deep_view()[ns], map, pre.x + offs[j], pre.y as int)
    &&& (forall|k: int|
        0 <= k < j ==> !piece_fits(
            pre.states.deep_view()[ns],
            map,
            pre.x + #[trigger] rotation_offsets()[k],
            pre.y as int,
        ))
    &&& post == (Tetrimino { current_state: ns as u8, x: (pre.x + offs[j]) as isize, ..pre })
}

/// What a rotation does: if the next rotation state fits at some tried
/// offset, the first legal offset is committed; otherwise nothing changes.
pub open spec fn rotate_post(pre: Tetrimino, post: Tetrimino, map: Seq<Seq<u8>>) -> bool {
    if exists|i: int|
        0 <= i < rotation_offsets().len() && #[trigger] piece_fits(
            pre.states.deep_view()[spec_next_state(pre)],
            map,
            pre.x + rotation_offsets()[i],
            pre.y as int,
        ) {
        exists|j: int| #[trigger] rotate_commits(pre, post, map, j)
    } else {
        post == pre
    }
}

/// Law: rotating a piece whose kind has a single rotation state (the O
/// kind) while it rests at a legal position is a no-op.  The next state in
/// the cycle is the current one, and the first offset tried, 0, already
/// fits, so neither the state index nor the position changes.
pub proof fn lemma_rotate_single_state_noop(pre: Tetrimino, post: Tetrimino, map: Seq<Seq<u8>>)
    requires
        pre.wf(),
        pre.states@.len() == 1,
        piece_fits(pre.current_shape(), map, pre.x as int, pre.y as int),
        rotate_post(pre, post, map),
    ensures
        post == pre,
{
    let ns = spec_next_state(pre);
    assert(ns == 0);
    assert(pre.current_state == 0);
    assert(rotation_offsets()[0] == 0);
    assert(piece_fits(
        pre.states.deep_view()[ns],
        map,
        pre.x + rotation_offsets()[0],
        pre.y as int,
    ));
    assert(exists|j: int| #[trigger] rotate_commits(pre, post, map, j));
    let j = choose|j: int| #[trigger] rotate_commits(pre, post, map, j);
    if j > 0 {
        assert(!piece_fits(
            pre.states.deep_view()[ns],
            map,
            pre.x + rotation_offsets()[0],
            pre.y as int,
        ));
        assert(false);
    }
    assert(post == (Tetrimino { current_state: 0u8, x: pre.x, ..pre }));
}

/// Law: the collision test is a pure function of the piece and the grid;
/// two tests of one piece at its current position, with nothing mutated
/// between them, return the same result.
pub proof fn lemma_test_current_position_idempotent(
    t: Tetrimino,
    map: Seq<Seq<u8>>,
    r1: bool,
    r2: bool,
)
    requires
        r1 == piece_fits(t.current_shape(), map, t.x as int, t.y as int),
        r2 == piece_fits(t.current_shape(), map, t.x as int, t.y as int),
    ensures
        r1 == r2,
{
}

/// The offset tried at position `i` of the search order.
fn offset_at(i: usize) -> (o: isize)
    requires
        i < 6,
    ensures
        o as int == rotation_offsets()[i as int],
{
    match i {
        0 => 0,
        1 => -1,
        2 => 1,
        3 => -2,
        4 => 2,
        _ => -3,
    }
}

impl Tetrimino {
    /// The piece's rotation table is well formed: 1 to 4 rotation states,
    /// each a full 4x4 bitmap showing at least one filled cell, with the
    /// current rotation index pointing into the table.
    pub open spec fn wf(&self) -> bool {
        &&& 1 <= self.states@.len() <= 4
        &&& (self.current_state as int) < self.states@.len()
        &&& states_wf(self.states.deep_view())
        &&& forall|s: int|
            0 <= s < self.states@.len() ==> shape_has_cell(#[trigger] self.states.deep_view()[s])
    }

    /// The rotation state the piece currently shows.
    pub open spec fn current_shape(&self) -> Seq<Seq<u8>> {
        self.states.deep_view()[self.current_state as int]
    }

    /// Collision test: succeeds exactly when every filled cell of the
    /// rotation state at `tmp_state`, with the bitmap origin at `(x, y)`,
    /// lands on an empty, in-bounds grid cell.  Pure: nothing is mutated.
    pub fn test_position(&self, game_map: &[Vec<u8>], tmp_state: usize, x: isize, y: usize) -> (r:
        bool)
        requires
            tmp_state < self.states@.len(),
            shape_wf(self.states.deep_view()[tmp_state as int]),
        ensures
            r == piece_fits(
                self.states.deep_view()[tmp_state as int],
                game_map.deep_view(),
                x as int,
                y as int,
            ),
    {
        let ghost shape = self.states.deep_view()[tmp_state as int];
        let ghost map = game_map.deep_view();
        let mut dy: usize = 0;
        while dy < 4
            invariant
                dy <= 4,
                tmp_state < self.states@.len(),
                shape == self.states.deep_view()[tmp_state as int],
                map == game_map.deep_view(),
                shape_wf(shape),
                forall|py: int, px: int|
                    0 <= py < dy && 0 <= px < 4 && #[trigger] shape[py][px] != 0 ==> cell_ok(
                        map,
                        x as int,
                        y as int,
                        py,
                        px,
                    ),
            decreases 4 - dy,
        {
            let mut dx: usize = 0;
            while dx < 4
                invariant
                    dy < 4,
                    dx <= 4,
                    tmp_state < self.states@.len(),
                    shape == self.states.deep_view()[tmp_state as int],
                    map == game_map.deep_view(),
                    shape_wf(shape),
                    forall|py: int, px: int|
                        0 <= py < dy && 0 <= px < 4 && #[trigger] shape[py][px] != 0 ==> cell_ok(
                            map,
                            x as int,
                            y as int,
                            py,
                            px,
                        ),
                    forall|px: int|
                        0 <= px < dx && #[trigger] shape[dy as int][px] != 0 ==> cell_ok(
                            map,
                            x as int,
                            y as int,
                            dy as int,
                            px,
                        ),
                decreases 4 - dx,
            {
                proof {
                    assert(shape == self.states@[tmp_state as int].deep_view());
                    assert(shape.len() == self.states@[tmp_state as int]@.len());
                    assert(shape[dy as int] == self.states@[tmp_state as int]@[dy as int].deep_view());
                    assert(shape[dy as int].len() == self.states@[tmp_state as int]@[dy as int]@.len());
                    assert(shape[dy as int][dx as int]
                        == self.states@[tmp_state as int]@[dy as int]@[dx as int]);
                }
                let cell = self.states[tmp_state][dy][dx];
                if cell != 0 {
                    let row_i: i128 = y as i128 + dy as i128;
                    if row_i >= game_map.len() as i128 {
                        proof {
                            assert(shape[dy as int][dx as int] != 0 && !cell_ok(
                                map,
                                x as int,
                                y as int,
                                dy as int,
                                dx as int,
                            ));
                        }
                        return false;
                    }
                    let row = &game_map[y + dy];
                    proof {
                        assert(map[y as int + dy as int] == game_map@[y as int + dy].deep_view());
                    }
                    let col_i: i128 = x as i128 + dx as i128;
                    if col_i < 0 || col_i >= row.len() as i128 {
                        proof {
                            assert(shape[dy as int][dx as int] != 0 && !cell_ok(
                                map,
                                x as int,
                                y as int,
                                dy as int,
                                dx as int,
                            ));
                        }
                        return false;
                    }
                    if row[col_i as usize] != 0 {
                        proof {
                            assert(map[y as int + dy as int][x as int + dx as int]
                                == row@[col_i as int]);
                            assert(shape[dy as int][dx as int] != 0 && !cell_ok(
                                map,
                                x as int,
                                y as int,
                                dy as int,
                                dx as int,
                            ));
                        }
                        return false;
                    }
                    proof {
                        assert(map[y as int + dy as int][x as int + dx as int]
                            == row@[col_i as int]);
                        assert(cell_ok(map, x as int, y as int, dy as int, dx as int));
                    }
                }
                dx = dx + 1;
            }
            dy = dy + 1;
        }
        true
    }

    /// The collision test at the piece's own rotation state and origin.
    pub fn test_current_position(&self, game_map: &[Vec<u8>]) -> (r: bool)
        requires
            self.wf(),
        ensures
            r == piece_fits(
                self.current_shape(),
                game_map.deep_view(),
                self.x as int,
                self.y as int,
            ),
    {
        self.test_position(game_map, self.current_state as usize, self.x, self.y)
    }

    /// Moves the piece to `(new_x, new_y)` if the collision test at the
    /// current rotation state passes there; otherwise leaves it unmoved.
    /// Used uniformly for left, right, soft-drop and hard-drop movement.
    pub fn change_position(&mut self, game_map: &[Vec<u8>], new_x: isize, new_y: usize) -> (r: bool)
        requires
            old(self).wf(),
        ensures
            r == piece_fits(
                old(self).current_shape(),
                game_map.deep_view(),
                new_x as int,
                new_y as int,
            ),
            r ==> *final(self) == (Tetrimino { x: new_x, y: new_y, ..*old(self) }),
            !r ==> *final(self) == *old(self),
            final(self).wf(),
    {
        if self.test_position(game_map, self.current_state as usize, new_x, new_y) {
            self.x = new_x;
            self.y = new_y;
            true
        } else {
            false
        }
    }

    /// Tries the next rotation state at the horizontal offsets
    /// 0, -1, +1, -2, +2, -3, in that order, with the row unchanged; the
    /// first offset where the collision test passes is committed.  If none
    /// passes, the piece is left exactly as it was.
    pub fn rotate(&mut self, game_map: &[Vec<u8>])
        requires
            old(self).wf(),
            forall|r: int|
                0 <= r < game_map.deep_view().len() ==> (#[trigger] game_map.deep_view()[r]).len()
                    <= 10,
        ensures
            final(self).states == old(self).states,
            final(self).y == old(self).y,
            final(self).wf(),
            rotate_post(*old(self), *final(self), game_map.deep_view()),
    {
        let ghost pre = *self;
        let ghost map = game_map.deep_view();
        let mut tmp_state = self.current_state + 1;
        if tmp_state as usize >= self.states.len() {
            tmp_state = 0;
        }
        assert(tmp_state as int == spec_next_state(pre));

        let mut i: usize = 0;
        let mut committed = false;
        while i < 6 && !committed
            invariant
                i <= 6,
                map == game_map.deep_view(),
                forall|r: int| 0 <= r < map.len() ==> (#[trigger] map[r]).len() <= 10,
                pre.wf(),
                tmp_state as int == spec_next_state(pre),
                !committed ==> *self == pre,
                !committed ==> forall|k: int|
                    0 <= k < i ==> !piece_fits(
                        pre.states.deep_view()[spec_next_state(pre)],
                        map,
                        pre.x + #[trigger] rotation_offsets()[k],
                        pre.y as int,
                    ),
                committed ==> i < 6 && rotate_commits(pre, *self, map, i as int),
            decreases 6 - i, (if committed { 0int } else { 1 }),
        {
            let off = offset_at(i);
            let candidate: i128 = self.x as i128 + off as i128;
            let mut fits = false;
            if -3 <= candidate && candidate <= 9 {
                fits = self.test_position(game_map, tmp_state as usize, candidate as isize, self.y);
            } else {
                proof {
                    // the next state shows a filled cell; that far out it
                    // cannot land inside a grid at most 10 cells wide
                    let shape = pre.states.deep_view()[spec_next_state(pre)];
                    assert(shape_has_cell(shape));
                    let (dy0, dx0) = choose|dy: int, dx: int|
                        0 <= dy < 4 && 0 <= dx < 4 && #[trigger] shape[dy][dx] != 0;
                    if pre.y as int + dy0 < map.len() {
                        assert(map[pre.y as int + dy0].len() <= 10);
                    }
                    assert(!cell_ok(map, candidate as int, pre.y as int, dy0, dx0));
                    assert(!piece_fits(shape, map, pre.x + rotation_offsets()[i as int], pre.y as int));
                }
            }
            if fits {
                self.current_state = tmp_state;
                self.x = candidate as isize;
                committed = true;
                proof {
                    assert(rotate_commits(pre, *self, map, i as int));
                }
            } else {
                i = i + 1;
            }
        }
        proof {
            if committed {
                assert(rotate_commits(pre, *self, map, i as int));
                assert(rotate_post(pre, *self, map));
            } else {
                assert forall|j: int|
                    0 <= j < rotation_offsets().len() implies !piece_fits(
                    pre.states.deep_view()[spec_next_state(pre)],
                    map,
                    pre.x + rotation_offsets()[j],
                    pre.y as int,
                ) by {
                    assert(!piece_fits(
                        pre.states.deep_view()[spec_next_state(pre)],
                        map,
                        pre.x + rotation_offsets()[j],
                        pre.y as int,
                    ));
                }
                assert(rotate_post(pre, *self, map));
            }
        }
    }
}

} // verus!

