//! The board: grid contents, the active piece, locking, line clearing,
//! scoring and level progression.

use vstd::arithmetic::mul::lemma_mul_inequality;
use vstd::prelude::*;

use crate::tetrimino::{
    kind_spawn_x, kind_states, random_next, PieceKind, Tetrimino, TetriminoGenerator, TetriminoI,
    TetriminoJ, TetriminoL, TetriminoO, TetriminoS, TetriminoT, TetriminoZ,
};

verus! {

/// Grid width in cells.
pub const GRID_WIDTH: usize = 10;

/// Grid height in rows.
pub const GRID_HEIGHT: usize = 16;

/// The game state: the fixed 10x16 grid of locked cells (0 = empty,
/// 1-7 = locked piece kind id), the running totals, and the active piece.
pub struct Tetris {
    /// Row-major grid; row 0 is the top.
    pub game_map: Vec<Vec<u8>>,
    /// Difficulty tier, starts at 1, never decreases.
    pub current_level: u32,
    /// Cumulative score; only ever increases.
    pub score: u32,
    /// Cumulative count of cleared lines.
    pub num_lines: u32,
    /// The falling piece, if one is active.
    pub current_piece: Option<Tetrimino>,
    /// The kind most recently emitted by the piece selector, fed back into
    /// it so an immediate repeat is redrawn once.
    pub prev_kind: Option<PieceKind>,
}

/// An empty grid row: 10 empty cells.
pub open spec fn empty_row() -> Seq<u8> {
    Seq::new(GRID_WIDTH as nat, |c: int| 0u8)
}

/// The grid has exactly 16 rows of exactly 10 cells each.
pub open spec fn map_wf(map: Seq<Seq<u8>>) -> bool {
    &&& map.len() == GRID_HEIGHT
    &&& forall|r: int| 0 <= r < map.len() ==> (#[trigger] map[r]).len() == GRID_WIDTH
}

/// A row is complete when every cell is nonzero.
pub open spec fn row_complete(row: Seq<u8>) -> bool {
    forall|c: int| 0 <= c < row.len() ==> #[trigger] row[c] != 0
}

/// The rows left after the top-to-bottom scan removes every complete row,
/// in their original order.
pub open spec fn remove_full_rows(rows: Seq<Seq<u8>>) -> Seq<Seq<u8>>
    decreases rows.len(),
{
    if rows.len() == 0 {
        Seq::empty()
    } else if row_complete(rows[0]) {
        remove_full_rows(rows.drop_first())
    } else {
        seq![rows[0]] + remove_full_rows(rows.drop_first())
    }
}

/// How many rows a line-clear scan removes.
pub open spec fn spec_cleared_rows(map: Seq<Seq<u8>>) -> int {
    map.len() - remove_full_rows(map).len()
}

/// The points a line-clear scan awards: the level once per cleared row,
/// plus a flat 1000-point bonus when the whole grid empties.
pub open spec fn spec_line_score(map: Seq<Seq<u8>>, level: int) -> int {
    spec_cleared_rows(map) * level + if remove_full_rows(map).len() == 0 {
        1000int
    } else {
        0int
    }
}

/// Cleared-line count a level must exceed before it advances: 20, 40, ...,
/// 200 for levels 1 through 10.
pub open spec fn spec_level_threshold(level: int) -> int {
    20 * level
}

/// One cleared line is counted: the line total rises by one, and the level
/// advances by one when the new total exceeds its threshold; past level 10
/// the level never advances.
pub open spec fn spec_line_step(num_lines: int, level: int) -> (int, int) {
    let n = num_lines + 1;
    if level <= 10 && n > spec_level_threshold(level) {
        (n, level + 1)
    } else {
        (n, level)
    }
}

/// `count` cleared lines are counted one at a time.
pub open spec fn spec_line_steps(num_lines: int, level: int, count: nat) -> (int, int)
    decreases count,
{
    if count == 0 {
        (num_lines, level)
    } else {
        let s = spec_line_step(num_lines, level);
        spec_line_steps(s.0, s.1, (count - 1) as nat)
    }
}

/// Counting lines one at a time raises the total by exactly the count and
/// never lowers the level; the level stops advancing past 11.
pub proof fn lemma_line_steps_props(num_lines: int, level: int, count: nat)
    ensures
        spec_line_steps(num_lines, level, count).0 == num_lines + count,
        spec_line_steps(num_lines, level, count).1 >= level,
        level <= 11 ==> spec_line_steps(num_lines, level, count).1 <= 11,
        level > 10 ==> spec_line_steps(num_lines, level, count).1 == level,
    decreases count,
{
    if count > 0 {
        let s = spec_line_step(num_lines, level);
        lemma_line_steps_props(s.0, s.1, (count - 1) as nat);
    }
}

/// Taking one more step after `count` steps is the same as taking
/// `count + 1` steps.
pub proof fn lemma_line_steps_snoc(num_lines: int, level: int, count: nat)
    ensures
        spec_line_steps(num_lines, level, count + 1) == ({
            let s = spec_line_steps(num_lines, level, count);
            spec_line_step(s.0, s.1)
        }),
    decreases count,
{
    let s = spec_line_step(num_lines, level);
    if count == 0 {
        assert(spec_line_steps(num_lines, level, 1) == spec_line_steps(s.0, s.1, 0));
    } else {
        lemma_line_steps_snoc(s.0, s.1, (count - 1) as nat);
        assert(spec_line_steps(num_lines, level, count + 1) == spec_line_steps(
            s.0,
            s.1,
            count,
        ));
    }
}

/// The value of grid cell `(r, c)` after a shape with origin `(x, y)` is
/// locked: the shape's cell if it covers `(r, c)` with a filled cell, the
/// old grid cell otherwise.
pub open spec fn lock_cell(
    map: Seq<Seq<u8>>,
    shape: Seq<Seq<u8>>,
    x: int,
    y: int,
    r: int,
    c: int,
) -> u8 {
    if y <= r < y + 4 && x <= c < x + 4 && shape[r - y][c - x] != 0 {
        shape[r - y][c - x]
    } else {
        map[r][c]
    }
}

/// The grid after a shape with origin `(x, y)` is locked into it: every
/// filled shape cell that lies inside the grid is written; cells that would
/// fall outside the grid are silently skipped.
pub open spec fn lock_into(map: Seq<Seq<u8>>, shape: Seq<Seq<u8>>, x: int, y: int) -> Seq<
    Seq<u8>,
> {
    Seq::new(map.len(), |r: int| Seq::new(map[r].len(), |c: int| lock_cell(map, shape, x, y, r, c)))
}

/// The grid a lock produces: the active piece's current shape written in at
/// its origin, or the grid unchanged when no piece is active.
pub open spec fn spec_locked_map(t: Tetris) -> Seq<Seq<u8>> {
    match t.current_piece {
        Some(p) => lock_into(t.map_view(), p.current_shape(), p.x as int, p.y as int),
        None => t.map_view(),
    }
}

/// The per-lock score bonus: the level, awarded once whenever a piece is
/// locked, independent of lines cleared; nothing when no piece is active.
pub open spec fn spec_lock_bonus(t: Tetris) -> int {
    if t.current_piece is Some {
        t.current_level as int
    } else {
        0
    }
}

/// `lock_cell`, restricted to the shape cells before `(sy, sx)` in row-major
/// order: the prefix a partially run locking loop has written.
spec fn lock_cell_upto(
    map: Seq<Seq<u8>>,
    shape: Seq<Seq<u8>>,
    x: int,
    y: int,
    r: int,
    c: int,
    sy: int,
    sx: int,
) -> u8 {
    let dy = r - y;
    let dx = c - x;
    if 0 <= dy < 4 && 0 <= dx < 4 && (dy < sy || (dy == sy && dx < sx)) && shape[dy][dx] != 0 {
        shape[dy][dx]
    } else {
        map[r][c]
    }
}

/// The grid after the locking loop has processed the shape cells before
/// `(sy, sx)` in row-major order.
spec fn locked_upto(
    map: Seq<Seq<u8>>,
    shape: Seq<Seq<u8>>,
    x: int,
    y: int,
    sy: int,
    sx: int,
) -> Seq<Seq<u8>> {
    Seq::new(
        map.len(),
        |r: int| Seq::new(map[r].len(), |c: int| lock_cell_upto(map, shape, x, y, r, c, sy, sx)),
    )
}

/// Law: on a full 10x16 grid the line-clear scan leaves no complete row,
/// removing and refilling restore the grid's height exactly, the per-row
/// points never lower the score, and clearing all 16 rows awards the flat
/// 1000-point bonus on top of the per-row points.
pub proof fn lemma_line_clear_law(map: Seq<Seq<u8>>, level: int)
    requires
        map_wf(map),
    ensures
        forall|i: int|
            0 <= i < remove_full_rows(map).len() ==> !row_complete(
                #[trigger] remove_full_rows(map)[i],
            ),
        0 <= spec_cleared_rows(map) <= GRID_HEIGHT,
        spec_cleared_rows(map) + remove_full_rows(map).len() == GRID_HEIGHT,
        spec_cleared_rows(map) == GRID_HEIGHT ==> spec_line_score(map, level) == GRID_HEIGHT
            * level + 1000,
        level >= 1 ==> spec_line_score(map, level) >= 0,
{
    lemma_remove_full_rows_props(map);
    if spec_cleared_rows(map) == GRID_HEIGHT {
        assert(remove_full_rows(map).len() == 0);
    }
    if level >= 1 {
        lemma_mul_inequality(0, spec_cleared_rows(map), level);
    }
}

/// The scan's survivors are no more numerous than the rows scanned, none of
/// them is complete, and each of them is one of the rows scanned.
pub proof fn lemma_remove_full_rows_props(rows: Seq<Seq<u8>>)
    ensures
        remove_full_rows(rows).len() <= rows.len(),
        forall|i: int|
            0 <= i < remove_full_rows(rows).len() ==> !row_complete(
                #[trigger] remove_full_rows(rows)[i],
            ),
        forall|i: int|
            0 <= i < remove_full_rows(rows).len() ==> exists|j: int|
                0 <= j < rows.len() && #[trigger] remove_full_rows(rows)[i] == rows[j],
    decreases rows.len(),
{
    if rows.len() > 0 {
        let rest = rows.drop_first();
        let kept = remove_full_rows(rows);
        lemma_remove_full_rows_props(rest);
        if row_complete(rows[0]) {
            assert(kept == remove_full_rows(rest));
            assert forall|i: int| 0 <= i < kept.len() implies exists|j: int|
                0 <= j < rows.len() && #[trigger] kept[i] == rows[j] by {
                let j0 = choose|j: int| 0 <= j < rest.len() && #[trigger] kept[i] == rest[j];
                assert(kept[i] == rows[j0 + 1]);
            }
        } else {
            assert(kept == seq![rows[0]] + remove_full_rows(rest));
            assert forall|i: int| 0 <= i < kept.len() implies exists|j: int|
                0 <= j < rows.len() && #[trigger] kept[i] == rows[j] by {
                if i == 0 {
                    assert(kept[0] == rows[0]);
                } else {
                    let ri = i - 1;
                    assert(kept[i] == remove_full_rows(rest)[ri]);
                    let j0 = choose|j: int|
                        0 <= j < rest.len() && #[trigger] remove_full_rows(rest)[ri] == rest[j];
                    assert(kept[i] == rows[j0 + 1]);
                }
            }
        }
    }
}

/// Writes one grid cell.
fn set_cell(map: &mut Vec<Vec<u8>>, r: usize, c: usize, v: u8)
    requires
        r < old(map)@.len(),
        c < old(map)@[r as int]@.len(),
    ensures
        final(map).deep_view() == old(map).deep_view().update(
            r as int,
            old(map).deep_view()[r as int].update(c as int, v),
        ),
{
    let ghost pre = map.deep_view();
    map[r][c] = v;
    proof {
        assert(map.deep_view()[r as int] =~= pre[r as int].update(c as int, v));
        assert(map.deep_view() =~= pre.update(r as int, pre[r as int].update(c as int, v)));
    }
}

/// Whether every cell of this grid row is filled.
fn row_is_complete(row: &Vec<u8>) -> (r: bool)
    ensures
        r == row_complete(row.deep_view()),
{
    let mut c: usize = 0;
    while c < row.len()
        invariant
            c <= row@.len(),
            forall|i: int| 0 <= i < c ==> row@[i] != 0,
        decreases row@.len() - c,
    {
        if row[c] == 0 {
            proof {
                assert(row.deep_view()[c as int] == 0);
            }
            return false;
        }
        c = c + 1;
    }
    proof {
        assert forall|i: int| 0 <= i < row.deep_view().len() implies #[trigger] row.deep_view()[i]
            != 0 by {
            assert(row.deep_view()[i] == row@[i]);
        }
    }
    true
}

impl Tetris {
    /// The grid as a sequence of rows of cell values.
    pub open spec fn map_view(&self) -> Seq<Seq<u8>> {
        self.game_map.deep_view()
    }

    /// The board invariant: a full 10x16 grid, a level of at least 1, and a
    /// well-formed active piece if one is present.
    pub open spec fn wf(&self) -> bool {
        &&& map_wf(self.map_view())
        &&& self.current_level >= 1
        &&& match self.current_piece {
            Some(p) => p.wf(),
            None => true,
        }
    }

    /// A fresh game: an empty 10x16 grid, level 1, no score, no cleared
    /// lines, no active piece.
    pub fn new() -> (t: Tetris)
        ensures
            t.wf(),
            t.map_view() == Seq::new(GRID_HEIGHT as nat, |r: int| empty_row()),
            t.current_level == 1,
            t.score == 0,
            t.num_lines == 0,
            t.current_piece is None,
            t.prev_kind is None,
    {
        let mut game_map: Vec<Vec<u8>> = Vec::new();
        let mut r: usize = 0;
        while r < GRID_HEIGHT
            invariant
                r <= GRID_HEIGHT,
                game_map@.len() == r,
                forall|i: int| 0 <= i < r ==> #[trigger] game_map.deep_view()[i] == empty_row(),
            decreases GRID_HEIGHT - r,
        {
            let ghost prev = game_map.deep_view();
            game_map.push(empty_game_row());
            proof {
                assert forall|i: int| 0 <= i < r + 1 implies #[trigger] game_map.deep_view()[i]
                    == empty_row() by {
                    if i < r {
                        assert(game_map.deep_view()[i] == prev[i]);
                    }
                }
            }
            r = r + 1;
        }
        let t = Tetris {
            game_map,
            current_level: 1,
            score: 0,
            num_lines: 0,
            current_piece: None,
            prev_kind: None,
        };
        proof {
            assert(t.map_view() =~= Seq::new(GRID_HEIGHT as nat, |i: int| empty_row()));
        }
        t
    }

    /// Adds `to_add` points; the score only ever increases.
    pub fn update_score(&mut self, to_add: u32)
        requires
            old(self).score + to_add <= u32::MAX,
        ensures
            *final(self) == (Tetris { score: (old(self).score + to_add) as u32, ..*old(self) }),
    {
        self.score += to_add;
    }

    /// Counts one cleared line and advances the level when the new total
    /// exceeds the level's threshold; past level 10 the level stays put.
    pub fn increase_line(&mut self)
        requires
            old(self).num_lines < u32::MAX,
            old(self).current_level >= 1,
        ensures
            *final(self) == ({
                let s = spec_line_step(old(self).num_lines as int, old(self).current_level as int);
                Tetris { num_lines: s.0 as u32, current_level: s.1 as u32, ..*old(self) }
            }),
            final(self).num_lines == old(self).num_lines + 1,
            final(self).current_level >= old(self).current_level,
    {
        self.num_lines += 1;
        if self.current_level <= 10 && self.num_lines > 20 * self.current_level {
            self.current_level += 1;
        }
    }

    /// Scans the grid top to bottom, removes every complete row (staying at
    /// the same index after a removal, so cascades clear in one pass),
    /// awards the level once per removed row plus a flat 1000 points when
    /// the grid empties entirely, then refills the grid to 16 rows by
    /// inserting empty rows at the top, counting one cleared line (and its
    /// level check) per inserted row.
    pub fn check_lines(&mut self)
        requires
            map_wf(old(self).map_view()),
            old(self).current_level >= 1,
            old(self).score + spec_line_score(old(self).map_view(), old(self).current_level as int)
                <= u32::MAX,
            old(self).num_lines + spec_cleared_rows(old(self).map_view()) <= u32::MAX,
        ensures
            map_wf(final(self).map_view()),
            final(self).map_view() == Seq::new(
                spec_cleared_rows(old(self).map_view()) as nat,
                |r: int| empty_row(),
            ) + remove_full_rows(old(self).map_view()),
            final(self).score == old(self).score + spec_line_score(
                old(self).map_view(),
                old(self).current_level as int,
            ),
            ({
                let s = spec_line_steps(
                    old(self).num_lines as int,
                    old(self).current_level as int,
                    spec_cleared_rows(old(self).map_view()) as nat,
                );
                final(self).num_lines == s.0 && final(self).current_level == s.1
            }),
            final(self).num_lines >= old(self).num_lines,
            final(self).current_level >= old(self).current_level,
            final(self).score >= old(self).score,
            final(self).current_piece == old(self).current_piece,
            final(self).prev_kind == old(self).prev_kind,
    {
        let ghost pre = *old(self);
        let ghost m0 = pre.map_view();
        let ghost lv0 = pre.current_level as int;
        let ghost kept = remove_full_rows(m0);
        let mut y: usize = 0;
        let mut score_add: u32 = 0;

        proof {
            assert(self.map_view().take(0) =~= Seq::<Seq<u8>>::empty());
            assert(self.map_view().skip(0) =~= self.map_view());
            assert(kept =~= self.map_view().take(0) + remove_full_rows(self.map_view().skip(0)));
            lemma_remove_full_rows_props(m0);
        }
        while y < self.game_map.len()
            invariant
                y <= self.game_map@.len(),
                kept == remove_full_rows(m0),
                kept.len() <= m0.len(),
                m0.len() == GRID_HEIGHT,
                map_wf(m0),
                pre.current_level >= 1,
                pre.score + spec_line_score(m0, lv0) <= u32::MAX,
                lv0 == pre.current_level as int,
                self.current_level == pre.current_level,
                self.score == pre.score,
                self.num_lines == pre.num_lines,
                self.current_piece == pre.current_piece,
                self.prev_kind == pre.prev_kind,
                forall|i: int| 0 <= i < y ==> !row_complete(#[trigger] self.map_view()[i]),
                forall|r: int|
                    0 <= r < self.map_view().len() ==> (#[trigger] self.map_view()[r]).len()
                        == GRID_WIDTH,
                kept == self.map_view().take(y as int) + remove_full_rows(
                    self.map_view().skip(y as int),
                ),
                self.game_map@.len() <= m0.len(),
                score_add == (m0.len() - self.game_map@.len()) * lv0,
                m0.len() - self.game_map@.len() <= spec_cleared_rows(m0),
            decreases self.game_map@.len() - y,
        {
            let ghost cur = self.map_view();
            let complete = row_is_complete(&self.game_map[y]);
            proof {
                assert(self.game_map@[y as int].deep_view() == cur[y as int]);
                assert(cur.skip(y as int)[0] == cur[y as int]);
                assert(cur.skip(y as int).drop_first() =~= cur.skip(y as int + 1));
            }
            if complete {
                proof {
                    // the suffix loses its complete head row
                    assert(remove_full_rows(cur.skip(y as int)) == remove_full_rows(
                        cur.skip(y as int + 1),
                    ));
                    // one more removal still stays within the total cleared count
                    lemma_remove_full_rows_props(cur.skip(y as int + 1));
                    assert(kept.len() >= y);
                    assert(remove_full_rows(cur.skip(y as int + 1)).len() <= cur.len() - y - 1);
                    assert(m0.len() - cur.len() + 1 <= spec_cleared_rows(m0));
                    lemma_mul_inequality(
                        m0.len() - cur.len() + 1,
                        spec_cleared_rows(m0),
                        lv0,
                    );
                    assert((m0.len() - cur.len() + 1) * lv0 == score_add + lv0) by (nonlinear_arith)
                        requires
                            score_add == (m0.len() - cur.len()) * lv0,
                    ;
                    assert(score_add + lv0 <= spec_cleared_rows(m0) * lv0);
                    assert(spec_cleared_rows(m0) * lv0 <= spec_line_score(m0, lv0));
                }
                score_add += self.current_level;
                self.game_map.remove(y);
                proof {
                    assert(self.map_view() =~= cur.remove(y as int));
                    assert(self.map_view().take(y as int) =~= cur.take(y as int));
                    assert(self.map_view().skip(y as int) =~= cur.skip(y as int + 1));
                    assert((m0.len() - cur.len() + 1) * lv0 == (m0.len() - cur.len()) * lv0 + lv0)
                        by (nonlinear_arith);
                }
            } else {
                proof {
                    assert(remove_full_rows(cur.skip(y as int)) == seq![cur[y as int]]
                        + remove_full_rows(cur.skip(y as int + 1)));
                    assert(cur.take(y as int + 1) =~= cur.take(y as int) + seq![cur[y as int]]);
                    assert(cur.take(y as int) + (seq![cur[y as int]] + remove_full_rows(
                        cur.skip(y as int + 1),
                    )) =~= cur.take(y as int + 1) + remove_full_rows(cur.skip(y as int + 1)));
                }
                y = y + 1;
            }
        }
        proof {
            let cur = self.map_view();
            assert(cur.take(y as int) =~= cur);
            assert(cur.skip(y as int) =~= Seq::<Seq<u8>>::empty());
            assert(remove_full_rows(Seq::<Seq<u8>>::empty()) =~= Seq::<Seq<u8>>::empty());
            assert(kept =~= cur);
            assert(m0.len() - cur.len() == spec_cleared_rows(m0));
        }
        if self.game_map.len() == 0 {
            score_add += 1000;
        }
        proof {
            assert(score_add == spec_line_score(m0, lv0));
        }
        self.update_score(score_add);

        let ghost nl0 = pre.num_lines as int;
        proof {
            assert(self.map_view() =~= Seq::new(0nat, |r: int| empty_row()) + kept);
        }
        while self.game_map.len() < GRID_HEIGHT
            invariant
                kept == remove_full_rows(m0),
                kept.len() <= self.game_map@.len() <= GRID_HEIGHT,
                m0.len() == GRID_HEIGHT,
                spec_cleared_rows(m0) == GRID_HEIGHT - kept.len(),
                nl0 + spec_cleared_rows(m0) <= u32::MAX,
                self.map_view() == Seq::new(
                    (self.game_map@.len() - kept.len()) as nat,
                    |r: int| empty_row(),
                ) + kept,
                spec_line_steps(nl0, lv0, (self.game_map@.len() - kept.len()) as nat) == (
                    self.num_lines as int,
                    self.current_level as int,
                ),
                lv0 >= 1,
                self.current_level >= lv0,
                self.score == pre.score + spec_line_score(m0, lv0),
                self.current_piece == pre.current_piece,
                self.prev_kind == pre.prev_kind,
            decreases GRID_HEIGHT - self.game_map@.len(),
        {
            let ghost k = (self.game_map@.len() - kept.len()) as nat;
            proof {
                lemma_line_steps_props(nl0, lv0, k);
                lemma_line_steps_snoc(nl0, lv0, k);
            }
            self.increase_line();
            let ghost mid = self.map_view();
            self.game_map.insert(0, empty_game_row());
            proof {
                assert(self.map_view() =~= seq![empty_row()] + mid);
                assert(self.map_view() =~= Seq::new((k + 1) as nat, |r: int| empty_row()) + kept);
            }
        }
        proof {
            assert(self.game_map@.len() == GRID_HEIGHT);
            assert((self.game_map@.len() - kept.len()) as nat == spec_cleared_rows(m0) as nat);
            lemma_line_steps_props(nl0, lv0, spec_cleared_rows(m0) as nat);
            lemma_remove_full_rows_props(m0);
            assert forall|r: int| 0 <= r < self.map_view().len() implies (
            #[trigger] self.map_view()[r]).len() == GRID_WIDTH by {
                if r >= spec_cleared_rows(m0) {
                    let i = r - spec_cleared_rows(m0);
                    assert(self.map_view()[r] == kept[i]);
                    let j = choose|j: int| 0 <= j < m0.len() && #[trigger] kept[i] == m0[j];
                    assert(m0[j].len() == GRID_WIDTH);
                }
            }
        }
    }

    /// Locks the active piece: writes every filled cell of its current
    /// rotation state that lies inside the grid (cells outside are silently
    /// skipped), awards the level as a per-lock bonus, runs the line-clear
    /// scan, and clears the active piece.  With no active piece only the
    /// scan runs.
    pub fn make_permanent(&mut self)
        requires
            old(self).wf(),
            old(self).score + spec_lock_bonus(*old(self)) + spec_line_score(
                spec_locked_map(*old(self)),
                old(self).current_level as int,
            ) <= u32::MAX,
            old(self).num_lines + spec_cleared_rows(spec_locked_map(*old(self))) <= u32::MAX,
        ensures
            final(self).wf(),
            final(self).current_piece is None,
            final(self).map_view() == Seq::new(
                spec_cleared_rows(spec_locked_map(*old(self))) as nat,
                |r: int| empty_row(),
            ) + remove_full_rows(spec_locked_map(*old(self))),
            final(self).score == old(self).score + spec_lock_bonus(*old(self)) + spec_line_score(
                spec_locked_map(*old(self)),
                old(self).current_level as int,
            ),
            ({
                let s = spec_line_steps(
                    old(self).num_lines as int,
                    old(self).current_level as int,
                    spec_cleared_rows(spec_locked_map(*old(self))) as nat,
                );
                final(self).num_lines == s.0 && final(self).current_level == s.1
            }),
            final(self).num_lines >= old(self).num_lines,
            final(self).current_level >= old(self).current_level,
            final(self).score >= old(self).score,
            final(self).prev_kind == old(self).prev_kind,
    {
        let ghost pre = *old(self);
        let ghost m0 = pre.map_view();
        let ghost locked = spec_locked_map(pre);
        let mut to_add: u32 = 0;
        let piece_opt = self.current_piece.take();
        match &piece_opt {
            Some(piece) => {
                let ghost shape = piece.current_shape();
                let ghost px = piece.x as int;
                let ghost py = piece.y as int;
                proof {
                    assert(locked == lock_into(m0, shape, px, py));
                    assert(self.map_view() =~~= locked_upto(m0, shape, px, py, 0, 0));
                }
                let mut shift_y: usize = 0;
                while shift_y < 4
                    invariant
                        shift_y <= 4,
                        piece.wf(),
                        shape == piece.current_shape(),
                        px == piece.x as int,
                        py == piece.y as int,
                        map_wf(m0),
                        self.map_view() == locked_upto(m0, shape, px, py, shift_y as int, 0),
                        self.current_level == pre.current_level,
                        self.score == pre.score,
                        self.num_lines == pre.num_lines,
                        self.current_piece is None,
                        self.prev_kind == pre.prev_kind,
                    decreases 4 - shift_y,
                {
                    let mut shift_x: usize = 0;
                    while shift_x < 4
                        invariant
                            shift_y < 4,
                            shift_x <= 4,
                            piece.wf(),
                            shape == piece.current_shape(),
                            px == piece.x as int,
                            py == piece.y as int,
                            map_wf(m0),
                            self.map_view() == locked_upto(
                                m0,
                                shape,
                                px,
                                py,
                                shift_y as int,
                                shift_x as int,
                            ),
                            self.current_level == pre.current_level,
                            self.score == pre.score,
                            self.num_lines == pre.num_lines,
                            self.current_piece is None,
                            self.prev_kind == pre.prev_kind,
                        decreases 4 - shift_x,
                    {
                        let ghost before = self.map_view();
                        proof {
                            assert(shape == piece.states@[piece.current_state as int].deep_view());
                            assert(shape[shift_y as int] == piece.states@[piece.current_state as int]@[shift_y as int].deep_view());
                            assert(shape[shift_y as int][shift_x as int]
                                == piece.states@[piece.current_state as int]@[shift_y as int]@[shift_x as int]);
                        }
                        let cell = piece.states[piece.current_state as usize][shift_y][shift_x];
                        if cell != 0 {
                            let row_i: u128 = piece.y as u128 + shift_y as u128;
                            let col_i: i128 = piece.x as i128 + shift_x as i128;
                            if row_i < GRID_HEIGHT as u128 && 0 <= col_i && col_i < GRID_WIDTH
                                as i128 {
                                let r = piece.y + shift_y;
                                let c = col_i as usize;
                                proof {
                                    assert(before.len() == GRID_HEIGHT);
                                    assert(before[r as int].len() == GRID_WIDTH);
                                    assert(self.game_map@[r as int]@.len() == before[r as int].len());
                                }
                                set_cell(&mut self.game_map, r, c, cell);
                                proof {
                                    assert forall|ri: int, ci: int|
                                        0 <= ri < GRID_HEIGHT && 0 <= ci
                                            < GRID_WIDTH implies self.map_view()[ri][ci]
                                        == locked_upto(
                                        m0,
                                        shape,
                                        px,
                                        py,
                                        shift_y as int,
                                        shift_x as int + 1,
                                    )[ri][ci] by {
                                        assert(self.map_view()[ri][ci] == if ri == r as int && ci
                                            == c as int {
                                            cell
                                        } else {
                                            before[ri][ci]
                                        });
                                    }
                                    assert forall|ri: int|
                                        0 <= ri < GRID_HEIGHT implies self.map_view()[ri]
                                        =~= locked_upto(
                                        m0,
                                        shape,
                                        px,
                                        py,
                                        shift_y as int,
                                        shift_x as int + 1,
                                    )[ri] by {}
                                    assert(self.map_view() =~= locked_upto(
                                        m0,
                                        shape,
                                        px,
                                        py,
                                        shift_y as int,
                                        shift_x as int + 1,
                                    ));
                                }
                            } else {
                                proof {
                                    assert(self.map_view() =~~= locked_upto(
                                        m0,
                                        shape,
                                        px,
                                        py,
                                        shift_y as int,
                                        shift_x as int + 1,
                                    ));
                                }
                            }
                        } else {
                            proof {
                                assert(self.map_view() =~~= locked_upto(
                                    m0,
                                    shape,
                                    px,
                                    py,
                                    shift_y as int,
                                    shift_x as int + 1,
                                ));
                            }
                        }
                        shift_x = shift_x + 1;
                    }
                    proof {
                        assert(locked_upto(m0, shape, px, py, shift_y as int, 4) =~~= locked_upto(
                            m0,
                            shape,
                            px,
                            py,
                            shift_y as int + 1,
                            0,
                        ));
                    }
                    shift_y = shift_y + 1;
                }
                proof {
                    assert(locked_upto(m0, shape, px, py, 4, 0) =~~= lock_into(m0, shape, px, py));
                }
                to_add = self.current_level;
            },
            None => {
                proof {
                    assert(locked == m0);
                }
            },
        }
        proof {
            assert(self.map_view() == locked);
            assert(map_wf(locked));
            lemma_remove_full_rows_props(locked);
            assert(spec_cleared_rows(locked) >= 0);
            lemma_mul_inequality(0, spec_cleared_rows(locked), pre.current_level as int);
            assert(spec_line_score(locked, pre.current_level as int) >= 0);
        }
        self.update_score(to_add);
        self.check_lines();
        self.current_piece = None;
    }

    /// Spawns a fresh piece: asks the selector for a kind, feeding back the
    /// previously spawned kind so an immediate repeat is redrawn once, then
    /// remembers the emitted kind and builds its piece at the kind's spawn
    /// origin and rotation state 0.  Spawning does not check legality; the
    /// caller must test the position and treat a failure as game over.
    pub fn create_new_tetrimino(&mut self) -> (t: Tetrimino)
        ensures
            t.wf(),
            t.y == 0,
            t.current_state == 0,
            exists|k: PieceKind|
                #[trigger] kind_states(k) == t.states.deep_view() && t.x == kind_spawn_x(k)
                    && final(self).prev_kind == Some(k),
            *final(self) == (Tetris { prev_kind: final(self).prev_kind, ..*old(self) }),
    {
        let kind = random_next(self.prev_kind);
        self.prev_kind = Some(kind);
        let t = match kind {
            PieceKind::I => TetriminoI::new(),
            PieceKind::J => TetriminoJ::new(),
            PieceKind::L => TetriminoL::new(),
            PieceKind::O => TetriminoO::new(),
            PieceKind::S => TetriminoS::new(),
            PieceKind::Z => TetriminoZ::new(),
            PieceKind::T => TetriminoT::new(),
        };
        proof {
            assert(kind_states(kind) == t.states.deep_view() && t.x == kind_spawn_x(kind)
                && self.prev_kind == Some(kind));
        }
        t
    }
}

/// One empty grid row, built cell by cell.
fn empty_game_row() -> (v: Vec<u8>)
    ensures
        v.deep_view() == empty_row(),
{
    let mut v: Vec<u8> = Vec::new();
    let mut c: usize = 0;
    while c < GRID_WIDTH
        invariant
            c <= GRID_WIDTH,
            v@.len() == c,
            forall|i: int| 0 <= i < c ==> v@[i] == 0u8,
        decreases GRID_WIDTH - c,
    {
        v.push(0u8);
        c = c + 1;
    }
    proof {
        assert(v.deep_view() =~= empty_row());
    }
    v
}

/// The fall interval in milliseconds for a level: the fixed 10-entry table
/// 1000, 850, 700, 600, 500, 400, 300, 250, 221, 190 for levels 1 through
/// 10; levels above 10 reuse the last entry.
pub open spec fn spec_level_time_ms(level: int) -> int {
    if level <= 1 {
        1000
    } else if level == 2 {
        850
    } else if level == 3 {
        700
    } else if level == 4 {
        600
    } else if level == 5 {
        500
    } else if level == 6 {
        400
    } else if level == 7 {
        300
    } else if level == 8 {
        250
    } else if level == 9 {
        221
    } else {
        190
    }
}

/// Whether the elapsed time since the last gravity step exceeds the fall
/// interval of the board's current level.  The driver reads the clock and
/// hands the elapsed milliseconds in.
pub fn is_time_over(tetris: &Tetris, elapsed_ms: u32) -> (r: bool)
    requires
        tetris.current_level >= 1,
    ensures
        r == (elapsed_ms > spec_level_time_ms(tetris.current_level as int)),
{
    let interval: u32 = match tetris.current_level {
        1 => 1000,
        2 => 850,
        3 => 700,
        4 => 600,
        5 => 500,
        6 => 400,
        7 => 300,
        8 => 250,
        9 => 221,
        _ => 190,
    };
    elapsed_ms > interval
}

} // verus!
