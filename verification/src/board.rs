use vstd::prelude::*;

use crate::cell::Cell;
use crate::piece::{
    generator_shaped, grown_connected, is_rotation_of, spawn_clearance, spec_rotate_2d, Piece,
    MAX_PIECE_CELLS, MIN_PIECE_CELLS,
};
use crate::rng::RandomNumberGenerator;

verus! {

/// Largest board width or height the engine accepts; keeps all coordinate
/// arithmetic comfortably inside the fixed-width integer types.
pub const MAX_BOARD_DIM: usize = 100_000;

/// One horizontal line of the board: a fixed-width sequence of optional
/// cells plus a cached emptiness flag.
#[derive(Debug)]
pub struct Row {
    pub cells: Vec<Option<Cell>>,
    /// Cached: true iff every slot is `None`; kept consistent on every
    /// mutation the engine makes.
    pub is_empty: bool,
}

/// Every slot of the line is unoccupied.
pub open spec fn slots_all_none(s: Seq<Option<Cell>>) -> bool {
    forall|j: int| 0 <= j < s.len() ==> (#[trigger] s[j]) is None
}

/// Every slot of the line is occupied.
pub open spec fn slots_all_some(s: Seq<Option<Cell>>) -> bool {
    forall|j: int| 0 <= j < s.len() ==> (#[trigger] s[j]) is Some
}

/// Every slot of the row is unoccupied.
pub open spec fn row_cleared(r: Row) -> bool {
    slots_all_none(r.cells@)
}

/// Every slot of the row is occupied.
pub open spec fn row_full(r: Row) -> bool {
    slots_all_some(r.cells@)
}

impl Row {
    /// The cached flag agrees with the contents on every mutation.
    pub open spec fn wf(self) -> bool {
        self.is_empty <==> row_cleared(self)
    }

    fn new(width: usize) -> (r: Row)
        ensures
            r.cells@.len() == width,
            row_cleared(r),
            r.wf(),
    {
        let mut cells: Vec<Option<Cell>> = Vec::new();
        let mut j: usize = 0;
        while j < width
            invariant
                j <= width,
                cells@.len() == j,
                forall|k: int| 0 <= k < j ==> (#[trigger] cells@[k]) is None,
            decreases width - j,
        {
            cells.push(None);
            j = j + 1;
        }
        Row { cells, is_empty: true }
    }

    fn reset(&mut self)
        ensures
            final(self).cells@.len() == old(self).cells@.len(),
            row_cleared(*final(self)),
            final(self).wf(),
    {
        let mut j: usize = 0;
        while j < self.cells.len()
            invariant
                j <= self.cells@.len(),
                self.cells@.len() == old(self).cells@.len(),
                forall|k: int| 0 <= k < j ==> (#[trigger] self.cells@[k]) is None,
            decreases self.cells@.len() - j,
        {
            self.cells.set(j, None);
            j = j + 1;
        }
        self.is_empty = true;
    }
}

/// A mutable handle on one row of the grid.
fn grid_row_mut(g: &mut Vec<Row>, i: usize) -> (r: &mut Row)
    requires
        i < old(g).len(),
    ensures
        *r == old(g)@[i as int],
        final(g)@ == old(g)@.update(i as int, *final(r)),
{
    &mut g[i]
}

/// The orchestrator: owns the grid of rows, the active falling piece and
/// its anchor, the monotonically increasing row-clear counter, and the
/// liveness flag that turns false exactly when a freshly spawned piece does
/// not fit.
#[derive(Debug)]
pub struct GameState {
    pub rng: RandomNumberGenerator,
    /// Indexing: `cell_matrix[y].cells[x]`; row 0 is the top.
    pub cell_matrix: Vec<Row>,
    pub cell_matrix_width: usize,
    /// `None` only transiently between a landing and the next spawn, or
    /// permanently once `is_alive` is false.
    pub current_piece: Option<Piece>,
    /// Global coordinates of the center of mass of the active piece; the
    /// anchor itself need not be an occupied cell.
    pub current_piece_mass_xy: (i32, i32),
    /// Number of rows cleared so far; never decremented.
    pub rows_cleared: u32,
    pub is_alive: bool,
}

impl GameState {
    pub open spec fn height(self) -> int {
        self.cell_matrix@.len() as int
    }

    pub open spec fn width(self) -> int {
        self.cell_matrix_width as int
    }

    /// The grid is a rectangle of well-formed rows within the size cap.
    pub open spec fn grid_wf(self) -> bool {
        &&& 1 <= self.cell_matrix_width <= MAX_BOARD_DIM
        &&& 1 <= self.cell_matrix@.len() <= MAX_BOARD_DIM
        &&& forall|i: int|
            0 <= i < self.height() ==> (#[trigger] self.cell_matrix@[i]).cells@.len()
                == self.cell_matrix_width && self.cell_matrix@[i].wf()
    }

    /// Position `(x, y)` lies on the board and its slot is unoccupied.
    pub open spec fn cell_free(self, x: int, y: int) -> bool {
        &&& 0 <= x < self.width()
        &&& 0 <= y < self.height()
        &&& self.cell_matrix@[y].cells@[x] is None
    }

    /// Every projected cell of `p`, anchored at `(ax, ay)`, lands on a free
    /// board position.
    pub open spec fn placeable(self, p: Piece, ax: int, ay: int) -> bool {
        forall|i: int|
            0 <= i < p.cells@.len() ==> self.cell_free(
                ax + (#[trigger] p.cells@[i]).x - p.center_of_mass_x,
                ay + p.cells@[i].y - p.center_of_mass_y,
            )
    }

    pub open spec fn anchor_x(self) -> int {
        self.current_piece_mass_xy.0 as int
    }

    pub open spec fn anchor_y(self) -> int {
        self.current_piece_mass_xy.1 as int
    }

    /// Validity of a whole game state: rectangular well-formed grid, an
    /// active piece (if any) that legally sits at its anchor, and no active
    /// piece once the game is over.
    pub open spec fn wf(self) -> bool {
        &&& self.grid_wf()
        &&& match self.current_piece {
            Some(p) => p.wf() && self.placeable(p, self.anchor_x(), self.anchor_y()),
            None => true,
        }
        &&& !self.is_alive ==> self.current_piece is None
    }

    /// Placement legality: true iff every projected cell of `p` anchored at
    /// `xy` is in-bounds and lands on an empty slot. No side effects.
    pub fn can_place(&self, p: &Piece, xy: (i32, i32)) -> (r: bool)
        requires
            self.grid_wf(),
            p.wf(),
        ensures
            r == self.placeable(*p, xy.0 as int, xy.1 as int),
    {
        let mut i: usize = 0;
        while i < p.cells.len()
            invariant
                self.grid_wf(),
                p.wf(),
                i <= p.cells@.len(),
                forall|k: int|
                    0 <= k < i ==> self.cell_free(
                        xy.0 as int + (#[trigger] p.cells@[k]).x - p.center_of_mass_x,
                        xy.1 as int + p.cells@[k].y - p.center_of_mass_y,
                    ),
            decreases p.cells@.len() - i,
        {
            let c = p.cells[i];
            let gx: i64 = xy.0 as i64 + (c.x as i64 - p.center_of_mass_x as i64);
            let gy: i64 = xy.1 as i64 + (c.y as i64 - p.center_of_mass_y as i64);
            if gx < 0 || gy < 0 {
                return false;
            }
            if gy >= self.cell_matrix.len() as i64 || gx >= self.cell_matrix_width as i64 {
                return false;
            }
            let row = &self.cell_matrix[gy as usize];
            if row.cells[gx as usize].is_some() {
                return false;
            }
            i = i + 1;
        }
        true
    }
}

/// The grid as pure data: one sequence of optional cells per row, top row
/// first. All placement and clearing contracts are stated over this model.
impl GameState {
    pub open spec fn grid_model(self) -> Seq<Seq<Option<Cell>>> {
        self.cell_matrix@.map(|i: int, r: Row| r.cells@)
    }
}

/// The grid model after writing the first `n` cells of `p`, anchored at
/// `(ax, ay)`, into their projected positions, in order.
pub open spec fn committed_upto(
    g: Seq<Seq<Option<Cell>>>,
    p: Piece,
    ax: int,
    ay: int,
    n: int,
) -> Seq<Seq<Option<Cell>>>
    decreases n,
{
    if n <= 0 {
        g
    } else {
        let g1 = committed_upto(g, p, ax, ay, n - 1);
        let gx = ax + p.cells@[n - 1].x - p.center_of_mass_x;
        let gy = ay + p.cells@[n - 1].y - p.center_of_mass_y;
        g1.update(gy, g1[gy].update(gx, Some(p.cells@[n - 1].cell)))
    }
}

/// The grid model after writing every cell of `p` into the grid.
pub open spec fn committed(g: Seq<Seq<Option<Cell>>>, p: Piece, ax: int, ay: int) -> Seq<
    Seq<Option<Cell>>,
> {
    committed_upto(g, p, ax, ay, p.cells@.len() as int)
}

impl GameState {
    /// Writes the active piece's cells into the grid at their projected
    /// positions, marking each touched row non-empty, and retires the piece.
    /// Placement must have been validated beforehand, which the state
    /// invariant guarantees. Without an active piece this is a no-op.
    pub fn commit_current_piece(&mut self)
        requires
            old(self).wf(),
        ensures
            final(self).wf(),
            final(self).current_piece is None,
            final(self).cell_matrix_width == old(self).cell_matrix_width,
            final(self).cell_matrix@.len() == old(self).cell_matrix@.len(),
            final(self).rows_cleared == old(self).rows_cleared,
            final(self).is_alive == old(self).is_alive,
            final(self).current_piece_mass_xy == old(self).current_piece_mass_xy,
            old(self).current_piece is None ==> *final(self) == *old(self),
            old(self).current_piece matches Some(p) ==> final(self).grid_model() == committed(
                old(self).grid_model(),
                p,
                old(self).anchor_x(),
                old(self).anchor_y(),
            ),
    {
        let ghost g0 = self.grid_model();
        let ghost ax = self.anchor_x();
        let ghost ay = self.anchor_y();
        let p_opt = self.current_piece.take();
        match p_opt {
            None => {},
            Some(p) => {
                let mut i: usize = 0;
                while i < p.cells.len()
                    invariant
                        i <= p.cells@.len(),
                        p.wf(),
                        self.grid_wf(),
                        self.cell_matrix_width == old(self).cell_matrix_width,
                        self.cell_matrix@.len() == old(self).cell_matrix@.len(),
                        self.current_piece is None,
                        self.rows_cleared == old(self).rows_cleared,
                        self.is_alive == old(self).is_alive,
                        self.current_piece_mass_xy == old(self).current_piece_mass_xy,
                        self.rng == old(self).rng,
                        old(self).grid_wf(),
                        old(self).placeable(p, ax, ay),
                        ax == old(self).anchor_x(),
                        ay == old(self).anchor_y(),
                        g0 == old(self).grid_model(),
                        self.grid_model() == committed_upto(g0, p, ax, ay, i as int),
                    decreases p.cells@.len() - i,
                {
                    let c = p.cells[i];
                    proof {
                        assert(old(self).cell_free(
                            ax + (#[trigger] p.cells@[i as int]).x - p.center_of_mass_x,
                            ay + p.cells@[i as int].y - p.center_of_mass_y,
                        ));
                    }
                    let gx = self.current_piece_mass_xy.0 + (c.x - p.center_of_mass_x);
                    let gy = self.current_piece_mass_xy.1 + (c.y - p.center_of_mass_y);
                    let gxu = gx as usize;
                    let gyu = gy as usize;
                    let ghost gpre = self.grid_model();
                    let row = grid_row_mut(&mut self.cell_matrix, gyu);
                    row.cells.set(gxu, Some(c.cell));
                    row.is_empty = false;
                    proof {
                        assert(!row_cleared(self.cell_matrix@[gyu as int])) by {
                            assert(self.cell_matrix@[gyu as int].cells@[gxu as int] is Some);
                        }
                        assert(self.grid_model() =~= committed_upto(g0, p, ax, ay, i as int + 1))
                            by {
                            assert(self.grid_model() =~= gpre.update(
                                gyu as int,
                                gpre[gyu as int].update(gxu as int, Some(p.cells@[i as int].cell)),
                            ));
                        }
                    }
                    i = i + 1;
                }
            },
        }
    }
}

/// Number of rows among the first `n` that hold at least one cell.
pub open spec fn count_occupied_rows(g: Seq<Row>, n: int) -> int
    decreases n,
{
    if n <= 0 {
        0
    } else {
        count_occupied_rows(g, n - 1) + (if row_cleared(g[n - 1]) {
            0int
        } else {
            1int
        })
    }
}

/// Number of rows among the first `n` that are completely occupied.
pub open spec fn count_full_rows(g: Seq<Row>, n: int) -> int
    decreases n,
{
    if n <= 0 {
        0
    } else {
        count_full_rows(g, n - 1) + (if row_full(g[n - 1]) {
            1int
        } else {
            0int
        })
    }
}

/// No row of the grid is completely occupied.
pub open spec fn no_full_row(g: Seq<Row>) -> bool {
    forall|i: int| 0 <= i < g.len() ==> !row_full(#[trigger] g[i])
}

proof fn lemma_count_full_zero(g: Seq<Row>, n: int)
    requires
        0 <= n <= g.len(),
        no_full_row(g),
    ensures
        count_full_rows(g, n) == 0,
    decreases n,
{
    if n > 0 {
        lemma_count_full_zero(g, n - 1);
    }
}

/// All empty rows sit above all occupied rows — the shape every reachable
/// grid has, since pieces land on the stack and collapse pushes empty rows
/// to the top.
pub open spec fn settled(g: Seq<Row>) -> bool {
    forall|i: int, j: int|
        0 <= i < j < g.len() && row_cleared(#[trigger] g[j]) ==> row_cleared(#[trigger] g[i])
}

/// Row `f` is completely occupied and no other row is.
pub open spec fn only_full_at(g: Seq<Row>, f: int) -> bool {
    &&& 0 <= f < g.len()
    &&& row_full(g[f])
    &&& forall|i: int| 0 <= i < g.len() && i != f ==> !row_full(#[trigger] g[i])
}

/// A line of `w` empty slots.
pub open spec fn cleared_row_model(w: int) -> Seq<Option<Cell>> {
    Seq::new(w as nat, |j: int| None)
}

/// The grid model after deleting row `f` and sliding every row above it
/// down by one, with a fresh empty row on top.
pub open spec fn clear_shift_model(gm: Seq<Seq<Option<Cell>>>, f: int, w: int) -> Seq<
    Seq<Option<Cell>>,
> {
    Seq::new(
        gm.len(),
        |j: int|
            if j == 0 {
                cleared_row_model(w)
            } else if j <= f {
                gm[j - 1]
            } else {
                gm[j]
            },
    )
}

/// Number of rows among the first `n` that are entirely empty.
pub open spec fn count_cleared_rows(g: Seq<Row>, n: int) -> int
    decreases n,
{
    if n <= 0 {
        0
    } else {
        count_cleared_rows(g, n - 1) + (if row_cleared(g[n - 1]) {
            1int
        } else {
            0int
        })
    }
}

/// The models of the rows that survive clearing: every row that is not
/// completely occupied, in order.
pub open spec fn kept_rows_model(gm: Seq<Seq<Option<Cell>>>) -> Seq<Seq<Option<Cell>>>
    decreases gm.len(),
{
    if gm.len() == 0 {
        gm
    } else {
        let rest = kept_rows_model(gm.drop_last());
        if !slots_all_some(gm.last()) {
            rest.push(gm.last())
        } else {
            rest
        }
    }
}

/// The grid model after deleting every completely occupied row and
/// prepending one fresh empty row per deletion — the net effect of a whole
/// clearing call on a settled grid.
pub open spec fn full_rows_dropped_model(gm: Seq<Seq<Option<Cell>>>, w: int) -> Seq<
    Seq<Option<Cell>>,
> {
    let kept = kept_rows_model(gm);
    Seq::new((gm.len() - kept.len()) as nat, |j: int| cleared_row_model(w)) + kept
}

proof fn lemma_kept_push(gm: Seq<Seq<Option<Cell>>>, x: Seq<Option<Cell>>)
    ensures
        kept_rows_model(gm.push(x)) == (if !slots_all_some(x) {
            kept_rows_model(gm).push(x)
        } else {
            kept_rows_model(gm)
        }),
{
    assert(gm.push(x).drop_last() =~= gm);
    assert(gm.push(x).last() == x);
}

proof fn lemma_count_full_prefix_zero(g: Seq<Row>, n: int)
    requires
        0 <= n <= g.len(),
        forall|j: int| 0 <= j < n ==> !row_full(#[trigger] g[j]),
    ensures
        count_full_rows(g, n) == 0,
    decreases n,
{
    if n > 0 {
        lemma_count_full_prefix_zero(g, n - 1);
    }
}

proof fn lemma_count_cleared_prefix_all(g: Seq<Row>, n: int)
    requires
        0 <= n <= g.len(),
        forall|j: int| 0 <= j < n ==> row_cleared(#[trigger] g[j]),
    ensures
        count_cleared_rows(g, n) == n,
    decreases n,
{
    if n > 0 {
        lemma_count_cleared_prefix_all(g, n - 1);
    }
}

proof fn lemma_cleared_plus_full_le(g: Seq<Row>, n: int)
    requires
        0 <= n <= g.len(),
        forall|j: int| 0 <= j < g.len() ==> (#[trigger] g[j]).cells@.len() >= 1,
    ensures
        0 <= count_cleared_rows(g, n),
        0 <= count_full_rows(g, n),
        count_cleared_rows(g, n) + count_full_rows(g, n) <= n,
    decreases n,
{
    if n > 0 {
        lemma_cleared_plus_full_le(g, n - 1);
        if row_cleared(g[n - 1]) && row_full(g[n - 1]) {
            assert(g[n - 1].cells@[0] is None);
            assert(g[n - 1].cells@[0] is Some);
        }
    }
}

/// Mid-scan shape of the grid model over a settled starting grid: the
/// scanned prefix holds one fresh empty row per full row met so far,
/// followed by the surviving scanned rows in order, whose empty members
/// (the settled grid's own empty prefix) still come first.
spec fn settled_scan_shape(
    cur: Seq<Seq<Option<Cell>>>,
    gm0: Seq<Seq<Option<Cell>>>,
    g0: Seq<Row>,
    i: int,
    w: int,
) -> bool {
    let kept = kept_rows_model(gm0.take(i));
    let c = count_full_rows(g0, i);
    let e = count_cleared_rows(g0, i);
    &&& kept.len() == i - c
    &&& 0 <= c
    &&& forall|j: int| 0 <= j < c ==> slots_all_none(#[trigger] cur[j])
    &&& forall|j: int| c <= j < i ==> #[trigger] cur[j] == kept[j - c]
    &&& forall|t: int| 0 <= t < kept.len() ==> (slots_all_none(#[trigger] kept[t]) <==> t < e)
}

/// Scanning past a row that is not full extends the shape by that row.
proof fn lemma_scan_shape_keep(
    cur: Seq<Seq<Option<Cell>>>,
    gm0: Seq<Seq<Option<Cell>>>,
    g0: Seq<Row>,
    i: int,
    w: int,
)
    requires
        settled_scan_shape(cur, gm0, g0, i, w),
        0 <= i < g0.len(),
        gm0.len() == g0.len(),
        forall|j: int| 0 <= j < g0.len() ==> #[trigger] gm0[j] == g0[j].cells@,
        forall|j: int| 0 <= j < g0.len() ==> (#[trigger] g0[j]).cells@.len() == w,
        1 <= w,
        settled(g0),
        cur[i] == gm0[i],
        !row_full(g0[i]),
    ensures
        settled_scan_shape(cur, gm0, g0, i + 1, w),
{
    let kept = kept_rows_model(gm0.take(i));
    let kept1 = kept_rows_model(gm0.take(i + 1));
    let c = count_full_rows(g0, i);
    let e = count_cleared_rows(g0, i);
    assert(gm0.take(i + 1) =~= gm0.take(i).push(gm0[i]));
    lemma_kept_push(gm0.take(i), gm0[i]);
    assert(!slots_all_some(gm0[i]));
    assert(kept1 == kept.push(gm0[i]));
    assert(count_full_rows(g0, i + 1) == c);
    if row_cleared(g0[i]) {
        // a settled grid has all its empty rows on top, so everything
        // scanned so far was empty too
        assert forall|j: int| 0 <= j < i implies row_cleared(#[trigger] g0[j]) by {}
        assert forall|j: int| 0 <= j < i implies !row_full(#[trigger] g0[j]) by {
            assert(g0[j].cells@[0] is None);
        }
        lemma_count_full_prefix_zero(g0, i);
        lemma_count_cleared_prefix_all(g0, i);
        assert(c == 0 && e == i);
        assert(slots_all_none(gm0[i]));
        assert(count_cleared_rows(g0, i + 1) == e + 1);
        assert forall|t: int| 0 <= t < kept1.len() implies (slots_all_none(#[trigger] kept1[t])
            <==> t < e + 1) by {
            if t < kept.len() {
                assert(kept1[t] == kept[t]);
            } else {
                assert(kept1[t] == gm0[i]);
            }
        }
    } else {
        assert(count_cleared_rows(g0, i + 1) == e);
        assert(!slots_all_none(gm0[i]));
        // the new survivor is occupied, and lands after the empty ones:
        // no scanned row is both empty and full, so the empty count fits
        // inside the survivors
        assert(e <= kept.len()) by {
            lemma_cleared_plus_full_le(g0, i);
        }
        assert forall|t: int| 0 <= t < kept1.len() implies (slots_all_none(#[trigger] kept1[t])
            <==> t < e) by {
            if t < kept.len() {
                assert(kept1[t] == kept[t]);
            } else {
                assert(kept1[t] == gm0[i]);
            }
        }
    }
    assert forall|j: int| c <= j < i + 1 implies #[trigger] cur[j] == kept1[j - c] by {
        if j < i {
            assert(cur[j] == kept[j - c]);
            assert(kept1[j - c] == kept[j - c]);
        } else {
            assert(kept1[i - c] == gm0[i]);
        }
    }
}

/// Clearing the full row met at `i` and parking it at the collapse stop
/// extends the shape: one more fresh empty row sits on top of the block.
proof fn lemma_scan_shape_clear(
    pre: Seq<Seq<Option<Cell>>>,
    post: Seq<Seq<Option<Cell>>>,
    gm0: Seq<Seq<Option<Cell>>>,
    g0: Seq<Row>,
    i: int,
    k: int,
    w: int,
)
    requires
        settled_scan_shape(pre, gm0, g0, i, w),
        0 <= i < g0.len(),
        gm0.len() == g0.len(),
        pre.len() == g0.len(),
        post.len() == g0.len(),
        forall|j: int| 0 <= j < g0.len() ==> #[trigger] gm0[j] == g0[j].cells@,
        forall|j: int| 0 <= j < g0.len() ==> (#[trigger] g0[j]).cells@.len() == w,
        forall|j: int| 0 <= j < pre.len() ==> (#[trigger] pre[j]).len() == w,
        1 <= w,
        settled(g0),
        forall|j: int| i <= j < g0.len() ==> #[trigger] pre[j] == gm0[j],
        row_full(g0[i]),
        0 <= k <= i,
        forall|j: int| 0 <= j < k ==> #[trigger] post[j] == pre[j],
        forall|j: int| i < j < g0.len() ==> #[trigger] post[j] == pre[j],
        slots_all_none(post[k]),
        post[k].len() == w,
        forall|j: int| k < j <= i ==> #[trigger] post[j] == pre[j - 1],
        forall|j: int| k <= j < i ==> !slots_all_none(#[trigger] pre[j]),
        k == 0 || slots_all_none(pre[k - 1]),
    ensures
        settled_scan_shape(post, gm0, g0, i + 1, w),
{
    let kept = kept_rows_model(gm0.take(i));
    let kept1 = kept_rows_model(gm0.take(i + 1));
    let c = count_full_rows(g0, i);
    let e = count_cleared_rows(g0, i);
    lemma_cleared_plus_full_le(g0, i);
    assert(slots_all_some(gm0[i]));
    assert(gm0.take(i + 1).drop_last() =~= gm0.take(i));
    assert(gm0.take(i + 1).last() == gm0[i]);
    assert(kept1 == kept);
    assert(count_full_rows(g0, i + 1) == c + 1);
    assert(count_cleared_rows(g0, i + 1) == e) by {
        assert(!row_cleared(g0[i])) by {
            assert(g0[i].cells@[0] is Some);
        }
    }
    // the empty positions of the scanned prefix are exactly the first c + e
    assert forall|j: int| 0 <= j < i implies (slots_all_none(#[trigger] pre[j]) <==> j < c
        + e) by {
        if c <= j {
            assert(pre[j] == kept[j - c]);
        }
    }
    // so the collapse parked the fresh row right below them
    assert(k == c + e) by {
        if k < c + e {
            assert(!slots_all_none(pre[k]));
            assert(slots_all_none(pre[k]));
        }
        if k > c + e {
            assert(slots_all_none(pre[k - 1]));
            assert(!slots_all_none(pre[k - 1]));
        }
    }
    assert forall|j: int| 0 <= j < c + 1 implies slots_all_none(#[trigger] post[j]) by {
        if j < k {
        } else {
            assert(j == k);
        }
    }
    assert forall|j: int| c + 1 <= j < i + 1 implies #[trigger] post[j] == kept1[j - c - 1] by {
        if j < k {
            // both sides are empty rows of width `w`
            assert(post[j] == kept[j - c]);
            assert(slots_all_none(kept[j - c]) && kept[j - c].len() == w) by {
                assert(pre[j] == kept[j - c]);
            }
            assert(slots_all_none(kept[j - c - 1]) && kept[j - c - 1].len() == w) by {
                assert(pre[j - 1] == kept[j - c - 1]);
            }
            assert(kept[j - c] =~= kept[j - c - 1]);
        } else if j == k {
            assert(e >= 1);
            assert(slots_all_none(kept[e - 1]) && kept[e - 1].len() == w) by {
                assert(pre[k - 1] == kept[k - 1 - c]);
            }
            assert(post[j] =~= kept[j - c - 1]);
        } else {
            assert(post[j] == pre[j - 1]);
            assert(pre[j - 1] == kept[j - 1 - c]);
        }
    }
}

/// At the end of a scan over a settled grid the shape says: the final model
/// is the starting model with every full row dropped and one fresh empty
/// row per deletion on top.
proof fn lemma_scan_shape_done(
    cur: Seq<Seq<Option<Cell>>>,
    gm0: Seq<Seq<Option<Cell>>>,
    g0: Seq<Row>,
    w: int,
)
    requires
        settled_scan_shape(cur, gm0, g0, g0.len() as int, w),
        gm0.len() == g0.len(),
        cur.len() == g0.len(),
        forall|j: int| 0 <= j < cur.len() ==> (#[trigger] cur[j]).len() == w,
        forall|j: int| 0 <= j < g0.len() ==> (#[trigger] g0[j]).cells@.len() == w,
        1 <= w,
    ensures
        cur == full_rows_dropped_model(gm0, w),
{
    let h = g0.len() as int;
    assert(gm0.take(h) =~= gm0);
    let kept = kept_rows_model(gm0);
    let c = count_full_rows(g0, h);
    assert(kept.len() == h - c);
    assert forall|j: int| 0 <= j < cur.len() implies #[trigger] cur[j] =~= full_rows_dropped_model(
        gm0,
        w,
    )[j] by {
        if j < c {
            assert(slots_all_none(cur[j]));
            assert(full_rows_dropped_model(gm0, w)[j] == cleared_row_model(w));
        } else {
            assert(cur[j] == kept[j - c]);
            assert(full_rows_dropped_model(gm0, w)[j] == kept[j - c]);
        }
    }
    assert(cur =~= full_rows_dropped_model(gm0, w));
}

/// `k` is where the collapse parks a row emptied at `f`: every row of the
/// block strictly between is occupied, and the row just above `k` — if
/// there is one — is empty, so the adjacent-swap loop stops exactly there.
pub open spec fn collapse_stop_at(g: Seq<Row>, f: int, k: int) -> bool {
    &&& 0 <= k <= f
    &&& forall|j: int| k <= j < f ==> !row_cleared(#[trigger] g[j])
    &&& (k == 0 || row_cleared(g[k - 1]))
}

/// The grid model after emptying row `f` and sliding the occupied block
/// `k .. f` down one row, the fresh empty row parking at `k`; rows outside
/// the block are untouched.
pub open spec fn block_shift_model(gm: Seq<Seq<Option<Cell>>>, f: int, k: int, w: int) -> Seq<
    Seq<Option<Cell>>,
> {
    Seq::new(
        gm.len(),
        |j: int|
            if j < k || j > f {
                gm[j]
            } else if j == k {
                cleared_row_model(w)
            } else {
                gm[j - 1]
            },
    )
}

/// On a settled grid the block shift reads as one downward shift of
/// everything above the emptied row: all model rows above the parking spot
/// are empty anyway, so sliding them changes nothing visible.
proof fn lemma_block_shift_is_clear_shift(
    g: Seq<Row>,
    gm: Seq<Seq<Option<Cell>>>,
    f: int,
    k: int,
    w: int,
)
    requires
        gm.len() == g.len(),
        forall|j: int| 0 <= j < g.len() ==> #[trigger] gm[j] == g[j].cells@,
        forall|j: int| 0 <= j < g.len() ==> (#[trigger] g[j]).cells@.len() == w,
        settled(g),
        0 <= f < g.len(),
        collapse_stop_at(g, f, k),
    ensures
        block_shift_model(gm, f, k, w) == clear_shift_model(gm, f, w),
{
    assert forall|j: int| 0 <= j < gm.len() implies #[trigger] block_shift_model(gm, f, k, w)[j]
        =~= clear_shift_model(gm, f, w)[j] by {
        if j < k {
            assert(row_cleared(g[k - 1]));
            assert(row_cleared(g[j]));
            if j > 0 {
                assert(row_cleared(g[j - 1]));
            }
        } else if j == k {
            if j > 0 {
                assert(row_cleared(g[j - 1]));
            }
        }
    }
    assert(block_shift_model(gm, f, k, w) =~= clear_shift_model(gm, f, w));
}

/// The grid with the row at `from` pulled up to position `k`, the rows in
/// between pushed down one place — the net effect of the adjacent-swap
/// collapse loop partway through.
pub open spec fn bubbled(g: Seq<Row>, from: int, k: int) -> Seq<Row> {
    Seq::new(
        g.len(),
        |j: int|
            if j < k || j > from {
                g[j]
            } else if j == k {
                g[from]
            } else {
                g[j - 1]
            },
    )
}

proof fn lemma_count_occupied_le(g: Seq<Row>, n: int)
    requires
        0 <= n <= g.len(),
    ensures
        0 <= count_occupied_rows(g, n) <= n,
    decreases n,
{
    if n > 0 {
        lemma_count_occupied_le(g, n - 1);
    }
}

proof fn lemma_count_occupied_update(g: Seq<Row>, n: int, i: int, r: Row)
    requires
        0 <= i < g.len(),
        0 <= n <= g.len(),
    ensures
        count_occupied_rows(g.update(i, r), n) == count_occupied_rows(g, n) + (if i < n {
            (if row_cleared(r) {
                0int
            } else {
                1int
            }) - (if row_cleared(g[i]) {
                0int
            } else {
                1int
            })
        } else {
            0int
        }),
    decreases n,
{
    if n > 0 {
        lemma_count_occupied_update(g, n - 1, i, r);
        if i != n - 1 {
            assert(g.update(i, r)[n - 1] == g[n - 1]);
        }
    }
}

proof fn lemma_count_occupied_pos(g: Seq<Row>, n: int, i: int)
    requires
        0 <= i < n <= g.len(),
        !row_cleared(g[i]),
    ensures
        count_occupied_rows(g, n) >= 1,
    decreases n,
{
    if i < n - 1 {
        lemma_count_occupied_pos(g, n - 1, i);
    } else {
        lemma_count_occupied_le(g, n - 1);
    }
}

/// Swaps row `k` with the row above it, preserving all row values.
fn grid_swap_up(g: &mut Vec<Row>, k: usize)
    requires
        0 < k < old(g).len(),
    ensures
        final(g)@ == old(g)@.update(k as int, old(g)@[k as int - 1]).update(
            k as int - 1,
            old(g)@[k as int],
        ),
{
    let r = g.remove(k);
    g.insert(k - 1, r);
    proof {
        assert(g@ =~= old(g)@.update(k as int, old(g)@[k as int - 1]).update(
            k as int - 1,
            old(g)@[k as int],
        ));
    }
}

impl GameState {
    /// One top-to-bottom scan: every full row is emptied, counted, and
    /// bubbled upward past occupied rows so that everything above it drops
    /// by one. Returns whether any row was cleared; when nothing was, the
    /// state is untouched.
    #[verifier::rlimit(100)]
    fn clear_pass(&mut self) -> (changed: bool)
        requires
            old(self).grid_wf(),
            old(self).rows_cleared as int + count_occupied_rows(
                old(self).cell_matrix@,
                old(self).height(),
            ) <= u32::MAX as int,
        ensures
            final(self).grid_wf(),
            final(self).cell_matrix_width == old(self).cell_matrix_width,
            final(self).cell_matrix@.len() == old(self).cell_matrix@.len(),
            final(self).current_piece == old(self).current_piece,
            final(self).current_piece_mass_xy == old(self).current_piece_mass_xy,
            final(self).is_alive == old(self).is_alive,
            final(self).rng == old(self).rng,
            final(self).rows_cleared >= old(self).rows_cleared,
            !changed ==> *final(self) == *old(self),
            no_full_row(old(self).cell_matrix@) ==> !changed,
            no_full_row(final(self).cell_matrix@),
            final(self).rows_cleared as int == old(self).rows_cleared as int + count_full_rows(
                old(self).cell_matrix@,
                old(self).height(),
            ),
            final(self).rows_cleared as int + count_occupied_rows(
                final(self).cell_matrix@,
                final(self).height(),
            ) == old(self).rows_cleared as int + count_occupied_rows(
                old(self).cell_matrix@,
                old(self).height(),
            ),
            changed ==> final(self).rows_cleared > old(self).rows_cleared,
            forall|f: int|
                only_full_at(old(self).cell_matrix@, f) ==> changed && final(self).rows_cleared
                    == old(self).rows_cleared + 1 && (exists|k: int|
                    collapse_stop_at(old(self).cell_matrix@, f, k) && final(self).grid_model()
                        == block_shift_model(old(self).grid_model(), f, k, old(self).width())),
            settled(old(self).cell_matrix@) ==> final(self).grid_model() == full_rows_dropped_model(
                old(self).grid_model(),
                old(self).width(),
            ),
            forall|f: int|
                settled(old(self).cell_matrix@) && only_full_at(old(self).cell_matrix@, f)
                    ==> changed && final(self).rows_cleared == old(self).rows_cleared + 1
                    && final(self).grid_model() == clear_shift_model(
                    old(self).grid_model(),
                    f,
                    old(self).width(),
                ),
    {
        let ghost gstart = old(self).cell_matrix@;
        let ghost gm0 = old(self).grid_model();
        let ghost h_special: bool = exists|f: int| only_full_at(gstart, f);
        let ghost s_special: bool = settled(gstart);
        let ghost fx: int = if h_special {
            choose|f: int| only_full_at(gstart, f)
        } else {
            0
        };
        let h = self.cell_matrix.len();
        let mut changed = false;
        let mut i_row: usize = 0;
        proof {
            if s_special {
                assert(kept_rows_model(gm0.take(0)).len() == 0);
                assert(settled_scan_shape(self.grid_model(), gm0, gstart, 0, old(self).width()));
            }
        }
        while i_row < h
            invariant
                old(self).grid_wf(),
                self.grid_wf(),
                h == self.cell_matrix@.len(),
                i_row <= h,
                gstart == old(self).cell_matrix@,
                gm0 == old(self).grid_model(),
                self.cell_matrix_width == old(self).cell_matrix_width,
                self.cell_matrix@.len() == old(self).cell_matrix@.len(),
                self.current_piece == old(self).current_piece,
                self.current_piece_mass_xy == old(self).current_piece_mass_xy,
                self.is_alive == old(self).is_alive,
                self.rng == old(self).rng,
                self.rows_cleared >= old(self).rows_cleared,
                old(self).rows_cleared as int + count_occupied_rows(gstart, h as int)
                    <= u32::MAX as int,
                self.rows_cleared as int + count_occupied_rows(self.cell_matrix@, h as int) == old(
                    self,
                ).rows_cleared as int + count_occupied_rows(gstart, h as int),
                changed <==> self.rows_cleared > old(self).rows_cleared,
                no_full_row(gstart) ==> !changed,
                forall|j: int| i_row <= j < h ==> #[trigger] self.cell_matrix@[j] == gstart[j],
                self.rows_cleared as int == old(self).rows_cleared as int + count_full_rows(
                    gstart,
                    i_row as int,
                ),
                forall|j: int| 0 <= j < i_row ==> !row_full(#[trigger] self.cell_matrix@[j]),
                !changed ==> *self == *old(self) && (forall|k: int|
                    0 <= k < i_row ==> !row_full(#[trigger] gstart[k])),
                forall|j: int|
                    0 <= j < h ==> gstart.contains(#[trigger] self.cell_matrix@[j]) || row_cleared(
                        self.cell_matrix@[j],
                    ),
                h_special == (exists|f: int| only_full_at(gstart, f)),
                h_special ==> only_full_at(gstart, fx),
                s_special == settled(gstart),
                s_special ==> settled_scan_shape(
                    self.grid_model(),
                    gm0,
                    gstart,
                    i_row as int,
                    old(self).width(),
                ),
                h_special && i_row <= fx ==> *self == *old(self),
                h_special && i_row > fx ==> changed && self.rows_cleared == old(self).rows_cleared
                    + 1 && (exists|k: int|
                    collapse_stop_at(gstart, fx, k) && self.grid_model() == block_shift_model(
                        gm0,
                        fx,
                        k,
                        self.width() as int,
                    )),
            decreases h - i_row,
        {
            proof {
                if h_special && (i_row as int) > fx {
                    assert(self.cell_matrix@[i_row as int] == gstart[i_row as int]);
                    assert(!row_full(gstart[i_row as int]));
                }
            }
            if !self.cell_matrix[i_row].is_empty {
                let full_here = row_is_full(&self.cell_matrix[i_row]);
                if full_here {
                    let ghost gpre = self.cell_matrix@;
                    let ghost gpre_model = self.grid_model();
                    proof {
                        lemma_count_occupied_pos(gpre, h as int, i_row as int);
                        lemma_count_occupied_le(gpre, h as int);
                        // a full row on a positive-width board is not cleared,
                        // so it is an original row: the scan found a full row
                        assert(row_full(gpre[i_row as int]));
                        assert(gpre[i_row as int].cells@.len() >= 1);
                        assert(!row_cleared(gpre[i_row as int])) by {
                            assert(gpre[i_row as int].cells@[0] is Some);
                        }
                        assert(!no_full_row(gstart)) by {
                            assert(gstart.contains(gpre[i_row as int]));
                            let oi = choose|oi: int|
                                0 <= oi < gstart.len() && gstart[oi] == gpre[i_row as int];
                            assert(row_full(gstart[oi]));
                        }
                    }
                    let row = grid_row_mut(&mut self.cell_matrix, i_row);
                    row.reset();
                    self.rows_cleared = self.rows_cleared + 1;
                    changed = true;
                    let ghost gcleared = self.cell_matrix@;
                    let ghost rc_mid = self.rows_cleared;
                    proof {
                        lemma_count_occupied_update(
                            gpre,
                            h as int,
                            i_row as int,
                            gcleared[i_row as int],
                        );
                    }
                    // collapse: bubble the emptied row upward past occupied rows
                    let mut k = i_row;
                    proof {
                        assert(self.cell_matrix@ =~= bubbled(gcleared, i_row as int, k as int));
                    }
                    while k > 0 && !self.cell_matrix[k - 1].is_empty
                        invariant
                            self.grid_wf(),
                            h == self.cell_matrix@.len(),
                            0 <= k <= i_row < h,
                            gcleared.len() == h,
                            self.cell_matrix_width == old(self).cell_matrix_width,
                            self.current_piece == old(self).current_piece,
                            self.current_piece_mass_xy == old(self).current_piece_mass_xy,
                            self.is_alive == old(self).is_alive,
                            self.rng == old(self).rng,
                            self.rows_cleared == rc_mid,
                            forall|j: int|
                                0 <= j < h ==> (#[trigger] gcleared[j]).cells@.len()
                                    == self.cell_matrix_width && gcleared[j].wf(),
                            self.cell_matrix@ == bubbled(gcleared, i_row as int, k as int),
                            count_occupied_rows(self.cell_matrix@, h as int)
                                == count_occupied_rows(gcleared, h as int),
                            forall|j: int|
                                k <= j < i_row ==> !(#[trigger] gcleared[j]).is_empty,
                        decreases k,
                    {
                        let ghost gswap = self.cell_matrix@;
                        grid_swap_up(&mut self.cell_matrix, k);
                        proof {
                            lemma_count_occupied_update(
                                gswap,
                                h as int,
                                k as int,
                                gswap[k as int - 1],
                            );
                            lemma_count_occupied_update(
                                gswap.update(k as int, gswap[k as int - 1]),
                                h as int,
                                k as int - 1,
                                gswap[k as int],
                            );
                            assert(self.cell_matrix@ =~= bubbled(
                                gcleared,
                                i_row as int,
                                k as int - 1,
                            ));
                        }
                        k = k - 1;
                    }
                    proof {
                        // the scan cleared the full row it found in place
                        assert(gpre[i_row as int] == gstart[i_row as int]);
                        assert(row_full(gstart[i_row as int]));
                        // rows past the scan point were not touched
                        assert forall|j: int| i_row as int + 1 <= j < h implies (
                        #[trigger] self.cell_matrix@[j]) == gstart[j] by {
                            assert(self.cell_matrix@[j] == gcleared[j]);
                            assert(gcleared[j] == gpre[j]);
                        }
                        // nothing up to the scan point is full any more
                        assert forall|j: int| 0 <= j <= i_row as int implies !row_full(
                            #[trigger] self.cell_matrix@[j],
                        ) by {
                            if j < k {
                                assert(self.cell_matrix@[j] == gpre[j]);
                            } else if j == k as int {
                                assert(row_cleared(self.cell_matrix@[j]));
                                assert(self.cell_matrix@[j].cells@.len() >= 1);
                                assert(self.cell_matrix@[j].cells@[0] is None);
                            } else {
                                assert(self.cell_matrix@[j] == gcleared[j - 1]);
                                assert(gcleared[j - 1] == gpre[j - 1]);
                            }
                        }
                        // every row is an original row or a cleared one
                        assert forall|j: int| 0 <= j < h implies gstart.contains(
                            #[trigger] self.cell_matrix@[j],
                        ) || row_cleared(self.cell_matrix@[j]) by {
                            let src = if j < k || j > i_row {
                                j
                            } else if j == k as int {
                                i_row as int
                            } else {
                                j - 1
                            };
                            assert(self.cell_matrix@[j] == gcleared[src]);
                            if src != i_row {
                                assert(gcleared[src] == gpre[src]);
                            }
                        }
                        // under the one-full-row hypothesis this was that row
                        if h_special {
                            assert(i_row as int == fx) by {
                                if (i_row as int) < fx {
                                    assert(gpre == gstart);
                                    assert(!row_full(gstart[i_row as int]));
                                } else if (i_row as int) > fx {
                                    assert(gpre[i_row as int] == gstart[i_row as int]);
                                    assert(!row_full(gstart[i_row as int]));
                                }
                            }
                            assert(gpre == gstart);
                            // the bubble stopped at the first empty row above
                            assert(collapse_stop_at(gstart, fx, k as int)) by {
                                assert(k == 0 || row_cleared(gstart[k as int - 1]));
                                assert forall|j: int| k <= j < fx implies !row_cleared(
                                    #[trigger] gstart[j],
                                ) by {
                                    assert(!gcleared[j].is_empty);
                                    assert(gcleared[j] == gstart[j]);
                                    assert(gstart[j].wf());
                                }
                            }
                            assert forall|j: int| 0 <= j < h implies #[trigger] self.grid_model()[j]
                                =~= block_shift_model(gm0, fx, k as int, self.width() as int)[j] by {
                                assert(self.grid_model()[j] == self.cell_matrix@[j].cells@);
                                if j < k || j > fx {
                                    assert(self.cell_matrix@[j] == gstart[j]);
                                } else if j == k as int {
                                    assert(self.cell_matrix@[j] == gcleared[i_row as int]);
                                    assert(row_cleared(gcleared[i_row as int]));
                                } else {
                                    assert(self.cell_matrix@[j] == gstart[j - 1]);
                                }
                            }
                            assert(self.grid_model() =~= block_shift_model(
                                gm0,
                                fx,
                                k as int,
                                self.width() as int,
                            ));
                        }
                        // on a settled grid, record the scan shape one row on
                        if s_special {
                            assert forall|j: int| 0 <= j < h implies #[trigger] gm0[j] == gstart[j].cells@ by {}
                            assert forall|j: int| 0 <= j < h implies #[trigger] gpre_model[j] == gpre[j].cells@ by {}
                            assert forall|j: int| 0 <= j < h implies (#[trigger] self.grid_model()[j]) == self.cell_matrix@[j].cells@ by {}
                            assert forall|j: int| i_row as int <= j < h implies #[trigger] gpre_model[j] == gm0[j] by {
                                assert(gpre[j] == gstart[j]);
                            }
                            assert forall|j: int| 0 <= j < k as int implies #[trigger] self.grid_model()[j] == gpre_model[j] by {
                                assert(self.cell_matrix@[j] == gpre[j]);
                            }
                            assert forall|j: int| (i_row as int) < j < h implies #[trigger] self.grid_model()[j] == gpre_model[j] by {
                                assert(self.cell_matrix@[j] == gcleared[j]);
                                assert(gcleared[j] == gpre[j]);
                            }
                            assert forall|j: int| (k as int) < j <= i_row as int implies #[trigger] self.grid_model()[j] == gpre_model[j - 1] by {
                                assert(self.cell_matrix@[j] == gcleared[j - 1]);
                                assert(gcleared[j - 1] == gpre[j - 1]);
                            }
                            assert(self.cell_matrix@[k as int] == gcleared[i_row as int]);
                            assert(slots_all_none(self.grid_model()[k as int]));
                            assert(self.grid_model()[k as int].len() == old(self).width());
                            assert forall|j: int| (k as int) <= j < i_row as int implies !slots_all_none(#[trigger] gpre_model[j]) by {
                                assert(!gcleared[j].is_empty);
                                assert(gcleared[j] == gpre[j]);
                                assert(gcleared[j].wf());
                            }
                            assert(k == 0 || slots_all_none(gpre_model[k as int - 1])) by {
                                if k > 0 {
                                    assert(self.cell_matrix@[k as int - 1] == gcleared[k as int - 1]);
                                    assert(gcleared[k as int - 1] == gpre[k as int - 1]);
                                    assert(gcleared[k as int - 1].wf());
                                }
                            }
                            lemma_scan_shape_clear(
                                gpre_model,
                                self.grid_model(),
                                gm0,
                                gstart,
                                i_row as int,
                                k as int,
                                old(self).width(),
                            );
                        }
                    }
                } else {
                    proof {
                        if s_special {
                            assert forall|j: int| 0 <= j < h implies #[trigger] gm0[j] == gstart[j].cells@ by {}
                            assert(self.grid_model()[i_row as int] == self.cell_matrix@[i_row as int].cells@);
                            assert(self.cell_matrix@[i_row as int] == gstart[i_row as int]);
                            assert(!row_full(gstart[i_row as int]));
                            lemma_scan_shape_keep(self.grid_model(), gm0, gstart, i_row as int, old(self).width());
                        }
                    }
                }
            } else {
                proof {
                    // an empty-flagged row on a positive-width board is not full
                    assert(self.cell_matrix@[i_row as int].wf());
                    assert(self.cell_matrix@[i_row as int].cells@.len() >= 1);
                    assert(!row_full(self.cell_matrix@[i_row as int])) by {
                        assert(self.cell_matrix@[i_row as int].cells@[0] is None);
                    }
                    if s_special {
                        assert forall|j: int| 0 <= j < h implies #[trigger] gm0[j] == gstart[j].cells@ by {}
                        assert(self.grid_model()[i_row as int] == self.cell_matrix@[i_row as int].cells@);
                        assert(self.cell_matrix@[i_row as int] == gstart[i_row as int]);
                        assert(!row_full(gstart[i_row as int]));
                        lemma_scan_shape_keep(self.grid_model(), gm0, gstart, i_row as int, old(self).width());
                    }
                }
            }
            i_row = i_row + 1;
        }
        proof {
            if s_special {
                assert forall|j: int| 0 <= j < h implies (#[trigger] self.grid_model()[j]).len()
                    == old(self).width() by {
                    assert(self.grid_model()[j] == self.cell_matrix@[j].cells@);
                }
                assert forall|j: int| 0 <= j < h implies (#[trigger] gstart[j]).cells@.len()
                    == old(self).width() by {}
                lemma_scan_shape_done(self.grid_model(), gm0, gstart, old(self).width());
            }
            if h_special {
                assert forall|f: int| only_full_at(gstart, f) implies changed && self.rows_cleared
                    == old(self).rows_cleared + 1 && (exists|k: int|
                    collapse_stop_at(gstart, f, k) && self.grid_model() == block_shift_model(
                        gm0,
                        f,
                        k,
                        old(self).width(),
                    )) by {
                    assert(f == fx) by {
                        if f != fx {
                            assert(!row_full(gstart[fx]));
                        }
                    }
                }
                if settled(gstart) {
                    let k = choose|k: int|
                        collapse_stop_at(gstart, fx, k) && self.grid_model() == block_shift_model(
                            gm0,
                            fx,
                            k,
                            old(self).width(),
                        );
                    lemma_block_shift_is_clear_shift(gstart, gm0, fx, k, old(self).width());
                    assert forall|f: int|
                        settled(gstart) && only_full_at(gstart, f) implies changed
                        && self.rows_cleared == old(self).rows_cleared + 1 && self.grid_model()
                        == clear_shift_model(gm0, f, old(self).width()) by {
                        assert(f == fx) by {
                            if f != fx {
                                assert(!row_full(gstart[fx]));
                            }
                        }
                    }
                }
            }
        }
        changed
    }
}

impl GameState {
    /// Scans the grid top to bottom, clearing every full row and collapsing
    /// the rows above it down by one, and repeats the whole scan until a
    /// pass clears nothing — so alignments uncovered by a collapse are
    /// handled too. `rows_cleared` grows by exactly one per cleared row; a
    /// grid without a full row is left untouched.
    pub fn clear_finished_rows(&mut self)
        requires
            old(self).grid_wf(),
            old(self).rows_cleared as int + old(self).cell_matrix@.len() <= u32::MAX as int,
        ensures
            final(self).grid_wf(),
            final(self).cell_matrix_width == old(self).cell_matrix_width,
            final(self).cell_matrix@.len() == old(self).cell_matrix@.len(),
            final(self).current_piece == old(self).current_piece,
            final(self).current_piece_mass_xy == old(self).current_piece_mass_xy,
            final(self).is_alive == old(self).is_alive,
            final(self).rng == old(self).rng,
            final(self).rows_cleared >= old(self).rows_cleared,
            final(self).rows_cleared as int - old(self).rows_cleared as int
                == count_occupied_rows(old(self).cell_matrix@, old(self).height())
                - count_occupied_rows(final(self).cell_matrix@, final(self).height()),
            final(self).rows_cleared as int == old(self).rows_cleared as int + count_full_rows(
                old(self).cell_matrix@,
                old(self).height(),
            ),
            no_full_row(final(self).cell_matrix@),
            no_full_row(old(self).cell_matrix@) ==> *final(self) == *old(self),
            forall|f: int|
                only_full_at(old(self).cell_matrix@, f) ==> final(self).rows_cleared == old(
                    self,
                ).rows_cleared + 1 && (exists|k: int|
                    collapse_stop_at(old(self).cell_matrix@, f, k) && final(self).grid_model()
                        == block_shift_model(old(self).grid_model(), f, k, old(self).width())),
            settled(old(self).cell_matrix@) ==> final(self).grid_model() == full_rows_dropped_model(
                old(self).grid_model(),
                old(self).width(),
            ),
            forall|f: int|
                settled(old(self).cell_matrix@) && only_full_at(old(self).cell_matrix@, f)
                    ==> final(self).rows_cleared == old(self).rows_cleared + 1
                    && final(self).grid_model() == clear_shift_model(
                    old(self).grid_model(),
                    f,
                    old(self).width(),
                ),
    {
        let ghost gstart = old(self).cell_matrix@;
        let ghost gm0 = old(self).grid_model();
        let ghost h = self.cell_matrix@.len() as int;
        let ghost count0 = count_occupied_rows(gstart, h);
        proof {
            lemma_count_occupied_le(gstart, h);
        }
        let mut changed = self.clear_pass();
        while changed
            invariant
                self.grid_wf(),
                h == self.cell_matrix@.len(),
                self.cell_matrix_width == old(self).cell_matrix_width,
                self.current_piece == old(self).current_piece,
                self.current_piece_mass_xy == old(self).current_piece_mass_xy,
                self.is_alive == old(self).is_alive,
                self.rng == old(self).rng,
                self.rows_cleared >= old(self).rows_cleared,
                old(self).rows_cleared as int + count0 <= u32::MAX as int,
                count0 == count_occupied_rows(gstart, h),
                gstart == old(self).cell_matrix@,
                gm0 == old(self).grid_model(),
                self.rows_cleared as int + count_occupied_rows(self.cell_matrix@, h) == old(self).rows_cleared as int + count0,
                no_full_row(self.cell_matrix@),
                self.rows_cleared as int == old(self).rows_cleared as int + count_full_rows(
                    gstart,
                    h,
                ),
                no_full_row(gstart) ==> !changed && *self == *old(self),
                forall|f: int|
                    only_full_at(gstart, f) ==> self.rows_cleared == old(self).rows_cleared + 1 && (
                    exists|k: int|
                        collapse_stop_at(gstart, f, k) && self.grid_model() == block_shift_model(
                            gm0,
                            f,
                            k,
                            old(self).width(),
                        )),
                settled(gstart) ==> self.grid_model() == full_rows_dropped_model(
                    gm0,
                    old(self).width(),
                ),
                forall|f: int|
                    settled(gstart) && only_full_at(gstart, f) ==> self.rows_cleared == old(self).rows_cleared + 1 && self.grid_model() == clear_shift_model(
                        gm0,
                        f,
                        old(self).width(),
                    ),
            decreases count_occupied_rows(self.cell_matrix@, h) + (if changed {
                1int
            } else {
                0int
            }),
        {
            proof {
                lemma_count_occupied_le(self.cell_matrix@, h);
                lemma_count_full_zero(self.cell_matrix@, h);
            }
            changed = self.clear_pass();
            proof {
                lemma_count_occupied_le(self.cell_matrix@, h);
            }
        }
    }
}

impl GameState {
    /// Every piece the generator could hand out — every value meeting the
    /// whole of [`generator_shaped`] — fits at its spawn anchor on this
    /// board. On such a board a spawn attempt must succeed, whatever the
    /// random source does.
    pub open spec fn any_spawnable_piece_fits(self) -> bool {
        forall|p: Piece|
            #[trigger] generator_shaped(p) ==> self.placeable(
                p,
                self.width() / 2,
                spawn_clearance(p),
            )
    }

    /// The freshly spawned piece `p` legally stands at the spawn anchor:
    /// horizontally centered, vertically at its clearance.
    pub open spec fn spawned_state(self, old_width: int) -> bool {
        match self.current_piece {
            Some(p) => {
                &&& p.wf()
                &&& MIN_PIECE_CELLS <= p.cells@.len() <= MAX_PIECE_CELLS
                &&& grown_connected(p.cells@)
                &&& self.placeable(p, self.anchor_x(), self.anchor_y())
                &&& self.anchor_x() == old_width / 2
                &&& self.anchor_y() == spawn_clearance(p)
            },
            None => false,
        }
    }

    /// Generates a piece and anchors it at the spawn position: column
    /// `width / 2`, row equal to its vertical clearance so that nothing
    /// projects above the top row. If the spawn position is not free, the
    /// game is over: `is_alive` turns false and no piece is queued.
    fn queue_new_piece(&mut self)
        requires
            old(self).grid_wf(),
            old(self).current_piece is None,
            old(self).is_alive,
        ensures
            final(self).wf(),
            final(self).cell_matrix == old(self).cell_matrix,
            final(self).cell_matrix_width == old(self).cell_matrix_width,
            final(self).rows_cleared == old(self).rows_cleared,
            final(self).is_alive ==> final(self).spawned_state(old(self).width()),
            !final(self).is_alive ==> final(self).current_piece is None
                && final(self).current_piece_mass_xy == old(self).current_piece_mass_xy,
            old(self).any_spawnable_piece_fits() ==> final(self).is_alive,
    {
        let p = Piece::generate_new(&mut self.rng);
        // the most negative row offset decides the clearance
        let mut min_off: i32 = p.cells[0].y - p.center_of_mass_y;
        let mut i: usize = 1;
        while i < p.cells.len()
            invariant
                p.wf(),
                1 <= i <= p.cells@.len(),
                min_off as int == crate::piece::min_y_offset_upto(p, i as int),
                -8 <= min_off <= 8,
            decreases p.cells@.len() - i,
        {
            let v = p.cells[i].y - p.center_of_mass_y;
            if v < min_off {
                min_off = v;
            }
            i = i + 1;
        }
        let clearance = if min_off < 0 {
            -min_off
        } else {
            min_off
        };
        let init_xy = ((self.cell_matrix_width / 2) as i32, clearance);
        if !self.can_place(&p, init_xy) {
            proof {
                if old(self).any_spawnable_piece_fits() {
                    assert(generator_shaped(p));
                    assert(old(self).placeable(p, old(self).width() / 2, spawn_clearance(p)));
                }
            }
            self.is_alive = false;
            return;
        }
        self.current_piece = Some(p);
        self.current_piece_mass_xy = init_xy;
    }

    /// A fresh board of empty rows with a first piece queued at the spawn
    /// position — or, on a board too small for it, a state that is already
    /// over.
    pub fn new(height: usize, width: usize) -> (gs: GameState)
        requires
            1 <= height <= MAX_BOARD_DIM,
            1 <= width <= MAX_BOARD_DIM,
        ensures
            gs.wf(),
            gs.cell_matrix_width == width,
            gs.cell_matrix@.len() == height,
            forall|i: int|
                0 <= i < height ==> row_cleared(#[trigger] gs.cell_matrix@[i])
                    && gs.cell_matrix@[i].cells@.len() == width,
            gs.rows_cleared == 0,
            gs.is_alive ==> gs.spawned_state(width as int),
            !gs.is_alive ==> gs.current_piece is None,
            gs.any_spawnable_piece_fits() ==> gs.is_alive,
    {
        let mut cell_matrix: Vec<Row> = Vec::new();
        let mut i: usize = 0;
        while i < height
            invariant
                i <= height,
                cell_matrix@.len() == i,
                forall|k: int|
                    0 <= k < i ==> row_cleared(#[trigger] cell_matrix@[k])
                        && cell_matrix@[k].cells@.len() == width && cell_matrix@[k].wf(),
            decreases height - i,
        {
            cell_matrix.push(Row::new(width));
            i = i + 1;
        }
        let mut gs = GameState {
            rng: RandomNumberGenerator {},
            cell_matrix,
            cell_matrix_width: width,
            current_piece: None,
            current_piece_mass_xy: (0, 0),
            rows_cleared: 0,
            is_alive: true,
        };
        let ghost pre = gs;
        gs.queue_new_piece();
        proof {
            if gs.any_spawnable_piece_fits() {
                assert forall|p: Piece| #[trigger] generator_shaped(p) implies pre.placeable(
                    p,
                    pre.width() / 2,
                    spawn_clearance(p),
                ) by {
                    assert(gs.placeable(p, gs.width() / 2, spawn_clearance(p)));
                    assert forall|i: int|
                        0 <= i < p.cells@.len() implies pre.cell_free(
                            pre.width() / 2 + (#[trigger] p.cells@[i]).x - p.center_of_mass_x,
                            spawn_clearance(p) + p.cells@[i].y - p.center_of_mass_y,
                        ) by {
                        assert(gs.cell_free(
                            gs.width() / 2 + p.cells@[i].x - p.center_of_mass_x,
                            spawn_clearance(p) + p.cells@[i].y - p.center_of_mass_y,
                        ));
                    }
                }
            }
        }
        gs
    }

    /// Clears every row, discards the active piece, zeroes the row counter
    /// and revives the board. No piece is spawned here: the next gravity
    /// tick queues one.
    pub fn reset(&mut self)
        requires
            old(self).grid_wf(),
        ensures
            final(self).wf(),
            final(self).cell_matrix_width == old(self).cell_matrix_width,
            final(self).cell_matrix@.len() == old(self).cell_matrix@.len(),
            forall|i: int|
                0 <= i < final(self).height() ==> row_cleared(#[trigger] final(self).cell_matrix@[i])
                    && final(self).cell_matrix@[i].cells@.len() == old(self).cell_matrix_width,
            final(self).current_piece is None,
            final(self).current_piece_mass_xy == (0i32, 0i32),
            final(self).rows_cleared == 0,
            final(self).is_alive,
    {
        let h = self.cell_matrix.len();
        let mut i: usize = 0;
        while i < h
            invariant
                h == self.cell_matrix@.len(),
                i <= h,
                self.cell_matrix_width == old(self).cell_matrix_width,
                self.grid_wf(),
                forall|k: int| 0 <= k < i ==> row_cleared(#[trigger] self.cell_matrix@[k]),
            decreases h - i,
        {
            let row = grid_row_mut(&mut self.cell_matrix, i);
            row.reset();
            i = i + 1;
        }
        self.current_piece = None;
        self.current_piece_mass_xy = (0, 0);
        self.rows_cleared = 0;
        self.is_alive = true;
    }

    /// Whether placing `p`'s quarter turn (about its own pivot) at
    /// `(ax, ay)` would be legal.
    pub open spec fn rotation_fits(self, p: Piece, clockwise: bool, ax: int, ay: int) -> bool {
        forall|i: int|
            0 <= i < p.cells@.len() ==> {
                let c = #[trigger] p.cells@[i];
                let off = spec_rotate_2d(
                    clockwise,
                    c.x - p.center_of_mass_x,
                    c.y - p.center_of_mass_y,
                );
                self.cell_free(ax + off.0, ay + off.1)
            }
    }

    /// Replaces the active piece with its quarter turn when that fits at
    /// the current anchor; otherwise, or without an active piece, leaves
    /// the state byte for byte unchanged and reports false. No wall kick:
    /// a rotation that would collide simply fails.
    pub fn try_rotate_current_piece(&mut self, clockwise: bool) -> (r: bool)
        requires
            old(self).wf(),
        ensures
            final(self).wf(),
            !r ==> *final(self) == *old(self),
            old(self).current_piece is None ==> !r,
            forall|p: Piece|
                old(self).current_piece == Some(p) ==> (r <==> old(self).rotation_fits(
                    p,
                    clockwise,
                    old(self).anchor_x(),
                    old(self).anchor_y(),
                )),
            r ==> final(self).cell_matrix == old(self).cell_matrix && final(self).rows_cleared
                == old(self).rows_cleared && final(self).is_alive == old(self).is_alive && final(self).current_piece_mass_xy == old(self).current_piece_mass_xy,
            r ==> (old(self).current_piece matches Some(p) && final(self).current_piece matches Some(
                q,
            ) && is_rotation_of(q, p, clockwise)),
    {
        let taken = self.current_piece.take();
        match taken {
            Some(p_old) => {
                let p_new = p_old.rotated(clockwise);
                let dst = self.current_piece_mass_xy;
                let fits = self.can_place(&p_new, dst);
                proof {
                    lemma_rotation_placement(
                        *old(self),
                        p_old,
                        p_new,
                        clockwise,
                        dst.0 as int,
                        dst.1 as int,
                    );
                }
                if fits {
                    self.current_piece = Some(p_new);
                    true
                } else {
                    self.current_piece = Some(p_old);
                    false
                }
            },
            None => false,
        }
    }

    /// Shifts the active piece one column left or right when the spot is
    /// free; otherwise, or without an active piece, leaves the state byte
    /// for byte unchanged and reports false.
    pub fn try_leftright_current_piece(&mut self, leftwards: bool) -> (r: bool)
        requires
            old(self).wf(),
        ensures
            final(self).wf(),
            !r ==> *final(self) == *old(self),
            old(self).current_piece is None ==> !r,
            forall|p: Piece|
                old(self).current_piece == Some(p) ==> (r <==> old(self).placeable(
                    p,
                    old(self).anchor_x() + (if leftwards {
                        -1int
                    } else {
                        1int
                    }),
                    old(self).anchor_y(),
                )),
            r ==> final(self).current_piece == old(self).current_piece && final(self).cell_matrix
                == old(self).cell_matrix && final(self).rows_cleared == old(self).rows_cleared
                && final(self).is_alive == old(self).is_alive && final(self).current_piece_mass_xy.1 == old(self).current_piece_mass_xy.1 && final(self).current_piece_mass_xy.0 as int == old(self).anchor_x() + (if leftwards {
                -1int
            } else {
                1int
            }),
    {
        let taken = self.current_piece.take();
        match taken {
            Some(p) => {
                proof {
                    // the anchor sits within one piece-offset of the board,
                    // so one more column stays inside i32
                    assert(old(self).cell_free(
                        old(self).anchor_x() + (#[trigger] p.cells@[0]).x - p.center_of_mass_x,
                        old(self).anchor_y() + p.cells@[0].y - p.center_of_mass_y,
                    ));
                }
                let direction: i32 = if leftwards {
                    -1
                } else {
                    1
                };
                let dst = (self.current_piece_mass_xy.0 + direction, self.current_piece_mass_xy.1);
                let fits = self.can_place(&p, dst);
                if fits {
                    self.current_piece = Some(p);
                    self.current_piece_mass_xy = dst;
                    true
                } else {
                    self.current_piece = Some(p);
                    false
                }
            },
            None => false,
        }
    }

    /// Advances the active piece one row down when it can fall. When it
    /// cannot, commits it into the grid and clears finished rows, reporting
    /// false. Without an active piece, attempts a spawn instead. On a dead
    /// board this is a no-op.
    pub fn try_drop_current_piece(&mut self) -> (r: bool)
        requires
            old(self).wf(),
            old(self).rows_cleared as int + old(self).cell_matrix@.len() <= u32::MAX as int,
        ensures
            final(self).wf(),
            final(self).cell_matrix_width == old(self).cell_matrix_width,
            final(self).cell_matrix@.len() == old(self).cell_matrix@.len(),
            final(self).rows_cleared >= old(self).rows_cleared,
            !old(self).is_alive ==> !r && *final(self) == *old(self),
            old(self).is_alive && old(self).current_piece is None ==> !r && final(self).cell_matrix
                == old(self).cell_matrix && final(self).rows_cleared == old(self).rows_cleared && (final(self).is_alive ==> final(self).spawned_state(old(self).width())) && (!final(self).is_alive ==> final(self).current_piece is None) && (old(
                self,
            ).any_spawnable_piece_fits() ==> final(self).is_alive),
            forall|p: Piece|
                old(self).is_alive && old(self).current_piece == Some(p) && old(self).placeable(
                    p,
                    old(self).anchor_x(),
                    old(self).anchor_y() + 1,
                ) ==> r && final(self).current_piece == old(self).current_piece && final(self).cell_matrix == old(self).cell_matrix && final(self).rows_cleared == old(self).rows_cleared && final(self).is_alive == old(self).is_alive && final(self).current_piece_mass_xy.0 == old(self).current_piece_mass_xy.0 && final(self).current_piece_mass_xy.1 as int == old(self).anchor_y() + 1,
            forall|p: Piece|
                old(self).is_alive && old(self).current_piece == Some(p) && !old(self).placeable(
                    p,
                    old(self).anchor_x(),
                    old(self).anchor_y() + 1,
                ) ==> {
                    let cm = committed(
                        old(self).grid_model(),
                        p,
                        old(self).anchor_x(),
                        old(self).anchor_y(),
                    );
                    &&& !r
                    &&& final(self).current_piece is None
                    &&& final(self).is_alive == old(self).is_alive
                    &&& no_full_row(final(self).cell_matrix@)
                    &&& final(self).rows_cleared as int == old(self).rows_cleared as int
                        + count_full_model(cm, old(self).height())
                    &&& no_full_model(cm) ==> final(self).grid_model() == cm
                        && final(self).rows_cleared == old(self).rows_cleared
                    &&& forall|f: int|
                        only_full_model_at(cm, f) ==> final(self).rows_cleared == old(
                            self,
                        ).rows_cleared + 1 && (exists|k: int|
                            collapse_stop_model_at(cm, f, k) && final(self).grid_model()
                                == block_shift_model(cm, f, k, old(self).width()))
                    &&& forall|f: int|
                        settled_model(cm) && only_full_model_at(cm, f) ==> final(self).grid_model()
                            == clear_shift_model(cm, f, old(self).width())
                            && final(self).rows_cleared == old(self).rows_cleared + 1
                    &&& settled_model(cm) ==> final(self).grid_model() == full_rows_dropped_model(
                        cm,
                        old(self).width(),
                    )
                },
    {
        if !self.is_alive {
            return false;
        }
        let taken = self.current_piece.take();
        match taken {
            Some(p) => {
                proof {
                    // the anchor sits within one piece-offset of the board,
                    // so one more row stays inside i32
                    assert(old(self).cell_free(
                        old(self).anchor_x() + (#[trigger] p.cells@[0]).x - p.center_of_mass_x,
                        old(self).anchor_y() + p.cells@[0].y - p.center_of_mass_y,
                    ));
                }
                let dst = (self.current_piece_mass_xy.0, self.current_piece_mass_xy.1 + 1);
                let fits = self.can_place(&p, dst);
                self.current_piece = Some(p);
                if fits {
                    self.current_piece_mass_xy = dst;
                    true
                } else {
                    self.commit_current_piece();
                    let ghost committed_rows = self.cell_matrix@;
                    proof {
                        assert forall|j: int|
                            0 <= j < self.height() implies (#[trigger] self.cell_matrix@[j]).cells@
                            == self.grid_model()[j] by {}
                    }
                    self.clear_finished_rows();
                    proof {
                        let cm = committed(
                            old(self).grid_model(),
                            p,
                            old(self).anchor_x(),
                            old(self).anchor_y(),
                        );
                        let h = committed_rows.len() as int;
                        assert forall|j: int| 0 <= j < h implies #[trigger] cm[j]
                            == committed_rows[j].cells@ by {}
                        lemma_count_full_model_agrees(committed_rows, cm, h);
                        if no_full_model(cm) {
                            assert(no_full_row(committed_rows)) by {
                                assert forall|j: int| 0 <= j < h implies !row_full(
                                    #[trigger] committed_rows[j],
                                ) by {
                                    assert(!slots_all_some(cm[j]));
                                }
                            }
                        }
                        assert forall|f: int|
                            only_full_model_at(cm, f) implies self.rows_cleared == old(
                            self,
                        ).rows_cleared + 1 && (exists|k: int|
                            collapse_stop_model_at(cm, f, k) && self.grid_model()
                                == block_shift_model(cm, f, k, old(self).width())) by {
                            assert(only_full_at(committed_rows, f)) by {
                                assert(row_full(committed_rows[f]));
                                assert forall|i: int| 0 <= i < h && i != f implies !row_full(
                                    #[trigger] committed_rows[i],
                                ) by {
                                    assert(!slots_all_some(cm[i]));
                                }
                            }
                            let k2 = choose|k2: int|
                                collapse_stop_at(committed_rows, f, k2) && self.grid_model()
                                    == block_shift_model(cm, f, k2, old(self).width());
                            assert(collapse_stop_model_at(cm, f, k2)) by {
                                assert forall|j: int| k2 <= j < f implies !slots_all_none(
                                    #[trigger] cm[j],
                                ) by {
                                    assert(!row_cleared(committed_rows[j]));
                                }
                                if k2 > 0 {
                                    assert(slots_all_none(cm[k2 - 1])) by {
                                        assert(row_cleared(committed_rows[k2 - 1]));
                                    }
                                }
                            }
                        }
                        if settled_model(cm) {
                            assert(settled(committed_rows)) by {
                                assert forall|i: int, j: int|
                                    0 <= i < j < h && row_cleared(
                                        #[trigger] committed_rows[j],
                                    ) implies row_cleared(#[trigger] committed_rows[i]) by {
                                    assert(slots_all_none(cm[j]));
                                    assert(slots_all_none(cm[i]));
                                }
                            }
                        }
                        assert forall|f: int|
                            settled_model(cm) && only_full_model_at(cm, f) implies self.grid_model()
                            == clear_shift_model(cm, f, old(self).width()) && self.rows_cleared
                            == old(self).rows_cleared + 1 by {
                            assert(settled(committed_rows)) by {
                                assert forall|i: int, j: int|
                                    0 <= i < j < h && row_cleared(
                                        #[trigger] committed_rows[j],
                                    ) implies row_cleared(#[trigger] committed_rows[i]) by {
                                    assert(slots_all_none(cm[j]));
                                    assert(slots_all_none(cm[i]));
                                }
                            }
                            assert(only_full_at(committed_rows, f)) by {
                                assert(row_full(committed_rows[f]));
                                assert forall|i: int| 0 <= i < h && i != f implies !row_full(
                                    #[trigger] committed_rows[i],
                                ) by {
                                    assert(!slots_all_some(cm[i]));
                                }
                            }
                        }
                    }
                    false
                }
            },
            None => {
                self.queue_new_piece();
                false
            },
        }
    }
}

/// No row of the grid model is completely occupied.
pub open spec fn no_full_model(gm: Seq<Seq<Option<Cell>>>) -> bool {
    forall|i: int| 0 <= i < gm.len() ==> !slots_all_some(#[trigger] gm[i])
}

/// Number of rows among the first `n` of the grid model that are
/// completely occupied.
pub open spec fn count_full_model(gm: Seq<Seq<Option<Cell>>>, n: int) -> int
    decreases n,
{
    if n <= 0 {
        0
    } else {
        count_full_model(gm, n - 1) + (if slots_all_some(gm[n - 1]) {
            1int
        } else {
            0int
        })
    }
}

/// All empty rows of the grid model sit above all occupied rows.
pub open spec fn settled_model(gm: Seq<Seq<Option<Cell>>>) -> bool {
    forall|i: int, j: int|
        0 <= i < j < gm.len() && slots_all_none(#[trigger] gm[j]) ==> slots_all_none(
            #[trigger] gm[i],
        )
}

/// Row `f` of the grid model is completely occupied and no other row is.
pub open spec fn only_full_model_at(gm: Seq<Seq<Option<Cell>>>, f: int) -> bool {
    &&& 0 <= f < gm.len()
    &&& slots_all_some(gm[f])
    &&& forall|i: int| 0 <= i < gm.len() && i != f ==> !slots_all_some(#[trigger] gm[i])
}

/// Model-level twin of [`collapse_stop_at`]: where the collapse parks a row
/// emptied at `f`.
pub open spec fn collapse_stop_model_at(gm: Seq<Seq<Option<Cell>>>, f: int, k: int) -> bool {
    &&& 0 <= k <= f
    &&& forall|j: int| k <= j < f ==> !slots_all_none(#[trigger] gm[j])
    &&& (k == 0 || slots_all_none(gm[k - 1]))
}

/// Counting full rows of a grid agrees with counting full rows of its model.
proof fn lemma_count_full_model_agrees(g: Seq<Row>, gm: Seq<Seq<Option<Cell>>>, n: int)
    requires
        0 <= n <= g.len(),
        gm.len() == g.len(),
        forall|j: int| 0 <= j < g.len() ==> #[trigger] gm[j] == g[j].cells@,
    ensures
        count_full_rows(g, n) == count_full_model(gm, n),
    decreases n,
{
    if n > 0 {
        lemma_count_full_model_agrees(g, gm, n - 1);
    }
}

/// A quarter-turned piece fits at an anchor exactly when the turned
/// offsets of the source piece all land on free positions.
proof fn lemma_rotation_placement(
    gs: GameState,
    p: Piece,
    q: Piece,
    clockwise: bool,
    ax: int,
    ay: int,
)
    requires
        is_rotation_of(q, p, clockwise),
    ensures
        gs.placeable(q, ax, ay) == gs.rotation_fits(p, clockwise, ax, ay),
{
    if gs.placeable(q, ax, ay) {
        assert forall|i: int| 0 <= i < p.cells@.len() implies {
            let c = #[trigger] p.cells@[i];
            let off = spec_rotate_2d(clockwise, c.x - p.center_of_mass_x, c.y - p.center_of_mass_y);
            gs.cell_free(ax + off.0, ay + off.1)
        } by {
            assert(gs.cell_free(
                ax + (#[trigger] q.cells@[i]).x - q.center_of_mass_x,
                ay + q.cells@[i].y - q.center_of_mass_y,
            ));
        }
    }
    if gs.rotation_fits(p, clockwise, ax, ay) {
        assert forall|i: int| 0 <= i < q.cells@.len() implies gs.cell_free(
            ax + (#[trigger] q.cells@[i]).x - q.center_of_mass_x,
            ay + q.cells@[i].y - q.center_of_mass_y,
        ) by {
            let c = p.cells@[i];
            let off = spec_rotate_2d(clockwise, c.x - p.center_of_mass_x, c.y - p.center_of_mass_y);
            assert(gs.cell_free(ax + off.0, ay + off.1));
        }
    }
}

/// Whether every slot of the row is occupied.
fn row_is_full(r: &Row) -> (b: bool)
    ensures
        b == row_full(*r),
{
    let mut j: usize = 0;
    while j < r.cells.len()
        invariant
            j <= r.cells@.len(),
            forall|k: int| 0 <= k < j ==> (#[trigger] r.cells@[k]) is Some,
        decreases r.cells@.len() - j,
    {
        if r.cells[j].is_none() {
            return false;
        }
        j = j + 1;
    }
    true
}

} // verus!
