use vstd::prelude::*;

use crate::cell::{Cell, CellWithRelativePosition, HUE_STEPS};
use crate::rng::RandomNumberGenerator;
use vstd::arithmetic::div_mod::lemma_div_is_ordered;

verus! {

/// Smallest number of cells a generated piece may have.
pub const MIN_PIECE_CELLS: usize = 3;

/// Largest number of cells a generated piece may have.
pub const MAX_PIECE_CELLS: usize = 5;

/// Quarter-turn of a vector about the origin.
pub open spec fn spec_rotate_2d(clockwise: bool, x: int, y: int) -> (int, int) {
    if clockwise {
        (y, -x)
    } else {
        (-y, x)
    }
}

/// Quarter-turn of a vector about the origin, clockwise or counter-clockwise.
pub fn rotate_2d(clockwise: bool, v: (i32, i32)) -> (r: (i32, i32))
    requires
        i32::MIN < v.0,
        i32::MIN < v.1,
    ensures
        (r.0 as int, r.1 as int) == spec_rotate_2d(clockwise, v.0 as int, v.1 as int),
{
    if clockwise {
        (v.1, -v.0)
    } else {
        (-v.1, v.0)
    }
}

/// A connected cluster of cells with relative coordinates and a
/// center-of-mass origin used as the pivot for rotation and as the anchor
/// mapped to global coordinates. Immutable after construction: rotation
/// produces a new value.
#[derive(Clone, Debug)]
pub struct Piece {
    pub cells: Vec<CellWithRelativePosition>,
    pub center_of_mass_x: i32,
    pub center_of_mass_y: i32,
}

impl Piece {
    /// A piece has at least one cell, its pivot lies near the origin, every
    /// cell sits within a small box around the pivot, and every hue is a
    /// valid fraction. Rotation preserves all of these bounds.
    pub open spec fn wf(self) -> bool {
        &&& self.cells@.len() >= 1
        &&& -4 <= self.center_of_mass_x <= 4
        &&& -4 <= self.center_of_mass_y <= 4
        &&& forall|i: int|
            0 <= i < self.cells@.len() ==> {
                let c = #[trigger] self.cells@[i];
                &&& -8 <= c.x - self.center_of_mass_x <= 8
                &&& -8 <= c.y - self.center_of_mass_y <= 8
                &&& c.cell.hue < HUE_STEPS
            }
    }

    /// Global column of the piece's `i`-th cell when the pivot sits at `ax`.
    pub open spec fn cell_global_x(self, ax: int, i: int) -> int {
        ax + self.cells@[i].x - self.center_of_mass_x
    }

    /// Global row of the piece's `i`-th cell when the pivot sits at `ay`.
    pub open spec fn cell_global_y(self, ay: int, i: int) -> int {
        ay + self.cells@[i].y - self.center_of_mass_y
    }
}

/// `q` is `p` turned by a quarter turn about `p`'s center of mass:
/// same pivot, same cells in the same order, every offset from the pivot
/// rotated by [`spec_rotate_2d`].
pub open spec fn is_rotation_of(q: Piece, p: Piece, clockwise: bool) -> bool {
    &&& q.center_of_mass_x == p.center_of_mass_x
    &&& q.center_of_mass_y == p.center_of_mass_y
    &&& q.cells@.len() == p.cells@.len()
    &&& forall|i: int|
        0 <= i < p.cells@.len() ==> {
            let c = #[trigger] p.cells@[i];
            let d = #[trigger] q.cells@[i];
            &&& d.cell == c.cell
            &&& (d.x - q.center_of_mass_x, d.y - q.center_of_mass_y) == spec_rotate_2d(
                clockwise,
                c.x - p.center_of_mass_x,
                c.y - p.center_of_mass_y,
            )
        }
}

impl Piece {
    /// A new piece whose cells are turned a quarter turn about the center of
    /// mass; the input is not changed and the center of mass stays fixed.
    pub fn rotated(&self, clockwise: bool) -> (q: Piece)
        requires
            self.wf(),
        ensures
            q.wf(),
            is_rotation_of(q, *self, clockwise),
    {
        let mut cells: Vec<CellWithRelativePosition> = Vec::new();
        let mut i: usize = 0;
        while i < self.cells.len()
            invariant
                self.wf(),
                i <= self.cells@.len(),
                cells@.len() == i,
                forall|k: int|
                    0 <= k < i ==> {
                        let c = #[trigger] self.cells@[k];
                        let d = #[trigger] cells@[k];
                        &&& d.cell == c.cell
                        &&& (
                        d.x - self.center_of_mass_x,
                        d.y - self.center_of_mass_y,
                        ) == spec_rotate_2d(
                            clockwise,
                            c.x - self.center_of_mass_x,
                            c.y - self.center_of_mass_y,
                        )
                    },
            decreases self.cells@.len() - i,
        {
            let c = self.cells[i];
            let vx = c.x - self.center_of_mass_x;
            let vy = c.y - self.center_of_mass_y;
            let r = rotate_2d(clockwise, (vx, vy));
            cells.push(
                CellWithRelativePosition {
                    cell: c.cell,
                    x: r.0 + self.center_of_mass_x,
                    y: r.1 + self.center_of_mass_y,
                },
            );
            i = i + 1;
        }
        let q = Piece {
            cells,
            center_of_mass_x: self.center_of_mass_x,
            center_of_mass_y: self.center_of_mass_y,
        };
        proof {
            assert forall|k: int| 0 <= k < q.cells@.len() implies {
                let d = #[trigger] q.cells@[k];
                &&& -8 <= d.x - q.center_of_mass_x <= 8
                &&& -8 <= d.y - q.center_of_mass_y <= 8
                &&& d.cell.hue < HUE_STEPS
            } by {
                let c = self.cells@[k];
                let d = q.cells@[k];
                assert((d.x - q.center_of_mass_x, d.y - q.center_of_mass_y) == spec_rotate_2d(
                    clockwise,
                    c.x - self.center_of_mass_x,
                    c.y - self.center_of_mass_y,
                ));
            }
        }
        q
    }
}

/// The finite sequence of global cells that a piece covers when its center
/// of mass sits at `(ax, ay)`: for each cell, the cell itself and its global
/// column and row.
pub open spec fn projected(p: Piece, ax: int, ay: int) -> Seq<(Cell, int, int)> {
    Seq::new(
        p.cells@.len(),
        |i: int| (p.cells@[i].cell, p.cell_global_x(ax, i), p.cell_global_y(ay, i)),
    )
}

/// Walks the global cells of a piece for a fixed anchor. Each call to
/// [`Piece::iter_global_space`] yields a fresh, restartable walk; this type
/// keeps its own cursor and never touches the piece again.
#[derive(Debug)]
pub struct PieceGlobalSpaceIter {
    items: Vec<(Cell, i32, i32)>,
    pos: usize,
}

impl PieceGlobalSpaceIter {
    /// The global cells not yet handed out, in order.
    pub closed spec fn remaining(self) -> Seq<(Cell, int, int)> {
        let n = if self.pos <= self.items@.len() {
            self.pos as int
        } else {
            self.items@.len() as int
        };
        self.items@.map(|i: int, t: (Cell, i32, i32)| (t.0, t.1 as int, t.2 as int)).skip(n)
    }

    /// Hands out the next global cell, or `None` once all cells have been
    /// seen.
    pub fn next(&mut self) -> (r: Option<(Cell, i32, i32)>)
        ensures
            old(self).remaining().len() == 0 ==> r is None && final(self).remaining()
                == old(self).remaining(),
            old(self).remaining().len() > 0 ==> {
                &&& r matches Some(t)
                &&& (t.0, t.1 as int, t.2 as int) == old(self).remaining()[0]
                &&& final(self).remaining() == old(self).remaining().skip(1)
            },
    {
        if self.pos < self.items.len() {
            let t = self.items[self.pos];
            self.pos = self.pos + 1;
            proof {
                assert(self.remaining() =~= old(self).remaining().skip(1));
                assert((t.0, t.1 as int, t.2 as int) == old(self).remaining()[0]);
            }
            Some(t)
        } else {
            None
        }
    }
}

impl Piece {
    /// A fresh walk over the piece's cells in global coordinates, with the
    /// center of mass anchored at `xy`. Produces exactly one item per cell.
    pub fn iter_global_space(&self, xy: (i32, i32)) -> (it: PieceGlobalSpaceIter)
        requires
            self.wf(),
            i32::MIN + 8 <= xy.0 <= i32::MAX - 8,
            i32::MIN + 8 <= xy.1 <= i32::MAX - 8,
        ensures
            it.remaining() == projected(*self, xy.0 as int, xy.1 as int),
    {
        let mut items: Vec<(Cell, i32, i32)> = Vec::new();
        let mut i: usize = 0;
        while i < self.cells.len()
            invariant
                self.wf(),
                i32::MIN + 8 <= xy.0 <= i32::MAX - 8,
                i32::MIN + 8 <= xy.1 <= i32::MAX - 8,
                i <= self.cells@.len(),
                items@.len() == i,
                forall|k: int|
                    0 <= k < i ==> {
                        let t = #[trigger] items@[k];
                        &&& t.0 == self.cells@[k].cell
                        &&& t.1 as int == self.cell_global_x(xy.0 as int, k)
                        &&& t.2 as int == self.cell_global_y(xy.1 as int, k)
                    },
            decreases self.cells@.len() - i,
        {
            let c = self.cells[i];
            let gx = xy.0 + (c.x - self.center_of_mass_x);
            let gy = xy.1 + (c.y - self.center_of_mass_y);
            items.push((c.cell, gx, gy));
            i = i + 1;
        }
        let it = PieceGlobalSpaceIter { items, pos: 0 };
        proof {
            assert(it.remaining() =~= projected(*self, xy.0 as int, xy.1 as int));
        }
        it
    }
}

/// Two grid positions at unit distance from each other.
pub open spec fn adjacent(x1: int, y1: int, x2: int, y2: int) -> bool {
    ||| x1 == x2 && (y1 == y2 + 1 || y1 == y2 - 1)
    ||| y1 == y2 && (x1 == x2 + 1 || x1 == x2 - 1)
}

/// Some cell of the cluster occupies relative position `(x, y)`.
pub open spec fn occupied_at(cells: Seq<CellWithRelativePosition>, x: int, y: int) -> bool {
    exists|i: int| 0 <= i < cells.len() && (#[trigger] cells[i]).x == x && cells[i].y == y
}

/// The cell at index `i` touches a cell placed before it.
pub open spec fn has_earlier_neighbor(cells: Seq<CellWithRelativePosition>, i: int) -> bool {
    exists|j: int|
        0 <= j < i && adjacent(
            cells[i].x as int,
            cells[i].y as int,
            (#[trigger] cells[j]).x as int,
            cells[j].y as int,
        )
}

/// Every cell after the first touches a cell placed before it, which is how
/// the generator grows a piece outward from its origin cell.
pub open spec fn grown_connected(cells: Seq<CellWithRelativePosition>) -> bool {
    forall|i: int| 1 <= i < cells.len() ==> #[trigger] has_earlier_neighbor(cells, i)
}

/// No two cells of the cluster share a relative position.
pub open spec fn cells_distinct(cells: Seq<CellWithRelativePosition>) -> bool {
    forall|i: int, j: int|
        0 <= i < j < cells.len() ==> !((#[trigger] cells[i]).x == (#[trigger] cells[j]).x
            && cells[i].y == cells[j].y)
}

/// `path` walks from the cluster's origin cell (index 0) to the cell at
/// index `target`, moving by unit steps and standing on a cluster cell the
/// whole way.
pub open spec fn is_cell_path(
    cells: Seq<CellWithRelativePosition>,
    path: Seq<int>,
    target: int,
) -> bool {
    &&& path.len() >= 1
    &&& path[0] == 0
    &&& path[path.len() - 1] == target
    &&& forall|k: int| 0 <= k < path.len() ==> 0 <= #[trigger] path[k] < cells.len()
    &&& forall|k: int|
        0 <= k < path.len() - 1 ==> adjacent(
            cells[#[trigger] path[k]].x as int,
            cells[path[k]].y as int,
            cells[path[k + 1]].x as int,
            cells[path[k + 1]].y as int,
        )
}

/// Law: in a grown cluster every cell is reachable from the origin cell via
/// unit-step moves through other cluster cells — the connectivity invariant
/// of generated pieces.
pub proof fn lemma_grown_piece_connected(cells: Seq<CellWithRelativePosition>, target: int)
    requires
        grown_connected(cells),
        0 <= target < cells.len(),
    ensures
        exists|path: Seq<int>| is_cell_path(cells, path, target),
    decreases target,
{
    if target == 0 {
        let path = seq![0int];
        assert(is_cell_path(cells, path, 0));
    } else {
        assert(has_earlier_neighbor(cells, target));
        let j = choose|j: int|
            0 <= j < target && adjacent(
                cells[target].x as int,
                cells[target].y as int,
                (#[trigger] cells[j]).x as int,
                cells[j].y as int,
            );
        lemma_grown_piece_connected(cells, j);
        let prefix = choose|path: Seq<int>| is_cell_path(cells, path, j);
        let path = prefix.push(target);
        assert forall|k: int| 0 <= k < path.len() - 1 implies adjacent(
            cells[#[trigger] path[k]].x as int,
            cells[path[k]].y as int,
            cells[path[k + 1]].x as int,
            cells[path[k + 1]].y as int,
        ) by {
            if k < prefix.len() - 1 {
                assert(path[k] == prefix[k]);
                assert(path[k + 1] == prefix[k + 1]);
            } else {
                assert(path[k] == prefix[prefix.len() - 1]);
                assert(path[k + 1] == target);
            }
        }
        assert(is_cell_path(cells, path, target));
    }
}

/// Sum of the relative columns of the first `n` cells.
pub open spec fn sum_x_upto(cells: Seq<CellWithRelativePosition>, n: int) -> int
    decreases n,
{
    if n <= 0 {
        0
    } else {
        sum_x_upto(cells, n - 1) + cells[n - 1].x
    }
}

/// Sum of the relative rows of the first `n` cells.
pub open spec fn sum_y_upto(cells: Seq<CellWithRelativePosition>, n: int) -> int
    decreases n,
{
    if n <= 0 {
        0
    } else {
        sum_y_upto(cells, n - 1) + cells[n - 1].y
    }
}

/// `sum / m` rounded to the nearest integer, halves rounded away from zero —
/// the rule used for a piece's center of mass.
pub open spec fn round_to_nearest(sum: int, m: int) -> int {
    if sum >= 0 {
        (2 * sum + m) / (2 * m)
    } else {
        -((2 * (-sum) + m) / (2 * m))
    }
}

/// The smallest relative row offset from the pivot among the first `n`
/// cells of the piece.
pub open spec fn min_y_offset_upto(p: Piece, n: int) -> int
    decreases n,
{
    if n <= 1 {
        p.cells@[0].y - p.center_of_mass_y
    } else {
        let m = min_y_offset_upto(p, n - 1);
        let v = p.cells@[n - 1].y - p.center_of_mass_y;
        if v < m {
            v
        } else {
            m
        }
    }
}

/// Vertical clearance at spawn: the absolute value of the lowest relative
/// row offset among the piece's cells, so that no freshly spawned cell
/// projects above the top row.
pub open spec fn spawn_clearance(p: Piece) -> int {
    let m = min_y_offset_upto(p, p.cells@.len() as int);
    if m < 0 {
        -m
    } else {
        m
    }
}

/// The candidate site at index `j` touches some cell of the cluster.
pub open spec fn site_touches_cluster(
    cells: Seq<CellWithRelativePosition>,
    sites: Seq<(i32, i32)>,
    j: int,
) -> bool {
    exists|i: int|
        0 <= i < cells.len() && adjacent(
            sites[j].0 as int,
            sites[j].1 as int,
            (#[trigger] cells[i]).x as int,
            cells[i].y as int,
        )
}

/// The candidate-site list holds empty perimeter positions: each touches the
/// cluster, none repeats, and none is occupied by a cell. These are the
/// invariants a hash set of sites would give for free; a plain list keeps
/// them explicitly.
pub open spec fn sites_ok(cells: Seq<CellWithRelativePosition>, sites: Seq<(i32, i32)>) -> bool {
    &&& forall|j: int| 0 <= j < sites.len() ==> #[trigger] site_touches_cluster(cells, sites, j)
    &&& forall|m: int, n: int|
        0 <= m < n < sites.len() ==> #[trigger] sites[m] != #[trigger] sites[n]
    &&& forall|j: int|
        0 <= j < sites.len() ==> !occupied_at(
            cells,
            (#[trigger] sites[j]).0 as int,
            sites[j].1 as int,
        )
}

/// The cell at index `i` sits at least as high (in relative rows) as every
/// other cell, and the position directly above it is a candidate site. This
/// witnesses that the candidate list can never run dry.
pub open spec fn top_site_at(
    cells: Seq<CellWithRelativePosition>,
    sites: Seq<(i32, i32)>,
    i: int,
) -> bool {
    &&& 0 <= i < cells.len()
    &&& forall|k: int| 0 <= k < cells.len() ==> (#[trigger] cells[k]).y <= cells[i].y
    &&& sites.contains((cells[i].x, (cells[i].y + 1) as i32))
}

pub open spec fn has_top_site(
    cells: Seq<CellWithRelativePosition>,
    sites: Seq<(i32, i32)>,
) -> bool {
    exists|i: int| #[trigger] top_site_at(cells, sites, i)
}

/// Whether some cell of the cluster already occupies `(x, y)`.
fn occupied(cells: &Vec<CellWithRelativePosition>, x: i32, y: i32) -> (b: bool)
    ensures
        b == occupied_at(cells@, x as int, y as int),
{
    let mut i: usize = 0;
    while i < cells.len()
        invariant
            i <= cells@.len(),
            forall|k: int| 0 <= k < i ==> !((#[trigger] cells@[k]).x == x && cells@[k].y == y),
        decreases cells@.len() - i,
    {
        if cells[i].x == x && cells[i].y == y {
            return true;
        }
        i = i + 1;
    }
    false
}

/// Whether `(x, y)` is already on the candidate-site list.
fn site_listed(sites: &Vec<(i32, i32)>, x: i32, y: i32) -> (b: bool)
    ensures
        b == sites@.contains((x, y)),
{
    let mut i: usize = 0;
    while i < sites.len()
        invariant
            i <= sites@.len(),
            forall|k: int| 0 <= k < i ==> #[trigger] sites@[k] != (x, y),
        decreases sites@.len() - i,
    {
        if sites[i].0 == x && sites[i].1 == y {
            proof {
                assert(sites@[i as int] == (x, y));
            }
            return true;
        }
        i = i + 1;
    }
    false
}

/// Appends `(x, y)` to the candidate sites unless a cell occupies it or it
/// is already listed — the one-sided insert a set type would perform itself.
fn add_site_if_free(
    cells: &Vec<CellWithRelativePosition>,
    sites: &mut Vec<(i32, i32)>,
    x: i32,
    y: i32,
)
    ensures
        final(sites)@ == (if !occupied_at(cells@, x as int, y as int) && !old(sites)@.contains(
            (x, y),
        ) {
            old(sites)@.push((x, y))
        } else {
            old(sites)@
        }),
{
    if !occupied(cells, x, y) && !site_listed(sites, x, y) {
        sites.push((x, y));
    }
}

/// One conditional append to the candidate list keeps the list sound: each
/// listed site still touches the cluster, none repeats, none is occupied,
/// the coordinate bounds carry over, everything listed stays listed, and a
/// free appended position ends up listed.
proof fn lemma_site_step(
    cells: Seq<CellWithRelativePosition>,
    pre: Seq<(i32, i32)>,
    post: Seq<(i32, i32)>,
    x: i32,
    y: i32,
    newc: int,
    bound: int,
)
    requires
        post == (if !occupied_at(cells, x as int, y as int) && !pre.contains((x, y)) {
            pre.push((x, y))
        } else {
            pre
        }),
        forall|j: int| 0 <= j < pre.len() ==> #[trigger] site_touches_cluster(cells, pre, j),
        forall|m: int, n: int| 0 <= m < n < pre.len() ==> #[trigger] pre[m] != #[trigger] pre[n],
        forall|j: int|
            0 <= j < pre.len() ==> !occupied_at(cells, (#[trigger] pre[j]).0 as int, pre[j].1 as int),
        forall|j: int|
            0 <= j < pre.len() ==> -bound <= (#[trigger] pre[j]).0 <= bound && -bound <= pre[j].1
                <= bound,
        0 <= newc < cells.len(),
        adjacent(x as int, y as int, cells[newc].x as int, cells[newc].y as int),
        -bound <= x <= bound,
        -bound <= y <= bound,
    ensures
        forall|j: int| 0 <= j < post.len() ==> #[trigger] site_touches_cluster(cells, post, j),
        forall|m: int, n: int| 0 <= m < n < post.len() ==> #[trigger] post[m] != #[trigger] post[n],
        forall|j: int|
            0 <= j < post.len() ==> !occupied_at(
                cells,
                (#[trigger] post[j]).0 as int,
                post[j].1 as int,
            ),
        forall|j: int|
            0 <= j < post.len() ==> -bound <= (#[trigger] post[j]).0 <= bound && -bound
                <= post[j].1 <= bound,
        post.len() <= pre.len() + 1,
        forall|v: (i32, i32)| pre.contains(v) ==> #[trigger] post.contains(v),
        !occupied_at(cells, x as int, y as int) ==> post.contains((x, y)),
{
    if !occupied_at(cells, x as int, y as int) && !pre.contains((x, y)) {
        assert(post == pre.push((x, y)));
        assert(post[pre.len() as int] == (x, y));
        assert forall|j: int| 0 <= j < post.len() implies #[trigger] site_touches_cluster(
            cells,
            post,
            j,
        ) by {
            if j < pre.len() {
                assert(post[j] == pre[j]);
                assert(site_touches_cluster(cells, pre, j));
                let i0 = choose|i0: int|
                    0 <= i0 < cells.len() && adjacent(
                        pre[j].0 as int,
                        pre[j].1 as int,
                        (#[trigger] cells[i0]).x as int,
                        cells[i0].y as int,
                    );
                assert(adjacent(
                    post[j].0 as int,
                    post[j].1 as int,
                    cells[i0].x as int,
                    cells[i0].y as int,
                ));
            } else {
                assert(post[j] == (x, y));
                assert(adjacent(
                    post[j].0 as int,
                    post[j].1 as int,
                    cells[newc].x as int,
                    cells[newc].y as int,
                ));
            }
        }
        assert forall|m: int, n: int| 0 <= m < n < post.len() implies (#[trigger] post[m]) != (
        #[trigger] post[n]) by {
            if n == pre.len() {
                if post[m] == post[n] {
                    assert(pre[m] == (x, y));
                    assert(pre.contains((x, y)));
                }
            }
        }
        assert forall|v: (i32, i32)| pre.contains(v) implies #[trigger] post.contains(v) by {
            let m = choose|m: int| 0 <= m < pre.len() && pre[m] == v;
            assert(post[m] == v);
        }
    } else {
        assert(post == pre);
        if !occupied_at(cells, x as int, y as int) {
            assert(pre.contains((x, y)));
        }
    }
}

/// `sum / m` rounded to the nearest integer, halves away from zero.
fn round_div_half_from_zero(sum: i32, m: i32) -> (r: i32)
    requires
        3 <= m <= 5,
        -4 * m <= sum <= 4 * m,
    ensures
        r as int == round_to_nearest(sum as int, m as int),
        -4 <= r <= 4,
{
    let neg = sum < 0;
    let a: u32 = if neg {
        (-sum) as u32
    } else {
        sum as u32
    };
    let mu: u32 = m as u32;
    let q: u32 = (2 * a + mu) / (2 * mu);
    proof {
        lemma_div_is_ordered(2 * (a as int) + mu as int, 9 * (mu as int), 2 * (mu as int));
        if m == 3 {
            assert(27int / 6 == 4);
        } else if m == 4 {
            assert(36int / 8 == 4);
        } else {
            assert(45int / 10 == 4);
        }
    }
    let qi = q as i32;
    if neg {
        -qi
    } else {
        qi
    }
}

/// Everything the generator promises of every piece it can hand out:
/// well-formed, `MIN_PIECE_CELLS` to `MAX_PIECE_CELLS` cells growing
/// outward from an origin cell at `(0, 0)`, one shared hue, no repeated
/// position, and the pivot at the rounded average of the cell positions.
/// Callers that must cope with an arbitrary draw quantify over exactly
/// this class.
pub open spec fn generator_shaped(p: Piece) -> bool {
    &&& p.wf()
    &&& MIN_PIECE_CELLS <= p.cells@.len() <= MAX_PIECE_CELLS
    &&& p.cells@[0].x == 0 && p.cells@[0].y == 0
    &&& forall|i: int|
        0 <= i < p.cells@.len() ==> (#[trigger] p.cells@[i]).cell.hue == p.cells@[0].cell.hue
    &&& grown_connected(p.cells@)
    &&& cells_distinct(p.cells@)
    &&& p.center_of_mass_x as int == round_to_nearest(
        sum_x_upto(p.cells@, p.cells@.len() as int),
        p.cells@.len() as int,
    )
    &&& p.center_of_mass_y as int == round_to_nearest(
        sum_y_upto(p.cells@, p.cells@.len() as int),
        p.cells@.len() as int,
    )
}

impl Piece {
    /// Grows a random connected polyomino of `MIN_PIECE_CELLS` to
    /// `MAX_PIECE_CELLS` cells by repeatedly attaching a cell at a uniformly
    /// chosen empty perimeter site, then picks the rounded average of the
    /// cell positions as the center of mass. All cells share one random hue.
    /// Which shape comes out depends on the random source alone.
    #[verifier::rlimit(100)]
    pub fn generate_new(rng: &mut RandomNumberGenerator) -> (p: Piece)
        ensures
            generator_shaped(p),
    {
        let hue: u32 = rng.uniform(0, HUE_STEPS as usize) as u32;
        let size = rng.uniform(MIN_PIECE_CELLS, MAX_PIECE_CELLS + 1);
        let mut cells: Vec<CellWithRelativePosition> = Vec::new();
        cells.push(CellWithRelativePosition { cell: Cell::new(hue), x: 0, y: 0 });
        let mut sites: Vec<(i32, i32)> = Vec::new();
        sites.push((0, 1));
        sites.push((1, 0));
        sites.push((0, -1));
        sites.push((-1, 0));
        let mut count: usize = 1;
        proof {
            assert(top_site_at(cells@, sites@, 0)) by {
                assert(sites@[0] == (0i32, 1i32));
            }
        }
        while count < size
            invariant
                1 <= count <= size,
                MIN_PIECE_CELLS <= size <= MAX_PIECE_CELLS,
                hue < HUE_STEPS,
                cells@.len() == count,
                cells@[0].x == 0 && cells@[0].y == 0,
                forall|i: int| 0 <= i < count ==> (#[trigger] cells@[i]).cell.hue == hue,
                forall|i: int|
                    0 <= i < count ==> -(count - 1) <= (#[trigger] cells@[i]).x <= count - 1
                        && -(count - 1) <= cells@[i].y <= count - 1,
                forall|j: int|
                    0 <= j < sites@.len() ==> -(count as int) <= (#[trigger] sites@[j]).0
                        <= count as int && -(count as int) <= sites@[j].1 <= count as int,
                sites@.len() <= 4 * count,
                grown_connected(cells@),
                cells_distinct(cells@),
                sites_ok(cells@, sites@),
                has_top_site(cells@, sites@),
            decreases size - count,
        {
            proof {
                let ti = choose|ti: int| #[trigger] top_site_at(cells@, sites@, ti);
                assert(sites@.contains((cells@[ti].x, (cells@[ti].y + 1) as i32)));
                assert(sites@.len() >= 1);
            }
            let idx = rng.uniform(0, sites.len());
            let s = sites[idx];
            let sx = s.0;
            let sy = s.1;
            let ghost pre_cells = cells@;
            let ghost pre_sites = sites@;
            let ghost pre_count = count as int;
            cells.push(CellWithRelativePosition { cell: Cell::new(hue), x: sx, y: sy });
            sites.remove(idx);
            let ghost rem_sites = sites@;
            proof {
                // the freshly attached cell keeps the cluster grown-connected
                assert(site_touches_cluster(pre_cells, pre_sites, idx as int));
                let ni = choose|ni: int|
                    0 <= ni < pre_cells.len() && adjacent(
                        pre_sites[idx as int].0 as int,
                        pre_sites[idx as int].1 as int,
                        (#[trigger] pre_cells[ni]).x as int,
                        pre_cells[ni].y as int,
                    );
                assert(cells@[pre_count] == CellWithRelativePosition {
                    cell: Cell { hue },
                    x: sx,
                    y: sy,
                });
                assert(cells@[ni] == pre_cells[ni]);
                assert(has_earlier_neighbor(cells@, pre_count));
                assert forall|i: int| 1 <= i < cells@.len() implies #[trigger] has_earlier_neighbor(
                    cells@,
                    i,
                ) by {
                    if i < pre_count {
                        assert(has_earlier_neighbor(pre_cells, i));
                        let j = choose|j: int|
                            0 <= j < i && adjacent(
                                pre_cells[i].x as int,
                                pre_cells[i].y as int,
                                (#[trigger] pre_cells[j]).x as int,
                                pre_cells[j].y as int,
                            );
                        assert(cells@[j] == pre_cells[j]);
                        assert(cells@[i] == pre_cells[i]);
                    }
                }
                // the new cell stands on a site, which no cell occupied
                assert(!occupied_at(pre_cells, sx as int, sy as int));
                assert(cells_distinct(cells@)) by {
                    assert forall|i: int, j: int| 0 <= i < j < cells@.len() implies !((
                    #[trigger] cells@[i]).x == (#[trigger] cells@[j]).x && cells@[i].y
                        == cells@[j].y) by {
                        if j == pre_count {
                            assert(cells@[i] == pre_cells[i]);
                            if cells@[i].x == sx && cells@[i].y == sy {
                                assert(occupied_at(pre_cells, sx as int, sy as int));
                            }
                        } else {
                            assert(cells@[i] == pre_cells[i]);
                            assert(cells@[j] == pre_cells[j]);
                        }
                    }
                }
                // removing one site keeps the remaining sites sound
                assert forall|j: int| 0 <= j < rem_sites.len() implies {
                    &&& #[trigger] site_touches_cluster(cells@, rem_sites, j)
                    &&& !occupied_at(cells@, rem_sites[j].0 as int, rem_sites[j].1 as int)
                } by {
                    let o = if j < idx {
                        j
                    } else {
                        j + 1
                    };
                    assert(rem_sites[j] == pre_sites[o]);
                    assert(site_touches_cluster(pre_cells, pre_sites, o));
                    let i0 = choose|i0: int|
                        0 <= i0 < pre_cells.len() && adjacent(
                            pre_sites[o].0 as int,
                            pre_sites[o].1 as int,
                            (#[trigger] pre_cells[i0]).x as int,
                            pre_cells[i0].y as int,
                        );
                    assert(cells@[i0] == pre_cells[i0]);
                    assert(!occupied_at(pre_cells, pre_sites[o].0 as int, pre_sites[o].1 as int));
                    // the removed site was the only one at the new cell's spot
                    if rem_sites[j].0 == sx && rem_sites[j].1 == sy {
                        assert(pre_sites[o] == pre_sites[idx as int]);
                        assert(o != idx);
                    }
                    if occupied_at(cells@, rem_sites[j].0 as int, rem_sites[j].1 as int) {
                        let ic = choose|ic: int|
                            0 <= ic < cells@.len() && (#[trigger] cells@[ic]).x == rem_sites[j].0
                                && cells@[ic].y == rem_sites[j].1;
                        if ic < pre_count {
                            assert(pre_cells[ic] == cells@[ic]);
                            assert(occupied_at(
                                pre_cells,
                                pre_sites[o].0 as int,
                                pre_sites[o].1 as int,
                            ));
                        }
                    }
                }
                assert forall|m: int, n: int| 0 <= m < n < rem_sites.len() implies (
                #[trigger] rem_sites[m]) != (#[trigger] rem_sites[n]) by {
                    let om = if m < idx {
                        m
                    } else {
                        m + 1
                    };
                    let on = if n < idx {
                        n
                    } else {
                        n + 1
                    };
                    assert(rem_sites[m] == pre_sites[om]);
                    assert(rem_sites[n] == pre_sites[on]);
                }
            }
            proof {
                // coordinate bounds carry to the shortened list
                assert forall|j: int| 0 <= j < rem_sites.len() implies -(pre_count + 1) <= (
                #[trigger] rem_sites[j]).0 <= pre_count + 1 && -(pre_count + 1) <= rem_sites[j].1
                    <= pre_count + 1 by {
                    let o = if j < idx {
                        j
                    } else {
                        j + 1
                    };
                    assert(rem_sites[j] == pre_sites[o]);
                }
            }
            let ghost s0 = sites@;
            add_site_if_free(&cells, &mut sites, sx, sy + 1);
            let ghost s1 = sites@;
            proof {
                lemma_site_step(cells@, s0, s1, sx, (sy + 1) as i32, pre_count, pre_count + 1);
            }
            add_site_if_free(&cells, &mut sites, sx + 1, sy);
            let ghost s2 = sites@;
            proof {
                lemma_site_step(cells@, s1, s2, (sx + 1) as i32, sy, pre_count, pre_count + 1);
            }
            add_site_if_free(&cells, &mut sites, sx, sy - 1);
            let ghost s3 = sites@;
            proof {
                lemma_site_step(cells@, s2, s3, sx, (sy - 1) as i32, pre_count, pre_count + 1);
            }
            add_site_if_free(&cells, &mut sites, sx - 1, sy);
            let ghost s4 = sites@;
            proof {
                lemma_site_step(cells@, s3, s4, (sx - 1) as i32, sy, pre_count, pre_count + 1);
            }
            count = count + 1;
            proof {
                // a topmost cell still has the site above it listed
                let ti = choose|ti: int| #[trigger] top_site_at(pre_cells, pre_sites, ti);
                if sy > pre_cells[ti].y {
                    // the new cell became the strict top; the site above it
                    // was just offered and could not be occupied
                    assert(!occupied_at(cells@, sx as int, sy as int + 1)) by {
                        if occupied_at(cells@, sx as int, sy as int + 1) {
                            let ic = choose|ic: int|
                                0 <= ic < cells@.len() && (#[trigger] cells@[ic]).x as int
                                    == sx as int && cells@[ic].y as int == sy as int + 1;
                            if ic < pre_count {
                                assert(pre_cells[ic].y <= pre_cells[ti].y);
                            }
                        }
                    }
                    assert(s1.contains((sx, (sy + 1) as i32)));
                    assert(s4.contains((sx, (sy + 1) as i32)));
                    assert(top_site_at(cells@, sites@, pre_count)) by {
                        assert forall|k: int| 0 <= k < cells@.len() implies (
                        #[trigger] cells@[k]).y <= cells@[pre_count].y by {
                            if k < pre_count {
                                assert(cells@[k] == pre_cells[k]);
                                assert(pre_cells[k].y <= pre_cells[ti].y);
                            }
                        }
                    }
                } else {
                    // the old top cell keeps the crown; its site was not the
                    // one removed, so it is still listed
                    let v = (pre_cells[ti].x, (pre_cells[ti].y + 1) as i32);
                    let mv = choose|mv: int| 0 <= mv < pre_sites.len() && pre_sites[mv] == v;
                    assert(pre_sites[idx as int].1 == sy);
                    assert(v.1 as int == pre_cells[ti].y + 1 > sy as int);
                    assert(mv != idx);
                    if mv < idx {
                        assert(rem_sites[mv] == v);
                    } else {
                        assert(rem_sites[mv - 1] == v);
                    }
                    assert(rem_sites.contains(v));
                    assert(s4.contains(v));
                    assert(top_site_at(cells@, sites@, ti)) by {
                        assert(cells@[ti] == pre_cells[ti]);
                        assert forall|k: int| 0 <= k < cells@.len() implies (
                        #[trigger] cells@[k]).y <= cells@[ti].y by {
                            if k < pre_count {
                                assert(cells@[k] == pre_cells[k]);
                            }
                        }
                    }
                }
                assert(s4.len() <= rem_sites.len() + 4);
                assert(sites_ok(cells@, sites@));
            }
        }
        // center of mass: rounded average of the cell positions
        let mut sum_x: i32 = 0;
        let mut sum_y: i32 = 0;
        let mut i: usize = 0;
        while i < cells.len()
            invariant
                i <= cells@.len(),
                cells@.len() == count,
                MIN_PIECE_CELLS <= count <= MAX_PIECE_CELLS,
                forall|k: int|
                    0 <= k < count ==> -(count - 1) <= (#[trigger] cells@[k]).x <= count - 1
                        && -(count - 1) <= cells@[k].y <= count - 1,
                sum_x as int == sum_x_upto(cells@, i as int),
                sum_y as int == sum_y_upto(cells@, i as int),
                -4 * (i as int) <= sum_x as int <= 4 * (i as int),
                -4 * (i as int) <= sum_y as int <= 4 * (i as int),
            decreases cells@.len() - i,
        {
            sum_x = sum_x + cells[i].x;
            sum_y = sum_y + cells[i].y;
            i = i + 1;
        }
        let m = cells.len() as i32;
        let center_of_mass_x = round_div_half_from_zero(sum_x, m);
        let center_of_mass_y = round_div_half_from_zero(sum_y, m);
        Piece { cells, center_of_mass_x, center_of_mass_y }
    }
}

/// Law: four quarter turns in the same direction about the fixed center of
/// mass return every cell to its original relative position — rotation is a
/// group of order 4.
pub proof fn lemma_rotation_order_four(
    p0: Piece,
    p1: Piece,
    p2: Piece,
    p3: Piece,
    p4: Piece,
    clockwise: bool,
)
    requires
        is_rotation_of(p1, p0, clockwise),
        is_rotation_of(p2, p1, clockwise),
        is_rotation_of(p3, p2, clockwise),
        is_rotation_of(p4, p3, clockwise),
    ensures
        p4.center_of_mass_x == p0.center_of_mass_x,
        p4.center_of_mass_y == p0.center_of_mass_y,
        p4.cells@ == p0.cells@,
{
    assert forall|i: int| 0 <= i < p0.cells@.len() implies p4.cells@[i] == p0.cells@[i] by {
        assert(p0.cells@[i].cell == p1.cells@[i].cell);
        assert(p1.cells@[i].cell == p2.cells@[i].cell);
        assert(p2.cells@[i].cell == p3.cells@[i].cell);
        assert(p3.cells@[i].cell == p4.cells@[i].cell);
    }
    assert(p4.cells@ =~= p0.cells@);
}

/// Law: a quarter turn one way followed by a quarter turn the other way
/// leaves every cell where it started, so turns in opposite directions
/// cancel pair by pair.
pub proof fn lemma_rotation_inverse(p0: Piece, p1: Piece, p2: Piece, clockwise: bool)
    requires
        is_rotation_of(p1, p0, clockwise),
        is_rotation_of(p2, p1, !clockwise),
    ensures
        p2.center_of_mass_x == p0.center_of_mass_x,
        p2.center_of_mass_y == p0.center_of_mass_y,
        p2.cells@ == p0.cells@,
{
    assert forall|i: int| 0 <= i < p0.cells@.len() implies p2.cells@[i] == p0.cells@[i] by {
        assert(p0.cells@[i].cell == p1.cells@[i].cell);
        assert(p1.cells@[i].cell == p2.cells@[i].cell);
    }
    assert(p2.cells@ =~= p0.cells@);
}

} // verus!
