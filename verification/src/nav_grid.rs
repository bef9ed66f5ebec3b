//! A 3D navigation grid (x, y and depth layer) built from the level's physics, and an
//! A* path search over it. Cells are addressed by integer coordinates; converting world
//! positions to cells is the caller's business.

use vstd::prelude::*;
use vstd::arithmetic::div_mod::lemma_fundamental_div_mod_converse;
use vstd::set_lib::{lemma_int_range, lemma_len_subset, set_int_range};
use crate::layer::{Layer, layer_bit};

verus! {

/// Extra cost of a step to a neighbouring layer. The higher it is, the more seldom a
/// searcher changes layers.
pub const LAYER_CHANGE_COST: u64 = 2;

/// A cell of the grid: column, row and layer index (layer number minus one).
#[derive(Clone, Copy, Debug, PartialEq, Eq, Structural)]
pub struct Node {
    pub x: usize,
    pub y: usize,
    pub layer_id: usize,
}

/// One cell of a found path.
#[derive(Clone, Copy, Debug, PartialEq, Eq, Structural)]
pub struct PathSegment {
    pub x: usize,
    pub y: usize,
    pub layer: Layer,
}

/// The navigation grid: which cells have ground to stand on and which are blocked.
pub struct NavGrid {
    width: usize,
    height: usize,
    layers: usize,
    walkable: Vec<bool>,
    blocked: Vec<bool>,
}

/// The mathematical content of a grid.
pub struct GridView {
    pub width: nat,
    pub height: nat,
    pub layers: nat,
    pub walkable: Seq<bool>,
    pub blocked: Seq<bool>,
}

impl View for NavGrid {
    type V = GridView;

    closed spec fn view(&self) -> GridView {
        GridView {
            width: self.width as nat,
            height: self.height as nat,
            layers: self.layers as nat,
            walkable: self.walkable@,
            blocked: self.blocked@,
        }
    }
}

/// Absolute value.
pub open spec fn abs(a: int) -> int {
    if a < 0 {
        -a
    } else {
        a
    }
}

impl GridView {
    /// Number of cells.
    pub open spec fn cells(self) -> int {
        (self.width * self.height * self.layers) as int
    }

    /// Both cell arrays hold one entry per cell.
    pub open spec fn wf(self) -> bool {
        &&& self.width <= usize::MAX
        &&& self.height <= usize::MAX
        &&& self.layers <= usize::MAX
        &&& self.walkable.len() == self.cells()
        &&& self.blocked.len() == self.cells()
    }

    /// Position of a cell in the arrays: layer by layer, row by row.
    pub open spec fn index(self, x: int, y: int, l: int) -> int {
        l * self.width * self.height + y * self.width + x
    }

    pub open spec fn in_bounds(self, x: int, y: int, l: int) -> bool {
        0 <= x < self.width && 0 <= y < self.height && 0 <= l < self.layers
    }

    /// Position of a cell in the arrays.
    pub open spec fn idx(self, n: Node) -> int {
        self.index(n.x as int, n.y as int, n.layer_id as int)
    }

    pub open spec fn node_in_bounds(self, n: Node) -> bool {
        self.in_bounds(n.x as int, n.y as int, n.layer_id as int)
    }

    pub open spec fn walkable_at(self, x: int, y: int, l: int) -> bool {
        self.walkable[self.index(x, y, l)]
    }

    pub open spec fn blocked_at(self, x: int, y: int, l: int) -> bool {
        self.blocked[self.index(x, y, l)]
    }

    /// A cell where one can stand: it has ground and no obstacle.
    pub open spec fn standable(self, x: int, y: int, l: int) -> bool {
        self.in_bounds(x, y, l) && self.walkable_at(x, y, l) && !self.blocked_at(x, y, l)
    }

    /// Row `c` is at least as near to row `y` as row `d` is; equally near rows are ordered
    /// lowest first.
    pub open spec fn nearer(c: int, d: int, y: int) -> bool {
        abs(c - y) < abs(d - y) || (abs(c - y) == abs(d - y) && c <= d)
    }

    /// Row `c` is the standable row of column `x` on layer `l` nearest to row `y`.
    pub open spec fn is_nearest(self, x: int, y: int, l: int, c: int) -> bool {
        &&& self.standable(x, c, l)
        &&& forall|d: int| #[trigger] self.standable(x, d, l) ==> Self::nearer(c, d, y)
    }

    /// The standable row of column `x` on layer `l` nearest to row `y`, if the column has
    /// one.
    pub open spec fn nearest_y(self, x: int, y: int, l: int) -> Option<int> {
        if exists|c: int| self.is_nearest(x, y, l, c) {
            Some(choose|c: int| self.is_nearest(x, y, l, c))
        } else {
            None
        }
    }

    /// The step from `n` into column `x` on layer `l` with the given cost, if the column has a
    /// standable row.
    pub open spec fn step_into(self, n: Node, x: int, l: int, cost: int) -> Seq<(Node, int)> {
        match self.nearest_y(x, n.y as int, l) {
            Some(y) => seq![(Node { x: x as usize, y: y as usize, layer_id: l as usize }, cost)],
            None => seq![],
        }
    }

    /// The cells reachable from `n` in one step, with their costs, in the order in which
    /// the search considers them: left and right on the same layer (cost 1), then the
    /// layers below and above (cost `LAYER_CHANGE_COST`). A step lands on the standable row
    /// of the new column or layer nearest to the current row.
    pub open spec fn neighbors(self, n: Node) -> Seq<(Node, int)> {
        let left = if n.x >= 1 {
            self.step_into(n, n.x - 1, n.layer_id as int, 1)
        } else {
            seq![]
        };
        let right = if n.x + 1 < self.width {
            self.step_into(n, n.x + 1, n.layer_id as int, 1)
        } else {
            seq![]
        };
        let below = if n.layer_id >= 1 {
            self.step_into(n, n.x as int, n.layer_id - 1, LAYER_CHANGE_COST as int)
        } else {
            seq![]
        };
        let above = if n.layer_id + 1 < self.layers {
            self.step_into(n, n.x as int, n.layer_id + 1, LAYER_CHANGE_COST as int)
        } else {
            seq![]
        };
        left + right + below + above
    }

    /// The cost of a step from `a` to `b`.
    pub open spec fn step_cost(a: Node, b: Node) -> int {
        if a.layer_id == b.layer_id {
            1
        } else {
            LAYER_CHANGE_COST as int
        }
    }

    /// `b` is reachable from `a` in one step.
    pub open spec fn is_step(self, a: Node, b: Node) -> bool {
        self.neighbors(a).contains((b, Self::step_cost(a, b)))
    }

    /// A path: a non-empty sequence of cells, each reachable from the one before.
    pub open spec fn is_path(self, p: Seq<Node>) -> bool {
        &&& p.len() > 0
        &&& forall|i: int| 0 <= i < p.len() - 1 ==> self.is_step(#[trigger] p[i], p[i + 1])
    }

    /// The cell where a search starts or ends for cell (`cx`, `cy`) on `layer`: the nearest
    /// standable row of that column, if the column is in the grid and has one.
    pub open spec fn build(self, cx: int, cy: int, layer: Layer) -> Option<Node> {
        let l = layer.spec_id() - 1;
        if cx < self.width && 0 <= l < self.layers {
            match self.nearest_y(cx, if cy < self.height - 1 { cy } else { self.height - 1 }, l) {
                Some(y) => Some(Node { x: cx as usize, y: y as usize, layer_id: l as usize }),
                None => None,
            }
        } else {
            None
        }
    }
}

/// The cost of a path: the sum of its steps' costs.
pub open spec fn path_cost(p: Seq<Node>) -> int
    decreases p.len(),
{
    if p.len() <= 1 {
        0
    } else {
        GridView::step_cost(p[0], p[1]) + path_cost(p.drop_first())
    }
}

/// `n` is in the target's column and layer.
pub open spec fn is_goal(n: Node, t: Node) -> bool {
    n.x == t.x && n.layer_id == t.layer_id
}

/// The search's estimate of the cost from `n` to the target `t`: the column distance plus
/// the layer distance weighted by the cost of a layer change.
pub open spec fn heuristic(n: Node, t: Node) -> int {
    abs(n.x - t.x) + abs(n.layer_id - t.layer_id) * (LAYER_CHANGE_COST as int)
}

/// A value clamped from above.
pub open spec fn clamp_to(a: int, hi: int) -> int {
    if a > hi {
        hi
    } else {
        a
    }
}

/// Whether cell (a, b) of layer c lies in the rectangle [x0, x1] x [y0, y1] of layer l.
pub open spec fn in_rect(x0: int, y0: int, x1: int, y1: int, l: int, a: int, b: int, c: int) -> bool {
    c == l && x0 <= a <= x1 && y0 <= b <= y1
}

/// The number of set entries.
pub open spec fn count_true(s: Seq<bool>) -> nat
    decreases s.len(),
{
    if s.len() == 0 {
        0
    } else {
        count_true(s.drop_last()) + if s.last() {
            1nat
        } else {
            0nat
        }
    }
}

/// An element of a concatenation is an element of one of the parts.
proof fn lemma_concat_contains<A>(x: Seq<A>, y: Seq<A>, e: A)
    requires
        (x + y).contains(e),
    ensures
        x.contains(e) || y.contains(e),
{
    let i = choose|i: int| 0 <= i < (x + y).len() && (x + y)[i] == e;
    if i < x.len() {
        assert(x[i] == e);
    } else {
        assert(y[i - x.len()] == e);
    }
}

/// A step into a column lands on the column's nearest standable row.
proof fn lemma_step_into(v: GridView, n: Node, x: int, l: int, cost: int, b: Node, c: int)
    requires
        v.step_into(n, x, l, cost).contains((b, c)),
        v.wf(),
        0 <= x <= usize::MAX,
        0 <= l <= usize::MAX,
    ensures
        b.x == x,
        b.layer_id == l,
        c == cost,
        v.standable(b.x as int, b.y as int, b.layer_id as int),
        v.is_nearest(x, n.y as int, l, b.y as int),
{
    let y = v.nearest_y(x, n.y as int, l)->0;
    assert(v.nearest_y(x, n.y as int, l) is Some);
    assert(v.is_nearest(x, n.y as int, l, y));
    assert(v.step_into(n, x, l, cost)[0] == (b, c));
}

/// What a step looks like: one column sideways on the same layer at cost 1, or one layer
/// in depth in the same column at cost `LAYER_CHANGE_COST`, onto a standable cell.
pub proof fn lemma_neighbor_shape(v: GridView, a: Node, b: Node, c: int)
    requires
        v.wf(),
        v.neighbors(a).contains((b, c)),
    ensures
        v.standable(b.x as int, b.y as int, b.layer_id as int),
        v.node_in_bounds(b),
        c == GridView::step_cost(a, b),
        v.is_nearest(b.x as int, a.y as int, b.layer_id as int, b.y as int),
        b != a,
        (c == 1 && b.layer_id == a.layer_id && (b.x + 1 == a.x || b.x == a.x + 1)) || (c
            == LAYER_CHANGE_COST && b.x == a.x && (b.layer_id + 1 == a.layer_id || b.layer_id
            == a.layer_id + 1)),
{
    let left = if a.x >= 1 {
        v.step_into(a, a.x - 1, a.layer_id as int, 1)
    } else {
        seq![]
    };
    let right = if a.x + 1 < v.width {
        v.step_into(a, a.x + 1, a.layer_id as int, 1)
    } else {
        seq![]
    };
    let below = if a.layer_id >= 1 {
        v.step_into(a, a.x as int, a.layer_id - 1, LAYER_CHANGE_COST as int)
    } else {
        seq![]
    };
    let above = if a.layer_id + 1 < v.layers {
        v.step_into(a, a.x as int, a.layer_id + 1, LAYER_CHANGE_COST as int)
    } else {
        seq![]
    };
    let e = (b, c);
    lemma_concat_contains(left + right + below, above, e);
    if (left + right + below).contains(e) {
        lemma_concat_contains(left + right, below, e);
        if (left + right).contains(e) {
            lemma_concat_contains(left, right, e);
            if left.contains(e) {
                lemma_step_into(v, a, a.x - 1, a.layer_id as int, 1, b, c);
            } else {
                lemma_step_into(v, a, a.x + 1, a.layer_id as int, 1, b, c);
            }
        } else {
            lemma_step_into(v, a, a.x as int, a.layer_id - 1, LAYER_CHANGE_COST as int, b, c);
        }
    } else {
        lemma_step_into(v, a, a.x as int, a.layer_id + 1, LAYER_CHANGE_COST as int, b, c);
    }
}

/// A step lands on the standable row of its new column and layer that is nearest to the
/// row it leaves: no standable row there is nearer, and an equally near one is not lower.
pub proof fn lemma_step_lands_nearest(v: GridView, a: Node, b: Node, c: int, d: int)
    requires
        v.wf(),
        v.neighbors(a).contains((b, c)),
        0 <= d < v.height,
        v.walkable[v.index(b.x as int, d, b.layer_id as int)],
        !v.blocked[v.index(b.x as int, d, b.layer_id as int)],
    ensures
        0 <= b.y < v.height,
        v.walkable[v.index(b.x as int, b.y as int, b.layer_id as int)],
        !v.blocked[v.index(b.x as int, b.y as int, b.layer_id as int)],
        abs(b.y - a.y) < abs(d - a.y) || (abs(b.y - a.y) == abs(d - a.y) && b.y <= d),
{
    lemma_neighbor_shape(v, a, b, c);
    assert(v.standable(b.x as int, d, b.layer_id as int));
}

/// Among the standable rows below `k` of column `x` on layer `l`, if there is one, one is
/// nearest to row `y`.
proof fn lemma_nearest_below(v: GridView, x: int, y: int, l: int, k: int)
    requires
        exists|d: int| 0 <= d < k && #[trigger] v.standable(x, d, l),
    ensures
        exists|c: int|
            0 <= c < k && #[trigger] v.standable(x, c, l) && forall|d: int|
                0 <= d < k && #[trigger] v.standable(x, d, l) ==> GridView::nearer(c, d, y),
    decreases k,
{
    if exists|d: int| 0 <= d < k - 1 && #[trigger] v.standable(x, d, l) {
        lemma_nearest_below(v, x, y, l, k - 1);
        let c = choose|c: int|
            0 <= c < k - 1 && #[trigger] v.standable(x, c, l) && forall|d: int|
                0 <= d < k - 1 && #[trigger] v.standable(x, d, l) ==> GridView::nearer(c, d, y);
        if v.standable(x, k - 1, l) && !GridView::nearer(c, k - 1, y) {
            assert(v.standable(x, k - 1, l));
            assert forall|d: int| 0 <= d < k && #[trigger] v.standable(x, d, l) implies GridView::nearer(
                k - 1,
                d,
                y,
            ) by {
                if d < k - 1 {
                    assert(GridView::nearer(c, d, y));
                }
            }
        } else {
            assert(v.standable(x, c, l));
        }
    } else {
        assert(v.standable(x, k - 1, l));
        assert forall|d: int| 0 <= d < k && #[trigger] v.standable(x, d, l) implies GridView::nearer(
            k - 1,
            d,
            y,
        ) by {
            if d < k - 1 {
                assert(false);
            }
        }
    }
}

/// A column with a standable row has a nearest one to any row.
proof fn lemma_nearest_exists(v: GridView, x: int, y: int, l: int, d: int)
    requires
        v.standable(x, d, l),
    ensures
        v.nearest_y(x, y, l) is Some,
{
    lemma_nearest_below(v, x, y, l, v.height as int);
    let c = choose|c: int|
        0 <= c < v.height && #[trigger] v.standable(x, c, l) && forall|e: int|
            0 <= e < v.height && #[trigger] v.standable(x, e, l) ==> GridView::nearer(c, e, y);
    assert(v.is_nearest(x, y, l, c));
}

/// Every move is a step: sideways into a neighbouring column on the same layer, or in depth
/// onto a neighbouring layer of the same column, whenever that column has a cell with ground
/// and no obstacle, with cost 1 sideways and `LAYER_CHANGE_COST` in depth.
pub proof fn lemma_steps_complete(v: GridView, a: Node, x: int, l: int, d: int)
    requires
        v.wf(),
        v.node_in_bounds(a),
        (l == a.layer_id && (x + 1 == a.x || x == a.x + 1)) || (x == a.x && (l + 1 == a.layer_id
            || l == a.layer_id + 1)),
        0 <= x < v.width,
        0 <= l < v.layers,
        0 <= d < v.height,
        v.walkable[v.index(x, d, l)],
        !v.blocked[v.index(x, d, l)],
    ensures
        exists|b: Node, c: int|
            b.x == x && b.layer_id == l && c == (if l == a.layer_id {
                1
            } else {
                LAYER_CHANGE_COST as int
            }) && #[trigger] v.neighbors(a).contains((b, c)),
{
    assert(v.standable(x, d, l));
    lemma_nearest_exists(v, x, a.y as int, l, d);
    let cost = if l == a.layer_id { 1 } else { LAYER_CHANGE_COST as int };
    let y = v.nearest_y(x, a.y as int, l)->0;
    let b = Node { x: x as usize, y: y as usize, layer_id: l as usize };
    assert(v.step_into(a, x, l, cost) == seq![(b, cost)]);
    let left = if a.x >= 1 {
        v.step_into(a, a.x - 1, a.layer_id as int, 1)
    } else {
        seq![]
    };
    let right = if a.x + 1 < v.width {
        v.step_into(a, a.x + 1, a.layer_id as int, 1)
    } else {
        seq![]
    };
    let below = if a.layer_id >= 1 {
        v.step_into(a, a.x as int, a.layer_id - 1, LAYER_CHANGE_COST as int)
    } else {
        seq![]
    };
    let above = if a.layer_id + 1 < v.layers {
        v.step_into(a, a.x as int, a.layer_id + 1, LAYER_CHANGE_COST as int)
    } else {
        seq![]
    };
    let all = left + right + below + above;
    assert(all == v.neighbors(a));
    let e = (b, cost);
    if l == a.layer_id && x + 1 == a.x {
        assert(all[0] == e);
    } else if l == a.layer_id {
        assert(all[left.len() as int] == e);
    } else if l + 1 == a.layer_id {
        assert(all[(left.len() + right.len()) as int] == e);
    } else {
        assert(all[(left.len() + right.len() + below.len()) as int] == e);
    }
    assert(all.contains(e));
}

/// A search can start or end in every column of the grid, on every layer, that has a cell
/// with ground and no obstacle, whatever row is requested.
pub proof fn lemma_build_exists(v: GridView, cx: int, cy: int, layer: Layer, d: int)
    requires
        v.wf(),
        0 <= cx < v.width,
        1 <= layer.spec_id() <= v.layers,
        0 <= d < v.height,
        v.walkable[v.index(cx, d, layer.spec_id() - 1)],
        !v.blocked[v.index(cx, d, layer.spec_id() - 1)],
    ensures
        v.build(cx, cy, layer) is Some,
{
    let l = layer.spec_id() - 1;
    assert(v.standable(cx, d, l));
    lemma_nearest_exists(v, cx, if cy < v.height - 1 { cy } else { v.height - 1 }, l, d);
}

/// Where a search starts or ends for a requested cell: in the requested column and on the
/// requested layer, on a standable row, and no standable row of that column is nearer to the
/// requested row (or to the top row, when the request lies above the grid); an equally near
/// row is not lower.
pub proof fn lemma_build_nearest(v: GridView, cx: int, cy: int, layer: Layer, d: int)
    requires
        v.wf(),
        0 <= cx,
        0 <= cy,
        v.build(cx, cy, layer) is Some,
        0 <= d < v.height,
        v.walkable[v.index(cx, d, layer.spec_id() - 1)],
        !v.blocked[v.index(cx, d, layer.spec_id() - 1)],
    ensures
        ({
            let n = v.build(cx, cy, layer)->0;
            let row = if cy < v.height - 1 { cy } else { v.height - 1 };
            &&& n.x == cx
            &&& n.layer_id == layer.spec_id() - 1
            &&& 0 <= n.y < v.height
            &&& v.walkable[v.index(cx, n.y as int, n.layer_id as int)]
            &&& !v.blocked[v.index(cx, n.y as int, n.layer_id as int)]
            &&& abs(n.y - row) < abs(d - row) || (abs(n.y - row) == abs(d - row) && n.y <= d)
        }),
{
    let l = layer.spec_id() - 1;
    let row = if cy < v.height - 1 { cy } else { v.height - 1 };
    let y = v.nearest_y(cx, row, l)->0;
    assert(v.is_nearest(cx, row, l, y));
    assert(v.standable(cx, d, l));
}

/// The search's estimate never exceeds the cost of a step plus the estimate after it.
pub proof fn lemma_heuristic_consistent(v: GridView, a: Node, b: Node, t: Node)
    requires
        v.wf(),
        v.is_step(a, b),
    ensures
        heuristic(a, t) <= GridView::step_cost(a, b) + heuristic(b, t),
{
    lemma_neighbor_shape(v, a, b, GridView::step_cost(a, b));
}

/// The cost of a path is the cost of its first `j + 1` cells plus the cost from cell `j` on.
pub proof fn lemma_path_cost_split(p: Seq<Node>, j: int)
    requires
        0 <= j < p.len(),
    ensures
        path_cost(p) == path_cost(p.take(j + 1)) + path_cost(p.skip(j)),
    decreases j,
{
    if j == 0 {
        assert(p.skip(0) =~= p);
    } else {
        let d = p.drop_first();
        lemma_path_cost_split(d, j - 1);
        assert(d.skip(j - 1) =~= p.skip(j));
        assert(p.take(j + 1).drop_first() =~= d.take(j));
    }
}

/// Extending a prefix of a path by one cell adds that step's cost.
proof fn lemma_path_cost_extend(p: Seq<Node>, k: int)
    requires
        1 <= k < p.len(),
    ensures
        path_cost(p.take(k + 1)) == path_cost(p.take(k)) + GridView::step_cost(p[k - 1], p[k]),
{
    let q = p.take(k + 1);
    lemma_path_cost_split(q, k - 1);
    assert(q.take(k) =~= p.take(k));
    let r = q.skip(k - 1);
    assert(r.len() == 2);
    assert(r[0] == p[k - 1]);
    assert(r[1] == p[k]);
    assert(r.drop_first().len() == 1);
    assert(path_cost(r) == GridView::step_cost(r[0], r[1]) + path_cost(r.drop_first()));
}

/// On a path that ends in the target's column and layer, the estimate at cell `j` is at
/// most the cost of the rest of the path.
proof fn lemma_heuristic_admissible(v: GridView, p: Seq<Node>, t: Node, j: int)
    requires
        v.wf(),
        v.is_path(p),
        is_goal(p.last(), t),
        0 <= j < p.len(),
    ensures
        heuristic(p[j], t) <= path_cost(p.skip(j)),
    decreases p.len() - j,
{
    if j == p.len() - 1 {
    } else {
        lemma_heuristic_admissible(v, p, t, j + 1);
        assert(v.is_step(p[j], p[j + 1]));
        lemma_heuristic_consistent(v, p[j], p[j + 1], t);
        assert(p.skip(j).drop_first() =~= p.skip(j + 1));
    }
}

/// The cell index lies in the arrays and determines the cell.
pub proof fn lemma_index(v: GridView, x: int, y: int, l: int)
    requires
        v.in_bounds(x, y, l),
    ensures
        0 <= v.index(x, y, l) < v.cells(),
        v.index(x, y, l) % (v.width as int) == x,
        (v.index(x, y, l) / (v.width as int)) % (v.height as int) == y,
        (v.index(x, y, l) / (v.width as int)) / (v.height as int) == l,
        l * v.width <= l * v.width * v.height,
        l * v.width * v.height <= v.index(x, y, l),
        y * v.width <= v.index(x, y, l),
{
    let w = v.width as int;
    let h = v.height as int;
    let lw = l * w;
    let idx = v.index(x, y, l);
    assert(l * w * h == (l * h) * w) by (nonlinear_arith);
    assert(idx == (l * h + y) * w + x) by (nonlinear_arith)
        requires
            idx == l * w * h + y * w + x,
            l * w * h == (l * h) * w,
    ;
    lemma_fundamental_div_mod_converse(idx, w, l * h + y, x);
    lemma_fundamental_div_mod_converse(l * h + y, h, l, y);
    assert(0 <= l * h + y < v.layers * h) by (nonlinear_arith)
        requires
            0 <= l < v.layers,
            0 <= y < h,
    ;
    assert(idx < (v.layers * h) * w) by (nonlinear_arith)
        requires
            0 <= l * h + y < v.layers * h,
            idx == (l * h + y) * w + x,
            0 <= x < w,
    ;
    assert((v.layers * h) * w == v.cells()) by (nonlinear_arith)
        requires
            h == v.height,
            w == v.width,
    ;
    assert(0 <= l * w <= l * w * h) by (nonlinear_arith)
        requires
            0 <= l,
            0 < h,
            0 < w,
    ;
    assert(0 <= y * w) by (nonlinear_arith)
        requires
            0 <= y,
            0 < w,
    ;
}

/// The cells of layer `l` end within the arrays.
proof fn lemma_layer_end(v: GridView, l: int)
    requires
        0 <= l < v.layers,
    ensures
        (l + 1) * v.width * v.height <= v.cells(),
{
    assert((l + 1) * v.width * v.height <= v.width * v.height * v.layers) by (nonlinear_arith)
        requires
            0 <= l < v.layers,
    ;
}

/// Different cells have different indices.
pub proof fn lemma_index_injective(v: GridView, a: Node, b: Node)
    requires
        v.node_in_bounds(a),
        v.node_in_bounds(b),
        v.index(a.x as int, a.y as int, a.layer_id as int) == v.index(
            b.x as int,
            b.y as int,
            b.layer_id as int,
        ),
    ensures
        a == b,
{
    lemma_index(v, a.x as int, a.y as int, a.layer_id as int);
    lemma_index(v, b.x as int, b.y as int, b.layer_id as int);
}

/// Setting one entry of a cell array to `true` sets that cell and no other.
proof fn lemma_set_cell(v: GridView, old_cells: Seq<bool>, new_cells: Seq<bool>, x: int, y: int, l: int)
    requires
        v.in_bounds(x, y, l),
        old_cells.len() == v.cells(),
        new_cells == old_cells.update(v.index(x, y, l), true),
    ensures
        new_cells.len() == v.cells(),
        forall|a: int, b: int, c: int|
            v.in_bounds(a, b, c) ==> #[trigger] new_cells[v.index(a, b, c)] == (old_cells[v.index(
                a,
                b,
                c,
            )] || (a == x && b == y && c == l)),
{
    lemma_index(v, x, y, l);
    assert forall|a: int, b: int, c: int| v.in_bounds(a, b, c) implies #[trigger] new_cells[v.index(
        a,
        b,
        c,
    )] == (old_cells[v.index(a, b, c)] || (a == x && b == y && c == l)) by {
        lemma_index(v, a, b, c);
        if v.index(a, b, c) == v.index(x, y, l) {
            lemma_index_injective(
                v,
                Node { x: a as usize, y: b as usize, layer_id: c as usize },
                Node { x: x as usize, y: y as usize, layer_id: l as usize },
            );
        }
    }
}

/// Sets the cells of the rectangle [x0, x1] x [y0, y1] on layer `l`.
fn fill_rect(
    cells: &mut Vec<bool>,
    Ghost(v): Ghost<GridView>,
    width: usize,
    height: usize,
    x0: usize,
    y0: usize,
    x1: usize,
    y1: usize,
    l: usize,
)
    requires
        v.width == width,
        v.height == height,
        old(cells)@.len() == v.cells(),
        x1 < width,
        y1 < height,
        l < v.layers,
    ensures
        final(cells)@.len() == v.cells(),
        forall|a: int, b: int, c: int|
            v.in_bounds(a, b, c) ==> #[trigger] final(cells)@[v.index(a, b, c)] == (old(
                cells,
            )@[v.index(a, b, c)] || in_rect(x0 as int, y0 as int, x1 as int, y1 as int, l as int, a, b, c)),
{
    let n = cells.len();
    let ghost start = cells@;
    if x0 > x1 || y0 > y1 {
        return;
    }
    let mut y = y0;
    while y <= y1
        invariant
            v.width == width,
            v.height == height,
            cells@.len() == v.cells(),
            n == cells@.len(),
            x1 < width,
            y1 < height,
            l < v.layers,
            x0 <= x1,
            y0 <= y <= y1 + 1,
            forall|a: int, b: int, c: int|
                v.in_bounds(a, b, c) ==> #[trigger] cells@[v.index(a, b, c)] == (start[v.index(
                    a,
                    b,
                    c,
                )] || in_rect(x0 as int, y0 as int, x1 as int, (y - 1) as int, l as int, a, b, c)),
        decreases y1 + 1 - y,
    {
        let mut x = x0;
        while x <= x1
            invariant
                v.width == width,
                v.height == height,
                cells@.len() == v.cells(),
                n == cells@.len(),
                x1 < width,
                y1 < height,
                l < v.layers,
                y0 <= y <= y1,
                x0 <= x <= x1 + 1,
                forall|a: int, b: int, c: int|
                    v.in_bounds(a, b, c) ==> #[trigger] cells@[v.index(a, b, c)] == (start[v.index(
                        a,
                        b,
                        c,
                    )] || in_rect(x0 as int, y0 as int, x1 as int, (y - 1) as int, l as int, a, b, c)
                        || in_rect(x0 as int, y as int, (x - 1) as int, y as int, l as int, a, b, c)),
            decreases x1 + 1 - x,
        {
            proof {
                lemma_index(v, x as int, y as int, l as int);
            }
            let i = l * width * height + y * width + x;
            let ghost before = cells@;
            cells[i] = true;
            proof {
                lemma_set_cell(v, before, cells@, x as int, y as int, l as int);
            }
            x = x + 1;
        }
        y = y + 1;
    }
}

/// Counts the set entries of `cells` on one layer of a `width` x `height` grid.
fn count_layer(cells: &Vec<bool>, width: usize, height: usize, layer: usize) -> (r: usize)
    requires
        layer * width <= usize::MAX,
        (layer + 1) * width * height <= cells@.len(),
    ensures
        r == count_true(
            cells@.subrange(layer * width * height, (layer + 1) * width * height),
        ),
{
    let len = cells.len();
    assert((layer + 1) * width * height == layer * width * height + width * height
        && 0 <= layer * width * height && 0 <= width * height) by (nonlinear_arith);
    let start = layer * width * height;
    let end = start + width * height;
    let mut count: usize = 0;
    let mut i = start;
    assert(cells@.subrange(start as int, start as int) =~= Seq::<bool>::empty());
    while i < end
        invariant
            start <= i <= end,
            end <= cells@.len(),
            count == count_true(cells@.subrange(start as int, i as int)),
            count <= i - start,
        decreases end - i,
    {
        assert(cells@.subrange(start as int, i + 1).drop_last() =~= cells@.subrange(
            start as int,
            i as int,
        ));
        if cells[i] {
            count = count + 1;
        }
        i = i + 1;
    }
    count
}

impl NavGrid {
    /// A grid of `width` x `height` cells on `layers` layers, with no ground and no
    /// obstacles.
    pub fn new(width: usize, height: usize, layers: usize) -> (r: NavGrid)
        requires
            width * height <= usize::MAX,
            width * height * layers <= usize::MAX,
        ensures
            r@.width == width,
            r@.height == height,
            r@.layers == layers,
            r@.wf(),
            forall|i: int| 0 <= i < r@.cells() ==> !r@.walkable[i] && !r@.blocked[i],
    {
        let n = width * height * layers;
        let mut walkable: Vec<bool> = Vec::new();
        let mut blocked: Vec<bool> = Vec::new();
        let mut i: usize = 0;
        while i < n
            invariant
                i <= n,
                walkable@.len() == i,
                blocked@.len() == i,
                forall|j: int| 0 <= j < i ==> !walkable@[j] && !blocked@[j],
            decreases n - i,
        {
            walkable.push(false);
            blocked.push(false);
            i = i + 1;
        }
        NavGrid { width, height, layers, walkable, blocked }
    }

    /// Marks every cell as having ground.
    pub fn fill_walkable(&mut self)
        requires
            old(self)@.wf(),
        ensures
            final(self)@.width == old(self)@.width,
            final(self)@.height == old(self)@.height,
            final(self)@.layers == old(self)@.layers,
            final(self)@.blocked == old(self)@.blocked,
            final(self)@.wf(),
            forall|i: int| 0 <= i < final(self)@.cells() ==> #[trigger] final(self)@.walkable[i],
    {
        let n = self.walkable.len();
        let mut i: usize = 0;
        while i < n
            invariant
                i <= n,
                n == self.walkable@.len(),
                self.width == old(self).width,
                self.height == old(self).height,
                self.layers == old(self).layers,
                self.blocked@ == old(self).blocked@,
                forall|j: int| 0 <= j < i ==> #[trigger] self.walkable@[j],
            decreases n - i,
        {
            self.walkable[i] = true;
            i = i + 1;
        }
    }

    /// Forgets all ground and all obstacles.
    pub fn reset(&mut self)
        requires
            old(self)@.wf(),
        ensures
            final(self)@.width == old(self)@.width,
            final(self)@.height == old(self)@.height,
            final(self)@.layers == old(self)@.layers,
            final(self)@.wf(),
            forall|i: int|
                0 <= i < final(self)@.cells() ==> !#[trigger] final(self)@.walkable[i]
                    && !final(self)@.blocked[i],
    {
        let n = self.walkable.len();
        let mut i: usize = 0;
        while i < n
            invariant
                i <= n,
                n == self.walkable@.len(),
                n == self.blocked@.len(),
                self.width == old(self).width,
                self.height == old(self).height,
                self.layers == old(self).layers,
                forall|j: int| 0 <= j < i ==> !#[trigger] self.walkable@[j] && !self.blocked@[j],
            decreases n - i,
        {
            self.walkable[i] = false;
            self.blocked[i] = false;
            i = i + 1;
        }
    }

    /// Position of a cell in the arrays.
    fn index(&self, x: usize, y: usize, layer: usize) -> (r: usize)
        requires
            self@.wf(),
            self@.in_bounds(x as int, y as int, layer as int),
        ensures
            r == self@.index(x as int, y as int, layer as int),
            r < self@.cells(),
    {
        let n = self.walkable.len();
        proof {
            lemma_index(self@, x as int, y as int, layer as int);
        }
        layer * self.width * self.height + y * self.width + x
    }

    /// Number of columns.
    pub fn width(&self) -> (r: usize)
        ensures
            r == self@.width,
    {
        self.width
    }

    /// Number of rows.
    pub fn height(&self) -> (r: usize)
        ensures
            r == self@.height,
    {
        self.height
    }

    /// Number of layers.
    pub fn layers(&self) -> (r: usize)
        ensures
            r == self@.layers,
    {
        self.layers
    }

    /// Clamps a cell's coordinates into the grid.
    pub fn limit_cell(&self, cell: (usize, usize)) -> (r: (usize, usize))
        requires
            self@.width > 0,
            self@.height > 0,
        ensures
            r.0 == clamp_to(cell.0 as int, self@.width - 1),
            r.1 == clamp_to(cell.1 as int, self@.height - 1),
    {
        let max_x = self.width - 1;
        let max_y = self.height - 1;
        let x = if cell.0 > max_x { max_x } else { cell.0 };
        let y = if cell.1 > max_y { max_y } else { cell.1 };
        (x, y)
    }

    /// Marks the cells from `min` to `max` (clamped into the grid) on layer `layer_id` as
    /// having ground. Nothing happens for a layer that the grid does not have.
    pub fn add_ground(&mut self, min: (usize, usize), max: (usize, usize), layer_id: usize)
        requires
            old(self)@.wf(),
            layer_id < old(self)@.layers ==> old(self)@.width > 0 && old(self)@.height > 0,
        ensures
            final(self)@.width == old(self)@.width,
            final(self)@.height == old(self)@.height,
            final(self)@.layers == old(self)@.layers,
            final(self)@.blocked == old(self)@.blocked,
            final(self)@.wf(),
            forall|a: int, b: int, c: int|
                old(self)@.in_bounds(a, b, c) ==> #[trigger] final(self)@.walkable_at(a, b, c) == (
                old(self)@.walkable_at(a, b, c) || (layer_id < old(self)@.layers && in_rect(
                    clamp_to(min.0 as int, old(self)@.width - 1),
                    clamp_to(min.1 as int, old(self)@.height - 1),
                    clamp_to(max.0 as int, old(self)@.width - 1),
                    clamp_to(max.1 as int, old(self)@.height - 1),
                    layer_id as int,
                    a,
                    b,
                    c,
                ))),
    {
        if layer_id >= self.layers {
            return;
        }
        let (x0, y0) = self.limit_cell(min);
        let (x1, y1) = self.limit_cell(max);
        let ghost v = self@;
        fill_rect(&mut self.walkable, Ghost(v), self.width, self.height, x0, y0, x1, y1, layer_id);
    }

    /// Marks the cells from `min` to `max` (clamped into the grid) on `layer` as blocked by
    /// an obstacle. A layer that the grid does not have is reported and ignored.
    pub fn add_obstacle(&mut self, min: (usize, usize), max: (usize, usize), layer: &Layer)
        requires
            old(self)@.wf(),
            layer.spec_id() >= 1,
            layer.spec_id() - 1 < old(self)@.layers ==> old(self)@.width > 0 && old(self)@.height
                > 0,
        ensures
            final(self)@.width == old(self)@.width,
            final(self)@.height == old(self)@.height,
            final(self)@.layers == old(self)@.layers,
            final(self)@.walkable == old(self)@.walkable,
            final(self)@.wf(),
            forall|a: int, b: int, c: int|
                old(self)@.in_bounds(a, b, c) ==> #[trigger] final(self)@.blocked_at(a, b, c) == (
                old(self)@.blocked_at(a, b, c) || (layer.spec_id() - 1 < old(self)@.layers
                    && in_rect(
                    clamp_to(min.0 as int, old(self)@.width - 1),
                    clamp_to(min.1 as int, old(self)@.height - 1),
                    clamp_to(max.0 as int, old(self)@.width - 1),
                    clamp_to(max.1 as int, old(self)@.height - 1),
                    layer.spec_id() - 1,
                    a,
                    b,
                    c,
                ))),
    {
        let layer_id = layer.id() as usize - 1;
        if layer_id >= self.layers {
            return;
        }
        let (x0, y0) = self.limit_cell(min);
        let (x1, y1) = self.limit_cell(max);
        if x0 > x1 || y0 > y1 {
            return;
        }
        let ghost v = self@;
        fill_rect(&mut self.blocked, Ghost(v), self.width, self.height, x0, y0, x1, y1, layer_id);
    }

    /// Number of cells with ground on `layer`.
    pub fn count_walkable(&self, layer: Layer) -> (r: usize)
        requires
            self@.wf(),
            1 <= layer.spec_id() <= self@.layers,
            (layer.spec_id() - 1) * self@.width <= usize::MAX,
        ensures
            r == count_true(
                self@.walkable.subrange(
                    (layer.spec_id() - 1) * self@.width * self@.height,
                    layer.spec_id() * self@.width * self@.height,
                ),
            ),
    {
        let l = layer.id() as usize - 1;
        proof {
            lemma_layer_end(self@, l as int);
        }
        count_layer(&self.walkable, self.width, self.height, l)
    }

    /// Number of blocked cells on `layer`.
    pub fn count_blocked(&self, layer: Layer) -> (r: usize)
        requires
            self@.wf(),
            1 <= layer.spec_id() <= self@.layers,
            (layer.spec_id() - 1) * self@.width <= usize::MAX,
        ensures
            r == count_true(
                self@.blocked.subrange(
                    (layer.spec_id() - 1) * self@.width * self@.height,
                    layer.spec_id() * self@.width * self@.height,
                ),
            ),
    {
        let l = layer.id() as usize - 1;
        proof {
            lemma_layer_end(self@, l as int);
        }
        count_layer(&self.blocked, self.width, self.height, l)
    }

    /// The standable row of column `x` on layer `layer_id` nearest to row `y`.
    fn nearest_standable_y(&self, x: usize, y: usize, layer_id: usize) -> (r: Option<usize>)
        requires
            self@.wf(),
            x < self@.width,
            layer_id < self@.layers,
        ensures
            r matches Some(c) ==> self@.nearest_y(x as int, y as int, layer_id as int) == Some(
                c as int,
            ),
            r is None ==> self@.nearest_y(x as int, y as int, layer_id as int) is None,
    {
        let ghost v = self@;
        let mut best: Option<usize> = None;
        let mut best_distance: usize = 0;
        let mut c: usize = 0;
        while c < self.height
            invariant
                v == self@,
                v.wf(),
                x < v.width,
                layer_id < v.layers,
                c <= v.height,
                best matches Some(b) ==> b < c && v.standable(x as int, b as int, layer_id as int)
                    && best_distance == abs(b - y) && forall|d: int|
                    0 <= d < c && #[trigger] v.standable(x as int, d, layer_id as int)
                        ==> GridView::nearer(b as int, d, y as int),
                best is None ==> forall|d: int|
                    0 <= d < c ==> !#[trigger] v.standable(x as int, d, layer_id as int),
            decreases v.height - c,
        {
            let i = self.index(x, c, layer_id);
            if self.walkable[i] && !self.blocked[i] {
                let distance = if c >= y { c - y } else { y - c };
                match best {
                    None => {
                        best = Some(c);
                        best_distance = distance;
                    },
                    Some(_) => {
                        if distance < best_distance {
                            best = Some(c);
                            best_distance = distance;
                        }
                    },
                }
            }
            c = c + 1;
        }
        proof {
            match best {
                Some(b) => {
                    assert(v.is_nearest(x as int, y as int, layer_id as int, b as int));
                    let k = choose|k: int| v.is_nearest(x as int, y as int, layer_id as int, k);
                    assert(v.standable(x as int, k, layer_id as int));
                    assert(v.standable(x as int, b as int, layer_id as int));
                },
                None => {
                    if exists|k: int| v.is_nearest(x as int, y as int, layer_id as int, k) {
                        let k = choose|k: int| v.is_nearest(x as int, y as int, layer_id as int, k);
                        assert(v.standable(x as int, k, layer_id as int));
                    }
                },
            }
        }
        best
    }

    /// The cells reachable from `node` in one step, with their costs.
    fn neighbors(&self, node: Node) -> (r: Vec<(Node, u64)>)
        requires
            self@.wf(),
            self@.node_in_bounds(node),
        ensures
            r@.len() == self@.neighbors(node).len(),
            forall|i: int|
                0 <= i < r@.len() ==> (#[trigger] r@[i]).0 == self@.neighbors(node)[i].0 && r@[i].1
                    == self@.neighbors(node)[i].1,
    {
        let ghost v = self@;
        let mut r: Vec<(Node, u64)> = Vec::with_capacity(4);
        let ghost mut expected: Seq<(Node, int)> = seq![];
        if node.x >= 1 {
            if let Some(y) = self.nearest_standable_y(node.x - 1, node.y, node.layer_id) {
                r.push((Node { x: node.x - 1, y, layer_id: node.layer_id }, 1));
            }
        }
        proof {
            expected = if node.x >= 1 {
                v.step_into(node, node.x - 1, node.layer_id as int, 1)
            } else {
                seq![]
            };
        }
        assert(r@.len() == expected.len() && forall|i: int|
            0 <= i < r@.len() ==> (#[trigger] r@[i]).0 == expected[i].0 && r@[i].1 == expected[i].1);
        if node.x + 1 < self.width {
            if let Some(y) = self.nearest_standable_y(node.x + 1, node.y, node.layer_id) {
                r.push((Node { x: node.x + 1, y, layer_id: node.layer_id }, 1));
            }
        }
        proof {
            expected = expected + if node.x + 1 < v.width {
                v.step_into(node, node.x + 1, node.layer_id as int, 1)
            } else {
                seq![]
            };
        }
        assert(r@.len() == expected.len() && forall|i: int|
            0 <= i < r@.len() ==> (#[trigger] r@[i]).0 == expected[i].0 && r@[i].1 == expected[i].1);
        if node.layer_id >= 1 {
            if let Some(y) = self.nearest_standable_y(node.x, node.y, node.layer_id - 1) {
                r.push((Node { x: node.x, y, layer_id: node.layer_id - 1 }, LAYER_CHANGE_COST));
            }
        }
        proof {
            expected = expected + if node.layer_id >= 1 {
                v.step_into(node, node.x as int, node.layer_id - 1, LAYER_CHANGE_COST as int)
            } else {
                seq![]
            };
        }
        assert(r@.len() == expected.len() && forall|i: int|
            0 <= i < r@.len() ==> (#[trigger] r@[i]).0 == expected[i].0 && r@[i].1 == expected[i].1);
        if node.layer_id + 1 < self.layers {
            if let Some(y) = self.nearest_standable_y(node.x, node.y, node.layer_id + 1) {
                r.push((Node { x: node.x, y, layer_id: node.layer_id + 1 }, LAYER_CHANGE_COST));
            }
        }
        proof {
            expected = expected + if node.layer_id + 1 < v.layers {
                v.step_into(node, node.x as int, node.layer_id + 1, LAYER_CHANGE_COST as int)
            } else {
                seq![]
            };
        }
        assert(expected =~= v.neighbors(node));
        r
    }

    /// Whether a cell has an obstacle.
    pub fn is_blocked(&self, x: usize, y: usize, layer_id: usize) -> (r: bool)
        requires
            self@.wf(),
            self@.in_bounds(x as int, y as int, layer_id as int),
        ensures
            r == self@.blocked_at(x as int, y as int, layer_id as int),
    {
        let i = self.index(x, y, layer_id);
        self.blocked[i]
    }

    /// Whether a cell has ground.
    pub fn is_walkable(&self, x: usize, y: usize, layer_id: usize) -> (r: bool)
        requires
            self@.wf(),
            self@.in_bounds(x as int, y as int, layer_id as int),
        ensures
            r == self@.walkable_at(x as int, y as int, layer_id as int),
    {
        let i = self.index(x, y, layer_id);
        self.walkable[i]
    }
}

/// An entry of the search's open list: a cell and its estimated total cost.
#[derive(Clone, Copy)]
pub struct OpenNode {
    pub node: Node,
    pub f: u128,
}

/// What the search holds between two steps: the best known cost of each cell (by cell
/// index), the cell each reached cell was last reached from, and the open list in the order
/// of its entries.
#[verifier::ext_equal]
pub struct SearchState {
    pub g: Seq<Option<u128>>,
    pub came: Seq<Option<Node>>,
    pub open: Seq<OpenNode>,
}

/// Where the search stands after some cells were taken off the open list: still running, or
/// stopped on a cell of the target's column and layer.
pub enum SearchPhase {
    Running(SearchState),
    Reached(SearchState, Node),
}

/// How a search with a given limit ends: with a path, with nothing left to try, or because it
/// would take more cells off the open list than the limit allows.
pub enum SearchOutcome {
    Found(Seq<Node>),
    Exhausted,
    LimitReached,
}

/// The position of the first entry with the lowest estimate among the first `n` entries.
pub open spec fn first_min(open: Seq<OpenNode>, n: int) -> int
    decreases n,
{
    if n <= 1 {
        0
    } else {
        let j = first_min(open, n - 1);
        if open[n - 1].f < open[j].f {
            n - 1
        } else {
            j
        }
    }
}

/// The state in which a search from `s` to `t` begins: only `s` is reached, at cost 0, and
/// it is the only open entry.
pub open spec fn start_state(v: GridView, s: Node, t: Node) -> SearchState {
    SearchState {
        g: Seq::new(v.cells() as nat, |j: int| None::<u128>).update(v.idx(s), Some(0u128)),
        came: Seq::new(v.cells() as nat, |j: int| None::<Node>),
        open: seq![OpenNode { node: s, f: heuristic(s, t) as u128 }],
    }
}

/// Trying the step `e` (a cell and its cost) out of `u`, reached at cost `gu`: when it
/// reaches the cell more cheaply than known, the cell gets the new cost, `u` as the cell it
/// came from, and a new open entry at the end of the list.
pub open spec fn relax(v: GridView, t: Node, st: SearchState, u: Node, gu: int, e: (Node, int)) -> SearchState {
    let m = e.0;
    let tent = gu + e.1;
    let better = match st.g[v.idx(m)] {
        None => true,
        Some(gm) => tent < gm,
    };
    if better {
        SearchState {
            g: st.g.update(v.idx(m), Some(tent as u128)),
            came: st.came.update(v.idx(m), Some(u)),
            open: st.open.push(OpenNode { node: m, f: (tent + heuristic(m, t)) as u128 }),
        }
    } else {
        st
    }
}

/// Trying the first `k` steps of `nbrs` out of `u` in order.
pub open spec fn relax_all(
    v: GridView,
    t: Node,
    st: SearchState,
    u: Node,
    gu: int,
    nbrs: Seq<(Node, int)>,
    k: int,
) -> SearchState
    decreases k,
{
    if k <= 0 {
        st
    } else {
        relax(v, t, relax_all(v, t, st, u, gu, nbrs, k - 1), u, gu, nbrs[k - 1])
    }
}

/// Trying every step out of `u` with `u`'s known cost.
pub open spec fn expand(v: GridView, t: Node, st: SearchState, u: Node) -> SearchState {
    let gu = match st.g[v.idx(u)] {
        Some(x) => x as int,
        None => 0,
    };
    relax_all(v, t, st, u, gu, v.neighbors(u), v.neighbors(u).len() as int)
}

/// One step of the search: take the first entry with the lowest estimate off the open list;
/// stop there if its cell is in the target's column and layer, else try the steps out of it.
/// A stopped search, and one with an empty open list, stay as they are.
#[verifier::opaque]
pub open spec fn advance(v: GridView, t: Node, ph: SearchPhase) -> SearchPhase {
    match ph {
        SearchPhase::Running(st) => if st.open.len() == 0 {
            ph
        } else {
            let i = first_min(st.open, st.open.len() as int);
            let u = st.open[i].node;
            let rest = SearchState { g: st.g, came: st.came, open: st.open.remove(i) };
            if is_goal(u, t) {
                SearchPhase::Reached(rest, u)
            } else {
                SearchPhase::Running(expand(v, t, rest, u))
            }
        },
        SearchPhase::Reached(_, _) => ph,
    }
}

/// The search from `s` to `t` after `k` steps.
pub open spec fn run(v: GridView, s: Node, t: Node, k: nat) -> SearchPhase
    decreases k,
{
    if k == 0 {
        SearchPhase::Running(start_state(v, s, t))
    } else {
        advance(v, t, run(v, s, t, (k - 1) as nat))
    }
}

/// The path to `u` read back along the recorded predecessors, following at most `fuel` of
/// them.
pub open spec fn back_path(v: GridView, came: Seq<Option<Node>>, u: Node, fuel: nat) -> Seq<Node>
    decreases fuel,
{
    if fuel == 0 {
        seq![u]
    } else {
        match came[v.idx(u)] {
            None => seq![u],
            Some(p) => back_path(v, came, p, (fuel - 1) as nat).push(u),
        }
    }
}

/// The end of a search from `s` to `t` that may take at most `limit` cells off the open
/// list: the path read back from the cell where it stopped, or why it found none.
pub open spec fn outcome(v: GridView, s: Node, t: Node, limit: nat) -> SearchOutcome {
    match run(v, s, t, limit) {
        SearchPhase::Reached(st, u) => SearchOutcome::Found(
            back_path(v, st.came, u, (st.g[v.idx(u)]->0 + 1) as nat),
        ),
        SearchPhase::Running(st) => if st.open.len() == 0 {
            SearchOutcome::Exhausted
        } else {
            SearchOutcome::LimitReached
        },
    }
}

/// One step of a running search with a non-empty open list.
proof fn lemma_advance_running(v: GridView, t: Node, st: SearchState, i: int, rest: SearchState)
    requires
        st.open.len() > 0,
        i == first_min(st.open, st.open.len() as int),
        rest == (SearchState { g: st.g, came: st.came, open: st.open.remove(i) }),
    ensures
        advance(v, t, SearchPhase::Running(st)) == if is_goal(st.open[i].node, t) {
            SearchPhase::Reached(rest, st.open[i].node)
        } else {
            SearchPhase::Running(expand(v, t, rest, st.open[i].node))
        },
{
    reveal(advance);
}

/// A search that has stopped, or has nothing left to try, stays so at every later step.
proof fn lemma_run_settled(v: GridView, s: Node, t: Node, k1: nat, k2: nat)
    requires
        k1 <= k2,
        run(v, s, t, k1) is Reached || (run(v, s, t, k1) matches SearchPhase::Running(st)
            && st.open.len() == 0),
    ensures
        run(v, s, t, k2) == run(v, s, t, k1),
    decreases k2 - k1,
{
    reveal(advance);
    if k2 > k1 {
        lemma_run_settled(v, s, t, k1, (k2 - 1) as nat);
    }
}

/// Raising the search limit never loses or changes a found path, nor turns a search with
/// nothing left to try into another outcome: only a search stopped by its limit can end
/// differently with a higher one.
pub proof fn lemma_search_limit_monotone(v: GridView, s: Node, t: Node, k1: nat, k2: nat)
    requires
        k1 <= k2,
        !(outcome(v, s, t, k1) is LimitReached),
    ensures
        outcome(v, s, t, k2) == outcome(v, s, t, k1),
{
    lemma_run_settled(v, s, t, k1, k2);
}

/// The best known cost of reaching `n`, if any.
spec fn g_at(v: GridView, g: Seq<Option<u128>>, n: Node) -> Option<u128> {
    g[v.idx(n)]
}

/// The open list holds cell `n` with estimate `f`.
spec fn has_entry(open: Seq<OpenNode>, n: Node, f: int) -> bool {
    exists|j: int| 0 <= j < open.len() && open[j].node == n && open[j].f == f
}

/// `n` is waiting in the open list with its current cost.
spec fn fresh(v: GridView, g: Seq<Option<u128>>, open: Seq<OpenNode>, t: Node, n: Node) -> bool {
    g_at(v, g, n) matches Some(gn) && has_entry(open, n, gn + heuristic(n, t))
}

/// Every step out of `n` has been tried with `n`'s current cost.
spec fn settled(v: GridView, g: Seq<Option<u128>>, n: Node) -> bool {
    g_at(v, g, n) matches Some(gn) && forall|m: Node, c: int|
        #[trigger] v.neighbors(n).contains((m, c)) ==> (g_at(v, g, m) matches Some(gm) && gm
            <= gn + c)
}

/// A reached cell other than the start came by a step from a reached cell that was at least
/// that step cheaper.
spec fn chain_ok(v: GridView, g: Seq<Option<u128>>, came: Seq<Option<Node>>, s: Node, n: Node) -> bool {
    match g_at(v, g, n) {
        Some(gn) => n != s ==> match came[v.idx(n)] {
            Some(p) => v.node_in_bounds(p) && match g_at(v, g, p) {
                Some(gp) => v.is_step(p, n) && gp + GridView::step_cost(p, n) <= gn,
                None => false,
            },
            None => false,
        },
        None => true,
    }
}

/// The facts that the search keeps of every reached cell.
spec fn node_ok(
    v: GridView,
    g: Seq<Option<u128>>,
    came: Seq<Option<Node>>,
    open: Seq<OpenNode>,
    s: Node,
    t: Node,
    visited: int,
    n: Node,
) -> bool {
    &&& chain_ok(v, g, came, s, n)
    &&& g_at(v, g, n) matches Some(gn) ==> gn <= 2 * visited
    &&& g_at(v, g, n) is Some ==> fresh(v, g, open, t, n) || settled(v, g, n)
    &&& g_at(v, g, n) is Some && is_goal(n, t) ==> fresh(v, g, open, t, n)
}

/// An open-list entry names a reached cell and does not underestimate it.
spec fn entry_ok(v: GridView, g: Seq<Option<u128>>, t: Node, visited: int, e: OpenNode) -> bool {
    &&& v.node_in_bounds(e.node)
    &&& g_at(v, g, e.node) matches Some(gn) && gn + heuristic(e.node, t) <= e.f
    &&& e.f <= 2 * visited + v.width + 2 * v.layers
}

/// The invariant of the A* loop.
spec fn search_inv(
    v: GridView,
    g: Seq<Option<u128>>,
    came: Seq<Option<Node>>,
    open: Seq<OpenNode>,
    s: Node,
    t: Node,
    visited: int,
) -> bool {
    &&& v.wf()
    &&& g.len() == v.cells()
    &&& came.len() == v.cells()
    &&& v.node_in_bounds(s)
    &&& v.node_in_bounds(t)
    &&& g_at(v, g, s) == Some(0u128)
    &&& came[v.idx(s)] is None
    &&& 0 <= visited
    &&& forall|n: Node| v.node_in_bounds(n) ==> #[trigger] node_ok(v, g, came, open, s, t, visited, n)
    &&& forall|j: int| 0 <= j < open.len() ==> #[trigger] entry_ok(v, g, t, visited, open[j])
}

/// A path from `s` to a cell in the target's column and layer.
pub open spec fn is_goal_path(v: GridView, p: Seq<Node>, s: Node, t: Node) -> bool {
    v.is_path(p) && p[0] == s && is_goal(p.last(), t)
}

/// The cells of a path lie in the grid.
proof fn lemma_path_in_bounds(v: GridView, p: Seq<Node>, k: int)
    requires
        v.wf(),
        v.is_path(p),
        v.node_in_bounds(p[0]),
        0 <= k < p.len(),
    ensures
        v.node_in_bounds(p[k]),
{
    if k > 0 {
        assert(v.is_step(p[k - 1], p[k]));
        lemma_neighbor_shape(v, p[k - 1], p[k], GridView::step_cost(p[k - 1], p[k]));
    }
}

/// Walking a path from the start: either some cell of the first `k + 1` waits in the open
/// list with a cost no higher than the path's up to it, or cell `k` is reached that cheaply.
proof fn lemma_frontier_walk(
    v: GridView,
    g: Seq<Option<u128>>,
    came: Seq<Option<Node>>,
    open: Seq<OpenNode>,
    s: Node,
    t: Node,
    visited: int,
    q: Seq<Node>,
    k: int,
) -> (r: Option<int>)
    requires
        search_inv(v, g, came, open, s, t, visited),
        v.is_path(q),
        q[0] == s,
        0 <= k < q.len(),
    ensures
        r matches Some(j) ==> 0 <= j <= k && fresh(v, g, open, t, q[j]) && g_at(v, g, q[j])->0
            <= path_cost(q.take(j + 1)),
        r is None ==> g_at(v, g, q[k]) is Some && g_at(v, g, q[k])->0 <= path_cost(q.take(k + 1)),
    decreases k,
{
    lemma_path_in_bounds(v, q, k);
    assert(node_ok(v, g, came, open, s, t, visited, q[k]));
    if k == 0 {
        assert(q.take(1).len() == 1);
        if fresh(v, g, open, t, q[0]) {
            Some(0)
        } else {
            None
        }
    } else {
        let prev = lemma_frontier_walk(v, g, came, open, s, t, visited, q, k - 1);
        if prev is Some {
            prev
        } else {
            lemma_path_in_bounds(v, q, k - 1);
            assert(node_ok(v, g, came, open, s, t, visited, q[k - 1]));
            if fresh(v, g, open, t, q[k - 1]) {
                Some(k - 1)
            } else {
                assert(settled(v, g, q[k - 1]));
                assert(v.is_step(q[k - 1], q[k]));
                assert(v.neighbors(q[k - 1]).contains((q[k], GridView::step_cost(q[k - 1], q[k]))));
                lemma_path_cost_extend(q, k);
                if fresh(v, g, open, t, q[k]) {
                    Some(k)
                } else {
                    None
                }
            }
        }
    }
}

/// If a path from the start reaches the target's column and layer, the open list holds an
/// entry whose estimate is no higher than that path's cost.
proof fn lemma_frontier(
    v: GridView,
    g: Seq<Option<u128>>,
    came: Seq<Option<Node>>,
    open: Seq<OpenNode>,
    s: Node,
    t: Node,
    visited: int,
    q: Seq<Node>,
)
    requires
        search_inv(v, g, came, open, s, t, visited),
        is_goal_path(v, q, s, t),
    ensures
        exists|j: int| 0 <= j < open.len() && open[j].f <= path_cost(q),
{
    let last = q.len() - 1;
    let r = lemma_frontier_walk(v, g, came, open, s, t, visited, q, last);
    let j = match r {
        Some(j) => j,
        None => {
            lemma_path_in_bounds(v, q, last);
            assert(node_ok(v, g, came, open, s, t, visited, q[last]));
            last
        },
    };
    assert(fresh(v, g, open, t, q[j]));
    let gj = g_at(v, g, q[j])->0;
    let jj = choose|jj: int|
        0 <= jj < open.len() && open[jj].node == q[j] && open[jj].f == gj + heuristic(q[j], t);
    lemma_heuristic_admissible(v, q, t, j);
    lemma_path_cost_split(q, j);
    assert(open[jj].f <= path_cost(q));
}

/// Writing entry `m` of a cell array leaves every other cell's entry alone.
proof fn lemma_update_frame<A>(v: GridView, a: Seq<A>, m: Node, x: A)
    requires
        v.wf(),
        a.len() == v.cells(),
        v.node_in_bounds(m),
    ensures
        forall|n: Node|
            v.node_in_bounds(n) && n != m ==> #[trigger] a.update(v.idx(m), x)[v.idx(n)] == a[v.idx(
                n,
            )],
        a.update(v.idx(m), x)[v.idx(m)] == x,
        a.update(v.idx(m), x).len() == a.len(),
        0 <= v.idx(m) < v.cells(),
{
    lemma_index(v, m.x as int, m.y as int, m.layer_id as int);
    assert forall|n: Node| v.node_in_bounds(n) && n != m implies #[trigger] a.update(
        v.idx(m),
        x,
    )[v.idx(n)] == a[v.idx(n)] by {
        lemma_index(v, n.x as int, n.y as int, n.layer_id as int);
        if v.idx(n) == v.idx(m) {
            lemma_index_injective(v, n, m);
        }
    }
}

/// Cost of a path with one cell put in front.
proof fn lemma_path_cost_prepend(p: Node, q: Seq<Node>)
    requires
        q.len() >= 1,
    ensures
        path_cost(seq![p] + q) == GridView::step_cost(p, q[0]) + path_cost(q),
{
    let r = seq![p] + q;
    assert(r.drop_first() =~= q);
    assert(r[0] == p && r[1] == q[0]);
}

/// The exact cost estimate of the search.
fn heuristic_exec(a: Node, b: Node) -> (r: u128)
    ensures
        r == heuristic(a, b),
{
    let dx = if a.x >= b.x { a.x - b.x } else { b.x - a.x };
    let dl = if a.layer_id >= b.layer_id { a.layer_id - b.layer_id } else { b.layer_id - a.layer_id };
    dx as u128 + dl as u128 * (LAYER_CHANGE_COST as u128)
}

/// Position of the open-list entry with the lowest estimate (the first one among equals).
fn min_entry(open: &Vec<OpenNode>) -> (i: usize)
    requires
        open@.len() > 0,
    ensures
        i < open@.len(),
        i == first_min(open@, open@.len() as int),
        forall|j: int| 0 <= j < open@.len() ==> open@[i as int].f <= #[trigger] open@[j].f,
{
    let mut best: usize = 0;
    let mut k: usize = 1;
    while k < open.len()
        invariant
            best < k <= open@.len(),
            best == first_min(open@, k as int),
            forall|j: int| 0 <= j < k ==> open@[best as int].f <= #[trigger] open@[j].f,
        decreases open@.len() - k,
    {
        if open[k].f < open[best].f {
            best = k;
        }
        k = k + 1;
    }
    best
}

impl NavGrid {
    /// Follows the recorded predecessors from `u` back to the start and returns the path from
    /// the start to `u`.
    fn reconstruct(
        &self,
        came: &Vec<Option<Node>>,
        Ghost(g): Ghost<Seq<Option<u128>>>,
        s: Node,
        u: Node,
    ) -> (p: Vec<Node>)
        requires
            self@.wf(),
            g.len() == self@.cells(),
            came@.len() == self@.cells(),
            self@.node_in_bounds(s),
            g_at(self@, g, s) == Some(0u128),
            came@[self@.idx(s)] is None,
            forall|n: Node| self@.node_in_bounds(n) ==> #[trigger] chain_ok(self@, g, came@, s, n),
            self@.node_in_bounds(u),
            g_at(self@, g, u) is Some,
        ensures
            self@.is_path(p@),
            p@[0] == s,
            p@.last() == u,
            path_cost(p@) <= g_at(self@, g, u)->0,
            p@ == back_path(self@, came@, u, (g_at(self@, g, u)->0 + 1) as nat),
    {
        let ghost v = self@;
        let ghost full: nat = (g_at(v, g, u)->0 + 1) as nat;
        let mut rev: Vec<Node> = Vec::new();
        rev.push(u);
        let mut cur = u;
        let ghost mut fwd: Seq<Node> = seq![u];
        let ghost mut fuel: nat = full;
        proof {
            assert(fwd.subrange(1, fwd.len() as int) =~= Seq::<Node>::empty());
            assert(back_path(v, came@, u, full) =~= back_path(v, came@, cur, fuel) + fwd.subrange(
                1,
                fwd.len() as int,
            ));
        }
        loop
            invariant
                v == self@,
                v.wf(),
                g.len() == v.cells(),
                came@.len() == v.cells(),
                v.node_in_bounds(s),
                g_at(v, g, s) == Some(0u128),
                came@[v.idx(s)] is None,
                forall|n: Node| v.node_in_bounds(n) ==> #[trigger] chain_ok(v, g, came@, s, n),
                g_at(v, g, u) is Some,
                v.node_in_bounds(cur),
                g_at(v, g, cur) is Some,
                v.is_path(fwd),
                fwd[0] == cur,
                fwd.last() == u,
                path_cost(fwd) + g_at(v, g, cur)->0 <= g_at(v, g, u)->0,
                rev@.len() == fwd.len(),
                forall|i: int| 0 <= i < rev@.len() ==> #[trigger] rev@[i] == fwd[fwd.len() - 1 - i],
                g_at(v, g, cur)->0 + 1 <= fuel,
                back_path(v, came@, u, full) == back_path(v, came@, cur, fuel) + fwd.subrange(
                    1,
                    fwd.len() as int,
                ),
            ensures
                back_path(v, came@, u, full) == fwd,
                came@[v.idx(cur)] is None,
                v.node_in_bounds(cur),
                g_at(v, g, cur) is Some,
                v.is_path(fwd),
                fwd[0] == cur,
                fwd.last() == u,
                path_cost(fwd) + g_at(v, g, cur)->0 <= g_at(v, g, u)->0,
                rev@.len() == fwd.len(),
                forall|i: int| 0 <= i < rev@.len() ==> #[trigger] rev@[i] == fwd[fwd.len() - 1 - i],
            decreases g_at(v, g, cur)->0,
        {
            let ci = self.index(cur.x, cur.y, cur.layer_id);
            match came[ci] {
                None => {
                    proof {
                        assert(back_path(v, came@, cur, fuel) == seq![cur]);
                        assert(fwd =~= seq![cur] + fwd.subrange(1, fwd.len() as int));
                    }
                    break ;
                },
                Some(p) => {
                    proof {
                        assert(chain_ok(v, g, came@, s, cur));
                        let old_fwd = fwd;
                        let old_fuel = fuel;
                        assert(back_path(v, came@, cur, old_fuel) == back_path(
                            v,
                            came@,
                            p,
                            (old_fuel - 1) as nat,
                        ).push(cur));
                        fuel = (old_fuel - 1) as nat;
                        assert(back_path(v, came@, p, fuel).push(cur) + old_fwd.subrange(
                            1,
                            old_fwd.len() as int,
                        ) =~= back_path(v, came@, p, fuel) + old_fwd);
                        assert((seq![p] + old_fwd).subrange(1, old_fwd.len() + 1 as int) =~= old_fwd);
                        lemma_path_cost_prepend(p, old_fwd);
                        fwd = seq![p] + old_fwd;
                        assert forall|i: int| 0 <= i < fwd.len() - 1 implies v.is_step(
                            #[trigger] fwd[i],
                            fwd[i + 1],
                        ) by {
                            if i > 0 {
                                assert(fwd[i] == old_fwd[i - 1]);
                                assert(fwd[i + 1] == old_fwd[i]);
                            }
                        }
                    }
                    rev.push(p);
                    cur = p;
                },
            }
        }
        proof {
            assert(chain_ok(v, g, came@, s, cur));
            assert(cur == s);
        }
        let n = rev.len();
        let mut out: Vec<Node> = Vec::new();
        let mut i: usize = 0;
        while i < n
            invariant
                n == rev@.len(),
                n == fwd.len(),
                i <= n,
                out@.len() == i,
                forall|j: int| 0 <= j < rev@.len() ==> #[trigger] rev@[j] == fwd[fwd.len() - 1 - j],
                forall|j: int| 0 <= j < i ==> #[trigger] out@[j] == fwd[j],
            decreases n - i,
        {
            out.push(rev[n - 1 - i]);
            i = i + 1;
        }
        assert(out@ =~= fwd);
        out
    }
}

/// The state of the search while the steps out of `u` are tried: every reached cell but `u`
/// keeps its facts, and the first `k` steps out of `u` have been tried.
spec fn expand_inv(
    v: GridView,
    g: Seq<Option<u128>>,
    came: Seq<Option<Node>>,
    open: Seq<OpenNode>,
    s: Node,
    t: Node,
    visited: int,
    u: Node,
    gu: int,
    nbrs: Seq<(Node, u64)>,
    k: int,
) -> bool {
    &&& v.wf()
    &&& g.len() == v.cells()
    &&& came.len() == v.cells()
    &&& v.node_in_bounds(s)
    &&& v.node_in_bounds(t)
    &&& g_at(v, g, s) == Some(0u128)
    &&& came[v.idx(s)] is None
    &&& 1 <= visited
    &&& v.node_in_bounds(u)
    &&& !is_goal(u, t)
    &&& g_at(v, g, u) is Some
    &&& g_at(v, g, u)->0 == gu
    &&& 0 <= gu <= 2 * (visited - 1)
    &&& chain_ok(v, g, came, s, u)
    &&& nbrs.len() == v.neighbors(u).len()
    &&& forall|i: int|
        0 <= i < nbrs.len() ==> (#[trigger] nbrs[i]).0 == v.neighbors(u)[i].0 && nbrs[i].1 as int
            == v.neighbors(u)[i].1
    &&& 0 <= k <= nbrs.len()
    &&& forall|n: Node|
        v.node_in_bounds(n) && n != u ==> #[trigger] node_ok(v, g, came, open, s, t, visited, n)
    &&& forall|j: int| 0 <= j < open.len() ==> #[trigger] entry_ok(v, g, t, visited, open[j])
    &&& forall|i: int|
        0 <= i < k ==> (g_at(v, g, (#[trigger] nbrs[i]).0) matches Some(gm) && gm <= gu
            + nbrs[i].1)
}

/// Taking the entry `i` of `u` off the open list, with one more cell visited, starts the
/// expansion of `u`.
proof fn lemma_pop(
    v: GridView,
    g: Seq<Option<u128>>,
    came: Seq<Option<Node>>,
    pre_open: Seq<OpenNode>,
    s: Node,
    t: Node,
    visited: int,
    i: int,
    nbrs: Seq<(Node, u64)>,
)
    requires
        search_inv(v, g, came, pre_open, s, t, visited),
        0 <= i < pre_open.len(),
        !is_goal(pre_open[i].node, t),
        nbrs.len() == v.neighbors(pre_open[i].node).len(),
        forall|j: int|
            0 <= j < nbrs.len() ==> (#[trigger] nbrs[j]).0 == v.neighbors(pre_open[i].node)[j].0
                && nbrs[j].1 as int == v.neighbors(pre_open[i].node)[j].1,
    ensures
        expand_inv(
            v,
            g,
            came,
            pre_open.remove(i),
            s,
            t,
            visited + 1,
            pre_open[i].node,
            g_at(v, g, pre_open[i].node)->0 as int,
            nbrs,
            0,
        ),
{
    let u = pre_open[i].node;
    let open = pre_open.remove(i);
    assert(entry_ok(v, g, t, visited, pre_open[i]));
    assert(node_ok(v, g, came, pre_open, s, t, visited, u));
    assert forall|n: Node| v.node_in_bounds(n) && n != u implies #[trigger] node_ok(
        v,
        g,
        came,
        open,
        s,
        t,
        visited + 1,
        n,
    ) by {
        assert(node_ok(v, g, came, pre_open, s, t, visited, n));
        if fresh(v, g, pre_open, t, n) {
            let f = g_at(v, g, n)->0 + heuristic(n, t);
            let jj = choose|jj: int| 0 <= jj < pre_open.len() && pre_open[jj].node == n && pre_open[jj].f == f;
            if jj < i {
                assert(open[jj] == pre_open[jj]);
            } else {
                assert(open[jj - 1] == pre_open[jj]);
            }
        }
    }
    assert forall|j: int| 0 <= j < open.len() implies #[trigger] entry_ok(v, g, t, visited + 1, open[j]) by {
        if j < i {
            assert(open[j] == pre_open[j]);
            assert(entry_ok(v, g, t, visited, pre_open[j]));
        } else {
            assert(open[j] == pre_open[j + 1]);
            assert(entry_ok(v, g, t, visited, pre_open[j + 1]));
        }
    }
}

/// Recording a cheaper way to reach `m` by a step out of `u` keeps the expansion's facts.
proof fn lemma_relax(
    v: GridView,
    g: Seq<Option<u128>>,
    came: Seq<Option<Node>>,
    open: Seq<OpenNode>,
    s: Node,
    t: Node,
    visited: int,
    u: Node,
    gu: int,
    nbrs: Seq<(Node, u64)>,
    k: int,
    tentative: u128,
    f: u128,
)
    requires
        expand_inv(v, g, came, open, s, t, visited, u, gu, nbrs, k),
        k < nbrs.len(),
        tentative == gu + nbrs[k].1,
        f == tentative + heuristic(nbrs[k].0, t),
        g_at(v, g, nbrs[k].0) matches Some(gm) ==> tentative < gm,
    ensures
        expand_inv(
            v,
            g.update(v.idx(nbrs[k].0), Some(tentative)),
            came.update(v.idx(nbrs[k].0), Some(u)),
            open.push(OpenNode { node: nbrs[k].0, f }),
            s,
            t,
            visited,
            u,
            gu,
            nbrs,
            k + 1,
        ),
{
    let m = nbrs[k].0;
    let c = nbrs[k].1 as int;
    let g1 = g.update(v.idx(m), Some(tentative));
    let came1 = came.update(v.idx(m), Some(u));
    let e = OpenNode { node: m, f };
    let open1 = open.push(e);
    assert(v.neighbors(u)[k] == (m, c));
    assert(v.neighbors(u).contains((m, c)));
    lemma_neighbor_shape(v, u, m, c);
    lemma_update_frame(v, g, m, Some(tentative));
    lemma_update_frame(v, came, m, Some(u));
    assert(m != s) by {
        assert(g_at(v, g, s) == Some(0u128));
    }
    // Costs never rise.
    assert forall|n: Node| v.node_in_bounds(n) && #[trigger] g_at(v, g, n) is Some implies g_at(
        v,
        g1,
        n,
    ) is Some && g_at(v, g1, n)->0 <= g_at(v, g, n)->0 by {
        if n != m {
            assert(g1[v.idx(n)] == g[v.idx(n)]);
        }
    }
    assert(has_entry(open1, m, tentative + heuristic(m, t))) by {
        assert(open1[open.len() as int] == e);
    }
    assert(v.is_step(u, m));
    assert(chain_ok(v, g1, came1, s, m));
    assert(chain_ok(v, g1, came1, s, u)) by {
        assert(chain_ok(v, g, came, s, u));
        assert(g1[v.idx(u)] == g[v.idx(u)]);
        assert(came1[v.idx(u)] == came[v.idx(u)]);
        if u != s {
            let p = came[v.idx(u)]->0;
            assert(g_at(v, g, p) is Some);
        }
    }
    assert forall|n: Node| v.node_in_bounds(n) && n != u implies #[trigger] node_ok(
        v,
        g1,
        came1,
        open1,
        s,
        t,
        visited,
        n,
    ) by {
        if n == m {
            assert(fresh(v, g1, open1, t, m));
        } else {
            assert(node_ok(v, g, came, open, s, t, visited, n));
            assert(g1[v.idx(n)] == g[v.idx(n)]);
            assert(came1[v.idx(n)] == came[v.idx(n)]);
            if g_at(v, g, n) is Some && n != s {
                let p = came[v.idx(n)]->0;
                assert(g_at(v, g, p) is Some);
            }
            if fresh(v, g, open, t, n) {
                let fn_ = g_at(v, g, n)->0 + heuristic(n, t);
                let jj = choose|jj: int| 0 <= jj < open.len() && open[jj].node == n && open[jj].f == fn_;
                assert(open1[jj] == open[jj]);
            } else if g_at(v, g, n) is Some {
                assert(settled(v, g, n));
                assert forall|m2: Node, c2: int| #[trigger] v.neighbors(n).contains((m2, c2)) implies (
                g_at(v, g1, m2) matches Some(gm) && gm <= g_at(v, g1, n)->0 + c2) by {
                    lemma_neighbor_shape(v, n, m2, c2);
                }
            }
        }
    }
    assert forall|j: int| 0 <= j < open1.len() implies #[trigger] entry_ok(v, g1, t, visited, open1[j]) by {
        if j < open.len() {
            assert(open1[j] == open[j]);
            assert(entry_ok(v, g, t, visited, open[j]));
        } else {
            assert(open1[j] == e);
        }
    }
    assert forall|i: int| 0 <= i < k + 1 implies (g_at(v, g1, (#[trigger] nbrs[i]).0) matches Some(gm)
        && gm <= gu + nbrs[i].1) by {
        if i < k {
            assert(v.neighbors(u)[i] == (nbrs[i].0, nbrs[i].1 as int));
            assert(v.neighbors(u).contains((nbrs[i].0, nbrs[i].1 as int)));
            lemma_neighbor_shape(v, u, nbrs[i].0, nbrs[i].1 as int);
        }
    }
    assert(g1.len() == v.cells());
    assert(came1.len() == v.cells());
    assert(g_at(v, g1, s) == Some(0u128));
    assert(came1[v.idx(s)] is None);
    assert(g1[v.idx(u)] == g[v.idx(u)]);
}

/// When every step out of `u` has been tried, `u` is settled and the loop's facts hold again.
proof fn lemma_settle(
    v: GridView,
    g: Seq<Option<u128>>,
    came: Seq<Option<Node>>,
    open: Seq<OpenNode>,
    s: Node,
    t: Node,
    visited: int,
    u: Node,
    gu: int,
    nbrs: Seq<(Node, u64)>,
)
    requires
        expand_inv(v, g, came, open, s, t, visited, u, gu, nbrs, nbrs.len() as int),
    ensures
        search_inv(v, g, came, open, s, t, visited),
{
    assert forall|m: Node, c: int| #[trigger] v.neighbors(u).contains((m, c)) implies (g_at(v, g, m) matches Some(
        gm,
    ) && gm <= gu + c) by {
        let i = choose|i: int| 0 <= i < v.neighbors(u).len() && v.neighbors(u)[i] == (m, c);
        assert(nbrs[i].0 == m && nbrs[i].1 as int == c);
    }
    assert(settled(v, g, u));
    assert(node_ok(v, g, came, open, s, t, visited, u));
    assert forall|n: Node| v.node_in_bounds(n) implies #[trigger] node_ok(v, g, came, open, s, t, visited, n) by {
        if n != u {
            assert(node_ok(v, g, came, open, s, t, visited, n));
        }
    }
}

/// The potential of one cost entry: the cost itself, or `top` for an unreached cell.
spec fn pot(x: Option<u128>, top: int) -> int {
    match x {
        Some(y) => y as int,
        None => top,
    }
}

/// The sum of the potentials of all cost entries. Every improvement lowers it.
spec fn potential(g: Seq<Option<u128>>, top: int) -> int
    decreases g.len(),
{
    if g.len() == 0 {
        0
    } else {
        potential(g.drop_last(), top) + pot(g.last(), top)
    }
}

proof fn lemma_potential_nonneg(g: Seq<Option<u128>>, top: int)
    requires
        top >= 0,
    ensures
        potential(g, top) >= 0,
    decreases g.len(),
{
    if g.len() > 0 {
        lemma_potential_nonneg(g.drop_last(), top);
    }
}

proof fn lemma_potential_update(g: Seq<Option<u128>>, i: int, x: Option<u128>, top: int)
    requires
        0 <= i < g.len(),
    ensures
        potential(g.update(i, x), top) == potential(g, top) - pot(g[i], top) + pot(x, top),
    decreases g.len(),
{
    let h = g.update(i, x);
    if i == g.len() - 1 {
        assert(h.drop_last() =~= g.drop_last());
    } else {
        assert(h.drop_last() =~= g.drop_last().update(i, x));
        lemma_potential_update(g.drop_last(), i, x, top);
    }
}

/// The costs of a search that has reached nothing.
spec fn no_costs(n: nat) -> Seq<Option<u128>> {
    Seq::new(n, |j: int| None::<u128>)
}

proof fn lemma_potential_all_none(n: nat, top: int)
    ensures
        potential(no_costs(n), top) == n * top,
    decreases n,
{
    if n > 0 {
        let g = no_costs(n);
        assert(g.drop_last() =~= no_costs((n - 1) as nat));
        lemma_potential_all_none((n - 1) as nat, top);
        assert(g.last() is None);
        assert(n * top == (n - 1) * top + top) by (nonlinear_arith);
    } else {
        assert(no_costs(n) =~= Seq::<Option<u128>>::empty());
        assert(n * top == 0) by (nonlinear_arith)
            requires
                n == 0,
        ;
    }
}

/// Every path costs at least nothing and at most `LAYER_CHANGE_COST` per step.
proof fn lemma_path_cost_range(p: Seq<Node>)
    ensures
        0 <= path_cost(p),
        p.len() >= 1 ==> path_cost(p) <= 2 * (p.len() - 1),
    decreases p.len(),
{
    if p.len() > 1 {
        lemma_path_cost_range(p.drop_first());
    }
}

/// A prefix of a path costs no more than the path.
proof fn lemma_path_cost_prefix(p: Seq<Node>, k: int)
    requires
        0 <= k < p.len(),
    ensures
        path_cost(p.take(k + 1)) <= path_cost(p),
{
    lemma_path_cost_split(p, k);
    lemma_path_cost_range(p.skip(k));
}

/// A path whose cells are all different has no more cells than the grid.
proof fn lemma_distinct_cells(v: GridView, p: Seq<Node>)
    requires
        v.wf(),
        p.no_duplicates(),
        forall|i: int| 0 <= i < p.len() ==> v.node_in_bounds(#[trigger] p[i]),
    ensures
        p.len() <= v.cells(),
{
    let q = Seq::new(p.len(), |i: int| v.idx(p[i]));
    assert forall|i: int, j: int| 0 <= i < q.len() && 0 <= j < q.len() && i != j implies q[i]
        != q[j] by {
        if q[i] == q[j] {
            lemma_index_injective(v, p[i], p[j]);
        }
    }
    assert(q.no_duplicates());
    q.unique_seq_to_set();
    assert forall|x: int| q.to_set().contains(x) implies set_int_range(0, v.cells()).contains(x) by {
        let i = choose|i: int| 0 <= i < q.len() && q[i] == x;
        lemma_index(v, p[i].x as int, p[i].y as int, p[i].layer_id as int);
    }
    lemma_int_range(0, v.cells());
    lemma_len_subset(q.to_set(), set_int_range(0, v.cells()));
}

/// The path by which a reached cell was first reached at its current cost: it starts at
/// the start, has no repeated cell, costs exactly the cell's cost, and each of its cells is
/// reached at most as expensively as the path reaches it.
spec fn wit_ok(v: GridView, g: Seq<Option<u128>>, wit: Seq<Seq<Node>>, s: Node, n: Node) -> bool {
    g_at(v, g, n) matches Some(gn) ==> {
        let w = wit[v.idx(n)];
        &&& v.is_path(w)
        &&& w[0] == s
        &&& w.last() == n
        &&& path_cost(w) == gn
        &&& w.no_duplicates()
        &&& forall|k: int|
            0 <= k < w.len() ==> (g_at(v, g, #[trigger] w[k]) matches Some(gk) && gk <= path_cost(
                w.take(k + 1),
            ))
    }
}

/// Every reached cell has such a path.
spec fn wit_inv(v: GridView, g: Seq<Option<u128>>, wit: Seq<Seq<Node>>, s: Node) -> bool {
    &&& wit.len() == v.cells()
    &&& forall|n: Node| v.node_in_bounds(n) ==> #[trigger] wit_ok(v, g, wit, s, n)
}

/// The search's budget: cells taken off the open list, entries on it, and the potential of
/// the costs never exceed their first total.
spec fn budget_ok(v: GridView, g: Seq<Option<u128>>, open_len: int, visited: int) -> bool {
    visited + open_len + potential(g, 2 * v.cells() + 1) <= 1 + v.cells() * (2 * v.cells() + 1)
}

/// Most cells a search can take off the open list before it ends by itself.
pub open spec fn search_bound(v: GridView) -> int {
    v.cells() * (2 * v.cells() + 1)
}

/// The path to `u` extended by a step to `m` witnesses `m`'s improved cost.
#[verifier::spinoff_prover]
#[verifier::rlimit(30)]
proof fn lemma_extended_witness(
    v: GridView,
    g: Seq<Option<u128>>,
    wit: Seq<Seq<Node>>,
    s: Node,
    u: Node,
    m: Node,
    tentative: u128,
)
    requires
        v.wf(),
        g.len() == v.cells(),
        v.node_in_bounds(s),
        wit_inv(v, g, wit, s),
        v.node_in_bounds(u),
        g_at(v, g, u) is Some,
        v.is_step(u, m),
        v.node_in_bounds(m),
        tentative == g_at(v, g, u)->0 + GridView::step_cost(u, m),
        g_at(v, g, m) matches Some(gm) ==> tentative < gm,
    ensures
        ({
            let g1 = g.update(v.idx(m), Some(tentative));
            let wm = wit[v.idx(u)].push(m);
            &&& v.is_path(wm)
            &&& wm[0] == s
            &&& wm.last() == m
            &&& path_cost(wm) == tentative
            &&& wm.no_duplicates()
            &&& forall|k: int|
                0 <= k < wm.len() ==> (g_at(v, g1, #[trigger] wm[k]) matches Some(gk) && gk
                    <= path_cost(wm.take(k + 1)))
            &&& tentative <= 2 * v.cells()
        }),
{
    let g1 = g.update(v.idx(m), Some(tentative));
    let wu = wit[v.idx(u)];
    let wm = wu.push(m);
    lemma_update_frame(v, g, m, Some(tentative));
    assert(wit_ok(v, g, wit, s, u));
    // `m` is not on the path to `u`: it would be reached at most as cheaply as `u`.
    assert forall|k: int| 0 <= k < wu.len() implies #[trigger] wu[k] != m by {
        if wu[k] == m {
            lemma_path_cost_prefix(wu, k);
        }
    }
    assert(wm.len() >= 2);
    lemma_path_cost_extend(wm, wm.len() - 1);
    assert(wm.take(wm.len() as int) =~= wm);
    assert(wm.take(wm.len() - 1) =~= wu);
    assert forall|i: int| 0 <= i < wm.len() - 1 implies v.is_step(#[trigger] wm[i], wm[i + 1]) by {
        if i < wu.len() - 1 {
            assert(wm[i] == wu[i] && wm[i + 1] == wu[i + 1]);
        }
    }
    assert forall|i: int, j: int|
        0 <= i < wm.len() && 0 <= j < wm.len() && i != j implies wm[i] != wm[j] by {
        if i < wu.len() && j < wu.len() {
            assert(wm[i] == wu[i] && wm[j] == wu[j]);
        } else if i < wu.len() {
            assert(wm[i] == wu[i]);
        } else if j < wu.len() {
            assert(wm[j] == wu[j]);
        }
    }
    assert forall|k: int| 0 <= k < wm.len() implies (g_at(v, g1, #[trigger] wm[k]) matches Some(gk)
        && gk <= path_cost(wm.take(k + 1))) by {
        if k < wu.len() {
            assert(wm[k] == wu[k]);
            assert(wm.take(k + 1) =~= wu.take(k + 1));
            lemma_path_in_bounds(v, wu, k);
            assert(g1[v.idx(wu[k])] == g[v.idx(wu[k])]);
        }
    }
    assert forall|i: int| 0 <= i < wm.len() implies v.node_in_bounds(#[trigger] wm[i]) by {
        if i < wu.len() {
            assert(wm[i] == wu[i]);
            lemma_path_in_bounds(v, wu, i);
        }
    }
    lemma_distinct_cells(v, wm);
    lemma_path_cost_range(wm);
}

/// Improving the cost of `m` by a step out of `u` keeps a witness path for every reached
/// cell, and the new cost is at most twice the number of cells.
#[verifier::rlimit(30)]
proof fn lemma_relax_wit(
    v: GridView,
    g: Seq<Option<u128>>,
    wit: Seq<Seq<Node>>,
    s: Node,
    u: Node,
    m: Node,
    tentative: u128,
)
    requires
        v.wf(),
        g.len() == v.cells(),
        v.node_in_bounds(s),
        wit_inv(v, g, wit, s),
        v.node_in_bounds(u),
        g_at(v, g, u) is Some,
        v.is_step(u, m),
        tentative == g_at(v, g, u)->0 + GridView::step_cost(u, m),
        g_at(v, g, m) matches Some(gm) ==> tentative < gm,
    ensures
        wit_inv(
            v,
            g.update(v.idx(m), Some(tentative)),
            wit.update(v.idx(m), wit[v.idx(u)].push(m)),
            s,
        ),
        tentative <= 2 * v.cells(),
{
    lemma_neighbor_shape(v, u, m, GridView::step_cost(u, m));
    let g1 = g.update(v.idx(m), Some(tentative));
    let wm = wit[v.idx(u)].push(m);
    let wit1 = wit.update(v.idx(m), wm);
    lemma_update_frame(v, g, m, Some(tentative));
    lemma_update_frame(v, wit, m, wm);
    lemma_extended_witness(v, g, wit, s, u, m, tentative);
    assert(wit_ok(v, g1, wit1, s, m));
    assert forall|n: Node| v.node_in_bounds(n) implies #[trigger] wit_ok(v, g1, wit1, s, n) by {
        if n != m {
            lemma_other_witness(v, g, wit, s, m, tentative, wm, n);
        }
    }
}

/// Lowering the cost of `m` leaves the witness of any other reached cell valid.
proof fn lemma_other_witness(
    v: GridView,
    g: Seq<Option<u128>>,
    wit: Seq<Seq<Node>>,
    s: Node,
    m: Node,
    tentative: u128,
    wm: Seq<Node>,
    n: Node,
)
    requires
        v.wf(),
        g.len() == v.cells(),
        v.node_in_bounds(s),
        wit_inv(v, g, wit, s),
        v.node_in_bounds(m),
        v.node_in_bounds(n),
        n != m,
        g_at(v, g, m) matches Some(gm) ==> tentative < gm,
    ensures
        wit_ok(v, g.update(v.idx(m), Some(tentative)), wit.update(v.idx(m), wm), s, n),
{
    let g1 = g.update(v.idx(m), Some(tentative));
    let wit1 = wit.update(v.idx(m), wm);
    lemma_update_frame(v, g, m, Some(tentative));
    lemma_update_frame(v, wit, m, wm);
    assert(wit_ok(v, g, wit, s, n));
    assert(g1[v.idx(n)] == g[v.idx(n)]);
    assert(wit1[v.idx(n)] == wit[v.idx(n)]);
    if g_at(v, g, n) is Some {
        let w = wit[v.idx(n)];
        assert forall|k: int| 0 <= k < w.len() implies (g_at(v, g1, #[trigger] w[k]) matches Some(gk)
            && gk <= path_cost(w.take(k + 1))) by {
            lemma_path_in_bounds(v, w, k);
            if w[k] != m {
                assert(g1[v.idx(w[k])] == g[v.idx(w[k])]);
            }
        }
    }
}

/// How a search ended.
enum SearchResult {
    Found(Vec<Node>),
    Exhausted,
    LimitReached,
}

impl NavGrid {
    /// A* from `s` to any cell in `t`'s column and layer, giving up after `search_limit`
    /// cells have been taken off the open list.
    #[verifier::spinoff_prover]
    #[verifier::rlimit(60)]
    fn search(&self, s: Node, t: Node, search_limit: usize) -> (r: SearchResult)
        requires
            self@.wf(),
            self@.node_in_bounds(s),
            self@.node_in_bounds(t),
        ensures
            r matches SearchResult::Found(p) ==> is_goal_path(self@, p@, s, t) && forall|q: Seq<Node>|
                is_goal_path(self@, q, s, t) ==> path_cost(p@) <= path_cost(q),
            r is Exhausted ==> !exists|q: Seq<Node>| is_goal_path(self@, q, s, t),
            r is LimitReached ==> search_limit <= search_bound(self@),
            match r {
                SearchResult::Found(p) => outcome(self@, s, t, search_limit as nat)
                    == SearchOutcome::Found(p@),
                SearchResult::Exhausted => outcome(self@, s, t, search_limit as nat)
                    == SearchOutcome::Exhausted,
                SearchResult::LimitReached => outcome(self@, s, t, search_limit as nat)
                    == SearchOutcome::LimitReached,
            },
    {
        let ghost v = self@;
        let n = self.walkable.len();
        let mut g: Vec<Option<u128>> = Vec::new();
        let mut came: Vec<Option<Node>> = Vec::new();
        let mut i: usize = 0;
        while i < n
            invariant
                i <= n,
                g@.len() == i,
                came@.len() == i,
                forall|j: int| 0 <= j < i ==> g@[j] is None && came@[j] is None,
            decreases n - i,
        {
            g.push(None);
            came.push(None);
            i = i + 1;
        }
        let si = self.index(s.x, s.y, s.layer_id);
        let ghost g0 = g@;
        g[si] = Some(0);
        let mut open: Vec<OpenNode> = Vec::new();
        open.push(OpenNode { node: s, f: heuristic_exec(s, t) });
        let mut visited: usize = 0;
        let ghost mut wit: Seq<Seq<Node>> = Seq::new(n as nat, |j: int| Seq::<Node>::empty()).update(
            si as int,
            seq![s],
        );
        proof {
            let top = 2 * v.cells() + 1;
            assert(g0 =~= no_costs(n as nat));
            lemma_potential_all_none(n as nat, top);
            lemma_potential_update(g0, si as int, Some(0u128), top);
            assert(v.cells() * top == (v.cells() - 1) * top + top) by (nonlinear_arith);
            assert(budget_ok(v, g@, open@.len() as int, 0));
            lemma_update_frame(v, Seq::new(n as nat, |j: int| Seq::<Node>::empty()), s, seq![s]);
            assert(seq![s].take(1) =~= seq![s]);
            assert(wit_ok(v, g@, wit, s, s));
            assert forall|m: Node| v.node_in_bounds(m) implies #[trigger] wit_ok(v, g@, wit, s, m) by {
                if m != s {
                    lemma_index(v, m.x as int, m.y as int, m.layer_id as int);
                    assert(g@[v.idx(m)] is None);
                }
            }
            lemma_update_frame(v, Seq::new(n as nat, |j: int| None::<u128>), s, Some(0u128));
            assert(g@ =~= Seq::new(n as nat, |j: int| None::<u128>).update(si as int, Some(0u128)));
            assert(entry_ok(v, g@, t, 0, open@[0]));
            assert(came@ =~= Seq::new(n as nat, |j: int| None::<Node>));
            assert(open@ =~= seq![OpenNode { node: s, f: heuristic(s, t) as u128 }]);
            assert(SearchState { g: g@, came: came@, open: open@ } =~= start_state(v, s, t));
            assert(has_entry(open@, s, 0 + heuristic(s, t))) by {
                assert(open@[0].node == s);
            }
            assert forall|m: Node| v.node_in_bounds(m) implies #[trigger] node_ok(
                v,
                g@,
                came@,
                open@,
                s,
                t,
                0,
                m,
            ) by {
                if m != s {
                    lemma_index(v, m.x as int, m.y as int, m.layer_id as int);
                    assert(g@[v.idx(m)] is None);
                }
            }
        }
        while open.len() > 0
            invariant
                v == self@,
                search_inv(v, g@, came@, open@, s, t, visited as int),
                wit_inv(v, g@, wit, s),
                budget_ok(v, g@, open@.len() as int, visited as int),
                visited <= search_limit,
                run(v, s, t, visited as nat) == SearchPhase::Running(
                    SearchState { g: g@, came: came@, open: open@ },
                ),
            decreases search_limit - visited,
        {
            let i = min_entry(&open);
            let ghost pre_open = open@;
            let ghost pre_visited = visited as int;
            let e = open.remove(i);
            if visited >= search_limit {
                proof {
                    lemma_potential_nonneg(g@, 2 * v.cells() + 1);
                }
                return SearchResult::LimitReached;
            }
            let ghost rest = SearchState { g: g@, came: came@, open: open@ };
            proof {
                assert(rest =~= SearchState { g: g@, came: came@, open: pre_open.remove(i as int) });
                assert(run(v, s, t, (visited + 1) as nat) == advance(v, t, run(v, s, t, visited as nat)));
                lemma_advance_running(v, t, SearchState { g: g@, came: came@, open: pre_open }, i as int, rest);
            }
            visited = visited + 1;
            let u = e.node;
            proof {
                assert(entry_ok(v, g@, t, pre_visited, pre_open[i as int]));
            }
            if u.x == t.x && u.layer_id == t.layer_id {
                proof {
                    assert forall|m: Node| v.node_in_bounds(m) implies #[trigger] chain_ok(
                        v,
                        g@,
                        came@,
                        s,
                        m,
                    ) by {
                        assert(node_ok(v, g@, came@, pre_open, s, t, pre_visited, m));
                    }
                }
                let path = self.reconstruct(&came, Ghost(g@), s, u);
                proof {
                    assert(run(v, s, t, visited as nat) == SearchPhase::Reached(rest, u));
                    lemma_run_settled(v, s, t, visited as nat, search_limit as nat);
                }
                proof {
                    assert forall|q: Seq<Node>| is_goal_path(v, q, s, t) implies path_cost(path@)
                        <= path_cost(q) by {
                        lemma_frontier(v, g@, came@, pre_open, s, t, pre_visited, q);
                    }
                }
                return SearchResult::Found(path);
            }
            let ui = self.index(u.x, u.y, u.layer_id);
            let gu = match g[ui] {
                Some(x) => x,
                None => 0,
            };
            let nbrs = self.neighbors(u);
            proof {
                lemma_pop(v, g@, came@, pre_open, s, t, pre_visited, i as int, nbrs@);
                assert(run(v, s, t, visited as nat) == SearchPhase::Running(expand(v, t, rest, u)));
            }
            let mut k: usize = 0;
            while k < nbrs.len()
                invariant
                    v == self@,
                    expand_inv(v, g@, came@, open@, s, t, visited as int, u, gu as int, nbrs@, k as int),
                    wit_inv(v, g@, wit, s),
                    budget_ok(v, g@, open@.len() as int, visited as int),
                    visited <= search_limit,
                    run(v, s, t, visited as nat) == SearchPhase::Running(expand(v, t, rest, u)),
                    gu as int == match rest.g[v.idx(u)] {
                        Some(x) => x as int,
                        None => 0,
                    },
                    (SearchState { g: g@, came: came@, open: open@ }) == relax_all(
                        v,
                        t,
                        rest,
                        u,
                        gu as int,
                        v.neighbors(u),
                        k as int,
                    ),
                decreases nbrs@.len() - k,
            {
                let ghost cur = SearchState { g: g@, came: came@, open: open@ };
                let (m, c) = nbrs[k];
                proof {
                    assert(v.neighbors(u)[k as int] == (m, c as int));
                    assert(v.neighbors(u).contains((m, c as int)));
                    lemma_neighbor_shape(v, u, m, c as int);
                }
                let mi = self.index(m.x, m.y, m.layer_id);
                let tentative = gu + c as u128;
                let better = match g[mi] {
                    None => true,
                    Some(gm) => tentative < gm,
                };
                if better {
                    let f = tentative + heuristic_exec(m, t);
                    proof {
                        lemma_relax(v, g@, came@, open@, s, t, visited as int, u, gu as int, nbrs@, k as int, tentative, f);
                        assert(v.is_step(u, m));
                        lemma_relax_wit(v, g@, wit, s, u, m, tentative);
                        lemma_index(v, m.x as int, m.y as int, m.layer_id as int);
                        lemma_potential_update(g@, mi as int, Some(tentative), 2 * v.cells() + 1);
                        wit = wit.update(mi as int, wit[v.idx(u)].push(m));
                    }
                    came[mi] = Some(u);
                    g[mi] = Some(tentative);
                    open.push(OpenNode { node: m, f });
                }
                proof {
                    assert(SearchState { g: g@, came: came@, open: open@ } =~= relax(
                        v,
                        t,
                        cur,
                        u,
                        gu as int,
                        v.neighbors(u)[k as int],
                    ));
                }
                k = k + 1;
            }
            proof {
                lemma_settle(v, g@, came@, open@, s, t, visited as int, u, gu as int, nbrs@);
                assert(SearchState { g: g@, came: came@, open: open@ } == expand(v, t, rest, u));
            }
        }
        proof {
            lemma_run_settled(v, s, t, visited as nat, search_limit as nat);
            assert forall|q: Seq<Node>| !is_goal_path(v, q, s, t) by {
                if is_goal_path(v, q, s, t) {
                    lemma_frontier(v, g@, came@, open@, s, t, visited as int, q);
                }
            }
        }
        SearchResult::Exhausted
    }
}

/// The cell of a path segment.
pub open spec fn segment_node(seg: PathSegment) -> Node {
    Node { x: seg.x, y: seg.y, layer_id: (seg.layer.spec_id() - 1) as usize }
}

/// The path segments stand for the cells of `p`, one for one: same column and row, and the
/// layer whose number is the cell's layer index plus one.
pub open spec fn segments_of(path: Seq<PathSegment>, p: Seq<Node>) -> bool {
    &&& path.len() == p.len()
    &&& forall|i: int|
        0 <= i < p.len() ==> (#[trigger] path[i]).x == p[i].x && path[i].y == p[i].y
            && path[i].layer.spec_id() == p[i].layer_id + 1 && path[i].layer.is_layer(
            path[i].layer.spec_id(),
        )
}

/// The cells of a sequence of path segments.
pub open spec fn segment_nodes(p: Seq<PathSegment>) -> Seq<Node> {
    Seq::new(p.len(), |i: int| segment_node(p[i]))
}

/// Every cell of a path from a standable cell is standable.
pub proof fn lemma_path_standable(v: GridView, p: Seq<Node>, k: int)
    requires
        v.wf(),
        v.is_path(p),
        v.standable(p[0].x as int, p[0].y as int, p[0].layer_id as int),
        0 <= k < p.len(),
    ensures
        v.standable(p[k].x as int, p[k].y as int, p[k].layer_id as int),
{
    if k > 0 {
        assert(v.is_step(p[k - 1], p[k]));
        lemma_neighbor_shape(v, p[k - 1], p[k], GridView::step_cost(p[k - 1], p[k]));
    }
}

impl NavGrid {
    /// The cell where a search starts or ends for `cell` on `layer`: the nearest standable
    /// row of that column.
    fn build_node(&self, cell: (usize, usize), layer: Layer) -> (r: Option<Node>)
        requires
            self@.wf(),
            layer.spec_id() >= 1,
            cell.0 < self@.width && layer.spec_id() - 1 < self@.layers ==> self@.height > 0,
        ensures
            r == self@.build(cell.0 as int, cell.1 as int, layer),
    {
        let layer_id = layer.id() as usize - 1;
        let (x, y) = cell;
        if x >= self.width || layer_id >= self.layers {
            return None;
        }
        let max_y = self.height - 1;
        let y = if y < max_y { y } else { max_y };
        match self.nearest_standable_y(x, y, layer_id) {
            Some(ny) => Some(Node { x, y: ny, layer_id }),
            None => None,
        }
    }

    /// Searches a path from cell `start_cell` on `start_layer` to cell `target_cell` on
    /// `target_layer` with A*, giving up when it would take more than `search_limit` cells
    /// off its open list.
    ///
    /// The search starts and ends on the standable rows nearest to the given cells; it
    /// reaches the target when it stands in the target's column on the target's layer.
    /// Each step moves one column sideways on the same layer (cost 1) or to a neighbouring
    /// layer in the same column (cost `LAYER_CHANGE_COST`), onto the standable row of the new
    /// column nearest to the current row. A found path is the cheapest such path, and it
    /// never finds one that does not exist.
    ///
    /// The result is exactly `outcome` of the search: each step takes the first entry with
    /// the lowest estimate off the open list, and the search gives up, with no path, when it
    /// would take more than `search_limit` cells off it. Raising the limit never loses or
    /// changes a found path (`lemma_search_limit_monotone`); with a limit above
    /// `search_bound` every existing path is found.
    pub fn find_path(
        &self,
        start_cell: (usize, usize),
        start_layer: Layer,
        target_cell: (usize, usize),
        target_layer: Layer,
        search_limit: usize,
    ) -> (r: Option<Vec<PathSegment>>)
        requires
            self@.wf(),
            self@.layers <= 31,
            start_layer.spec_id() >= 1,
            start_cell.0 < self@.width && start_layer.spec_id() - 1 < self@.layers ==> self@.height
                > 0,
            self@.build(start_cell.0 as int, start_cell.1 as int, start_layer) is Some
                ==> target_layer.spec_id() >= 1,
        ensures
            self@.build(start_cell.0 as int, start_cell.1 as int, start_layer) is None
                || self@.build(target_cell.0 as int, target_cell.1 as int, target_layer) is None
                ==> r is None,
            r matches Some(path) ==> ({
                let s = self@.build(start_cell.0 as int, start_cell.1 as int, start_layer)->0;
                let t = self@.build(target_cell.0 as int, target_cell.1 as int, target_layer)->0;
                let nodes = segment_nodes(path@);
                &&& self@.build(start_cell.0 as int, start_cell.1 as int, start_layer) is Some
                &&& self@.build(target_cell.0 as int, target_cell.1 as int, target_layer) is Some
                &&& is_goal_path(self@, nodes, s, t)
                &&& forall|i: int|
                    0 <= i < path@.len() ==> (#[trigger] path@[i]).layer.is_layer(
                        path@[i].layer.spec_id(),
                    ) && path@[i].layer.spec_id() == segment_node(path@[i]).layer_id + 1
                        && self@.standable(path@[i].x as int, path@[i].y as int, segment_node(path@[i]).layer_id as int)
                &&& forall|q: Seq<Node>| is_goal_path(self@, q, s, t) ==> path_cost(nodes) <= path_cost(q)
            }),
            (self@.build(start_cell.0 as int, start_cell.1 as int, start_layer) matches Some(s)
                && self@.build(target_cell.0 as int, target_cell.1 as int, target_layer) matches Some(t)
                && !exists|q: Seq<Node>| is_goal_path(self@, q, s, t)) ==> r is None,
            (self@.build(start_cell.0 as int, start_cell.1 as int, start_layer) matches Some(s)
                && self@.build(target_cell.0 as int, target_cell.1 as int, target_layer) matches Some(t)
                && search_limit > search_bound(self@) && exists|q: Seq<Node>| is_goal_path(self@, q, s, t))
                ==> r is Some,
            self@.build(start_cell.0 as int, start_cell.1 as int, start_layer) is Some
                && self@.build(target_cell.0 as int, target_cell.1 as int, target_layer) is Some
                ==> match outcome(
                self@,
                self@.build(start_cell.0 as int, start_cell.1 as int, start_layer)->0,
                self@.build(target_cell.0 as int, target_cell.1 as int, target_layer)->0,
                search_limit as nat,
            ) {
                SearchOutcome::Found(p) => r matches Some(path) && segments_of(path@, p),
                _ => r is None,
            },
    {
        let ghost v = self@;
        let start = match self.build_node(start_cell, start_layer) {
            Some(n) => n,
            None => return None,
        };
        let target = match self.build_node(target_cell, target_layer) {
            Some(n) => n,
            None => return None,
        };
        if start.x >= self.width || target.x >= self.width {
            return None;
        }
        proof {
            assert(v.is_nearest(start.x as int, if start_cell.1 < v.height - 1 { start_cell.1 as int } else { v.height - 1 }, start.layer_id as int, start.y as int));
            assert(v.is_nearest(target.x as int, if target_cell.1 < v.height - 1 { target_cell.1 as int } else { v.height - 1 }, target.layer_id as int, target.y as int));
        }
        match self.search(start, target, search_limit) {
            SearchResult::Found(nodes) => {
                let n = nodes.len();
                let mut out: Vec<PathSegment> = Vec::new();
                let mut i: usize = 0;
                while i < n
                    invariant
                        v == self@,
                        v.wf(),
                        v.layers <= 31,
                        n == nodes@.len(),
                        is_goal_path(v, nodes@, start, target),
                        v.standable(start.x as int, start.y as int, start.layer_id as int),
                        i <= n,
                        out@.len() == i,
                        forall|j: int|
                            0 <= j < i ==> segment_node(#[trigger] out@[j]) == nodes@[j]
                                && out@[j].layer.is_layer(out@[j].layer.spec_id())
                                && out@[j].layer.spec_id() == nodes@[j].layer_id + 1,
                    decreases n - i,
                {
                    let node = nodes[i];
                    proof {
                        lemma_path_in_bounds(v, nodes@, i as int);
                    }
                    let layer = Layer::new(node.layer_id as u32 + 1);
                    out.push(PathSegment { x: node.x, y: node.y, layer });
                    i = i + 1;
                }
                proof {
                    assert(segment_nodes(out@) =~= nodes@);
                    assert forall|j: int| 0 <= j < out@.len() implies v.standable(
                        out@[j].x as int,
                        out@[j].y as int,
                        segment_node(out@[j]).layer_id as int,
                    ) by {
                        assert(segment_node(out@[j]) == nodes@[j]);
                        lemma_path_standable(v, nodes@, j);
                    }
                }
                Some(out)
            },
            SearchResult::Exhausted => None,
            SearchResult::LimitReached => None,
        }
    }
}

} // verus!
