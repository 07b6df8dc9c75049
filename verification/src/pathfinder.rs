//! Stateless A* search over an 8-connected square grid, plus the spec-level
//! geometry it is described with: flattened row-major indexing, Moore
//! adjacency, and validity of a returned path.

use vstd::prelude::*;
use vstd::pervasive::VecAdditionalExecFns;
use vstd::set_lib::lemma_int_range;
use vstd::set_lib::lemma_len_subset;
use vstd::set_lib::set_int_range;

verus! {

/// Absolute value, for spec arithmetic.
pub open spec fn abs_i(a: int) -> int {
    if a < 0 {
        -a
    } else {
        a
    }
}

/// `(x, y)` names a cell of an `n` by `n` grid.
pub open spec fn in_bounds(n: int, x: int, y: int) -> bool {
    0 <= x < n && 0 <= y < n
}

/// Row-major position of cell `(x, y)` in a flattened `n` by `n` layer.
pub open spec fn idx(n: int, x: int, y: int) -> int {
    y * n + x
}

pub proof fn lemma_idx_bounds(n: int, x: int, y: int)
    requires
        in_bounds(n, x, y),
    ensures
        0 <= idx(n, x, y) < n * n,
{
    assert(0 <= y * n + x < n * n) by (nonlinear_arith)
        requires
            0 <= x < n,
            0 <= y < n,
    ;
}

pub proof fn lemma_idx_injective(n: int, x1: int, y1: int, x2: int, y2: int)
    requires
        in_bounds(n, x1, y1),
        in_bounds(n, x2, y2),
        idx(n, x1, y1) == idx(n, x2, y2),
    ensures
        x1 == x2,
        y1 == y2,
{
    assert(x1 == x2 && y1 == y2) by (nonlinear_arith)
        requires
            0 <= x1 < n,
            0 <= y1 < n,
            0 <= x2 < n,
            0 <= y2 < n,
            y1 * n + x1 == y2 * n + x2,
    ;
}

pub proof fn lemma_idx_decompose(n: int, x: int, y: int)
    requires
        in_bounds(n, x, y),
    ensures
        idx(n, x, y) % n == x,
        idx(n, x, y) / n == y,
{
    assert((y * n + x) % n == x && (y * n + x) / n == y) by (nonlinear_arith)
        requires
            0 <= x < n,
            0 <= y < n,
    ;
}

pub proof fn lemma_idx_surjective(n: int, i: int)
    requires
        1 <= n,
        0 <= i < n * n,
    ensures
        in_bounds(n, i % n, i / n),
        idx(n, i % n, i / n) == i,
{
    assert(0 <= i % n < n && 0 <= i / n < n && (i / n) * n + (i % n) == i) by (nonlinear_arith)
        requires
            1 <= n,
            0 <= i < n * n,
    ;
}

/// Two distinct cells that touch, diagonals included (Moore neighborhood).
pub open spec fn adj8(x1: int, y1: int, x2: int, y2: int) -> bool {
    &&& !(x1 == x2 && y1 == y2)
    &&& abs_i(x2 - x1) <= 1
    &&& abs_i(y2 - y1) <= 1
}

/// A cell the search may stand on: inside the grid, free of obstacles and,
/// when the fog mask is honored, not fogged.
pub open spec fn open_cell(
    n: int,
    obstacles: Seq<bool>,
    fog: Seq<bool>,
    honor_fog: bool,
    x: int,
    y: int,
) -> bool {
    &&& in_bounds(n, x, y)
    &&& !obstacles[idx(n, x, y)]
    &&& (honor_fog ==> !fog[idx(n, x, y)])
}

/// What a result of the search means: the sequence starts at `(sx, sy)`,
/// ends at `(gx, gy)`, every later cell is open, and consecutive cells are
/// 8-adjacent. The first cell is not required to be open, so a robot standing
/// anywhere may still path away.
pub open spec fn path_ok(
    p: Seq<(usize, usize)>,
    n: int,
    obstacles: Seq<bool>,
    fog: Seq<bool>,
    honor_fog: bool,
    sx: int,
    sy: int,
    gx: int,
    gy: int,
) -> bool {
    &&& p.len() >= 1
    &&& p[0].0 == sx && p[0].1 == sy
    &&& p[p.len() - 1].0 == gx && p[p.len() - 1].1 == gy
    &&& in_bounds(n, sx, sy)
    &&& forall|i: int|
        1 <= i < p.len() ==> adj8(
            (#[trigger] p[i]).0 as int,
            p[i].1 as int,
            p[i - 1].0 as int,
            p[i - 1].1 as int,
        ) && open_cell(n, obstacles, fog, honor_fog, p[i].0 as int, p[i].1 as int)
}

/// An entry of the open list: a cell, the path cost at which it was pushed,
/// and its heuristic priority.
pub struct Node {
    pub x: usize,
    pub y: usize,
    pub cost: usize,
    pub priority: usize,
}

impl Node {
    pub fn new(x: usize, y: usize, cost: usize, priority: usize) -> (r: Node)
        ensures
            r.x == x,
            r.y == y,
            r.cost == cost,
            r.priority == priority,
    {
        Node { x, y, cost, priority }
    }
}

/// Manhattan distance between two cells, in spec form.
pub open spec fn manhattan(x1: int, y1: int, x2: int, y2: int) -> int {
    abs_i(x2 - x1) + abs_i(y1 - y2)
}

/// The search heuristic: Manhattan distance. For 8-connected movement with
/// unit diagonal cost this can overestimate the remaining cost, and that is
/// kept as is: the produced path shapes depend on it.
pub fn heuristic(x1: usize, y1: usize, x2: usize, y2: usize) -> (r: usize)
    requires
        manhattan(x1 as int, y1 as int, x2 as int, y2 as int) <= usize::MAX,
    ensures
        r == manhattan(x1 as int, y1 as int, x2 as int, y2 as int),
{
    let dx: usize = if x2 >= x1 {
        x2 - x1
    } else {
        x1 - x2
    };
    let dy: usize = if y1 >= y2 {
        y1 - y2
    } else {
        y2 - y1
    };
    dx + dy
}

/// The eight search directions, in the order the search tries them.
pub open spec fn spec_dir(k: int) -> (int, int) {
    if k == 0 {
        (0, -1)
    } else if k == 1 {
        (0, 1)
    } else if k == 2 {
        (-1, 0)
    } else if k == 3 {
        (1, 0)
    } else if k == 4 {
        (-1, -1)
    } else if k == 5 {
        (1, -1)
    } else if k == 6 {
        (-1, 1)
    } else {
        (1, 1)
    }
}

fn direction(k: usize) -> (r: (isize, isize))
    requires
        k < 8,
    ensures
        r.0 as int == spec_dir(k as int).0,
        r.1 as int == spec_dir(k as int).1,
{
    match k {
        0 => (0, -1),
        1 => (0, 1),
        2 => (-1, 0),
        3 => (1, 0),
        4 => (-1, -1),
        5 => (1, -1),
        6 => (-1, 1),
        _ => (1, 1),
    }
}

/// A coordinate moved one step and clamped back into the grid.
pub open spec fn clamp_coord(n: int, v: int) -> int {
    if v < 0 {
        0
    } else if v > n - 1 {
        n - 1
    } else {
        v
    }
}

/// The cell the search visits from `(x, y)` in direction `k`: stepped and
/// clamped to the grid, as the movement rules have it.
pub open spec fn clamped_nbr(n: int, x: int, y: int, k: int) -> (int, int) {
    (clamp_coord(n, x + spec_dir(k).0), clamp_coord(n, y + spec_dir(k).1))
}

pub fn clamped_neighbor(n: usize, x: usize, y: usize, k: usize) -> (r: (usize, usize))
    requires
        k < 8,
        1 <= n,
        x < n,
        y < n,
        (n as int) * (n as int) <= usize::MAX,
    ensures
        r.0 as int == clamped_nbr(n as int, x as int, y as int, k as int).0,
        r.1 as int == clamped_nbr(n as int, x as int, y as int, k as int).1,
        in_bounds(n as int, r.0 as int, r.1 as int),
        abs_i(r.0 - x) <= 1,
        abs_i(r.1 - y) <= 1,
{
    let (dx, dy) = direction(k);
    let rx: usize = if dx < 0 {
        if x == 0 {
            0
        } else {
            x - 1
        }
    } else if dx > 0 {
        if x + 1 > n - 1 {
            n - 1
        } else {
            x + 1
        }
    } else {
        x
    };
    let ry: usize = if dy < 0 {
        if y == 0 {
            0
        } else {
            y - 1
        }
    } else if dy > 0 {
        if y + 1 > n - 1 {
            n - 1
        } else {
            y + 1
        }
    } else {
        y
    };
    (rx, ry)
}

/// Row-major index of a cell, as a machine integer.
pub fn cell_index(n: usize, x: usize, y: usize) -> (r: usize)
    requires
        x < n,
        y < n,
        (n as int) * (n as int) <= usize::MAX,
    ensures
        r == idx(n as int, x as int, y as int),
        r < (n as int) * (n as int),
{
    proof {
        lemma_idx_bounds(n as int, x as int, y as int);
    }
    y * n + x
}

/// The indices whose cost the search has already made finite.
pub open spec fn fin_set(g: Seq<usize>) -> Set<int> {
    Set::new(|i: int| 0 <= i < g.len() && g[i] < usize::MAX)
}

/// Every finite cost is below the number of finite cells: the argument that
/// keeps costs from overflowing however the search proceeds.
pub open spec fn g_bounded(g: Seq<usize>) -> bool {
    forall|i: int| 0 <= i < g.len() && (#[trigger] g[i]) < usize::MAX ==> g[i] < fin_set(g).len()
}

proof fn lemma_fin_set_le(g: Seq<usize>)
    ensures
        fin_set(g).finite(),
        fin_set(g).len() <= g.len(),
{
    lemma_int_range(0, g.len() as int);
    lemma_len_subset(fin_set(g), set_int_range(0, g.len() as int));
}

/// What one predecessor entry promises: the cell it names is in the grid and
/// adjacent, the cell it leads to is open, and costs step by at least one.
pub open spec fn came_entry_ok(
    n: int,
    obstacles: Seq<bool>,
    fog: Seq<bool>,
    honor_fog: bool,
    g: Seq<usize>,
    x: int,
    y: int,
    u: (usize, usize),
) -> bool {
    &&& in_bounds(n, u.0 as int, u.1 as int)
    &&& adj8(u.0 as int, u.1 as int, x, y)
    &&& open_cell(n, obstacles, fog, honor_fog, x, y)
    &&& g[idx(n, u.0 as int, u.1 as int)] < usize::MAX
    &&& g[idx(n, x, y)] >= g[idx(n, u.0 as int, u.1 as int)] + 1
}

/// The search's main invariant over costs and predecessors.
pub open spec fn search_inv(
    n: int,
    obstacles: Seq<bool>,
    fog: Seq<bool>,
    honor_fog: bool,
    sx: int,
    sy: int,
    g: Seq<usize>,
    came: Seq<Option<(usize, usize)>>,
) -> bool {
    &&& g.len() == n * n
    &&& came.len() == n * n
    &&& g[idx(n, sx, sy)] == 0
    &&& came[idx(n, sx, sy)] is None
    &&& forall|x: int, y: int|
        in_bounds(n, x, y) && !(x == sx && y == sy) && g[idx(n, x, y)] < usize::MAX ==> (
        #[trigger] came[idx(n, x, y)]) is Some
    &&& forall|x: int, y: int|
        in_bounds(n, x, y) && (#[trigger] came[idx(n, x, y)]) is Some ==> came_entry_ok(
            n,
            obstacles,
            fog,
            honor_fog,
            g,
            x,
            y,
            came[idx(n, x, y)].unwrap(),
        )
}

/// Every open-list entry names a grid cell whose cost is already finite.
pub open spec fn open_nodes_ok(n: int, g: Seq<usize>, open: Seq<Node>) -> bool {
    forall|j: int|
        0 <= j < open.len() ==> in_bounds(n, (#[trigger] open[j]).x as int, open[j].y as int) && g[idx(
            n,
            open[j].x as int,
            open[j].y as int,
        )] < usize::MAX
}

/// A valid path of at most one cell per grid cell leads from `(fx, fy)` to
/// `(tx, ty)`. Any route at all implies one of this length, since a shortest
/// route never revisits a cell.
pub open spec fn reachable_within(
    n: int,
    obstacles: Seq<bool>,
    fog: Seq<bool>,
    honor_fog: bool,
    fx: int,
    fy: int,
    tx: int,
    ty: int,
) -> bool {
    exists|p: Seq<(usize, usize)>|
        #[trigger] path_ok(p, n, obstacles, fog, honor_fog, fx, fy, tx, ty) && p.len() <= n * n
}

/// Some open-list entry stands on cell `(x, y)`.
pub open spec fn in_open(open: Seq<Node>, x: int, y: int) -> bool {
    exists|j: int| 0 <= j < open.len() && (#[trigger] open[j]).x == x && open[j].y == y
}

/// Every open neighbor of `(ux, uy)` already has a cost at most one above
/// that cell's own cost: the cell has been fully relaxed.
pub open spec fn relaxed_at(
    n: int,
    obstacles: Seq<bool>,
    fog: Seq<bool>,
    honor_fog: bool,
    g: Seq<usize>,
    ux: int,
    uy: int,
) -> bool {
    forall|k: int|
        0 <= k < 8 ==> {
            let c = #[trigger] clamped_nbr(n, ux, uy, k);
            open_cell(n, obstacles, fog, honor_fog, c.0, c.1) ==> g[idx(n, c.0, c.1)] <= g[idx(
                n,
                ux,
                uy,
            )] + 1
        }
}

/// A cell with a finite cost is either still queued or fully relaxed.
pub open spec fn cell_settled(
    n: int,
    obstacles: Seq<bool>,
    fog: Seq<bool>,
    honor_fog: bool,
    g: Seq<usize>,
    open: Seq<Node>,
    x: int,
    y: int,
) -> bool {
    in_open(open, x, y) || relaxed_at(n, obstacles, fog, honor_fog, g, x, y)
}

/// Every finite-cost cell is settled.
pub open spec fn pending_all(
    n: int,
    obstacles: Seq<bool>,
    fog: Seq<bool>,
    honor_fog: bool,
    g: Seq<usize>,
    open: Seq<Node>,
) -> bool {
    forall|x: int, y: int|
        in_bounds(n, x, y) && g[idx(n, x, y)] < usize::MAX ==> #[trigger] cell_settled(
            n,
            obstacles,
            fog,
            honor_fog,
            g,
            open,
            x,
            y,
        )
}

/// Every finite-cost cell but possibly `ex` is settled.
pub open spec fn pending_except(
    n: int,
    obstacles: Seq<bool>,
    fog: Seq<bool>,
    honor_fog: bool,
    g: Seq<usize>,
    open: Seq<Node>,
    ex: (int, int),
) -> bool {
    forall|x: int, y: int|
        in_bounds(n, x, y) && g[idx(n, x, y)] < usize::MAX && !(x == ex.0 && y == ex.1)
            ==> #[trigger] cell_settled(n, obstacles, fog, honor_fog, g, open, x, y)
}

/// Every in-grid cell adjacent to `(ux, uy)` is reached by one of the eight
/// clamped direction steps.
pub proof fn lemma_dirs_cover(n: int, ux: int, uy: int, vx: int, vy: int)
    requires
        in_bounds(n, ux, uy),
        in_bounds(n, vx, vy),
        adj8(ux, uy, vx, vy),
    ensures
        exists|k: int| 0 <= k < 8 && #[trigger] clamped_nbr(n, ux, uy, k) == (vx, vy),
{
    let dx = vx - ux;
    let dy = vy - uy;
    if dx == 0 && dy == -1 {
        assert(clamped_nbr(n, ux, uy, 0) == (vx, vy));
    } else if dx == 0 && dy == 1 {
        assert(clamped_nbr(n, ux, uy, 1) == (vx, vy));
    } else if dx == -1 && dy == 0 {
        assert(clamped_nbr(n, ux, uy, 2) == (vx, vy));
    } else if dx == 1 && dy == 0 {
        assert(clamped_nbr(n, ux, uy, 3) == (vx, vy));
    } else if dx == -1 && dy == -1 {
        assert(clamped_nbr(n, ux, uy, 4) == (vx, vy));
    } else if dx == 1 && dy == -1 {
        assert(clamped_nbr(n, ux, uy, 5) == (vx, vy));
    } else if dx == -1 && dy == 1 {
        assert(clamped_nbr(n, ux, uy, 6) == (vx, vy));
    } else {
        assert(dx == 1 && dy == 1);
        assert(clamped_nbr(n, ux, uy, 7) == (vx, vy));
    }
}

/// Along any valid path out of the start, when every finite-cost cell is
/// fully relaxed, the cost of the i-th cell is at most i.
proof fn lemma_path_prefix_bound(
    n: int,
    obstacles: Seq<bool>,
    fog: Seq<bool>,
    honor_fog: bool,
    sx: int,
    sy: int,
    gx: int,
    gy: int,
    g: Seq<usize>,
    p: Seq<(usize, usize)>,
    i: int,
)
    requires
        1 <= n,
        n * n < usize::MAX,
        g.len() == n * n,
        g[idx(n, sx, sy)] == 0,
        forall|x: int, y: int|
            in_bounds(n, x, y) && g[idx(n, x, y)] < usize::MAX ==> #[trigger] relaxed_at(
                n,
                obstacles,
                fog,
                honor_fog,
                g,
                x,
                y,
            ),
        path_ok(p, n, obstacles, fog, honor_fog, sx, sy, gx, gy),
        p.len() <= n * n,
        0 <= i < p.len(),
    ensures
        g[idx(n, p[i].0 as int, p[i].1 as int)] <= i,
        in_bounds(n, p[i].0 as int, p[i].1 as int),
    decreases i,
{
    if i == 0 {
        assert(p[0].0 == sx && p[0].1 == sy);
    } else {
        lemma_path_prefix_bound(n, obstacles, fog, honor_fog, sx, sy, gx, gy, g, p, i - 1);
        let u = p[i - 1];
        let v = p[i];
        assert(adj8(v.0 as int, v.1 as int, u.0 as int, u.1 as int) && open_cell(
            n,
            obstacles,
            fog,
            honor_fog,
            v.0 as int,
            v.1 as int,
        ));
        assert(g[idx(n, u.0 as int, u.1 as int)] <= i - 1);
        assert(g[idx(n, u.0 as int, u.1 as int)] < usize::MAX);
        assert(relaxed_at(n, obstacles, fog, honor_fog, g, u.0 as int, u.1 as int));
        lemma_dirs_cover(n, u.0 as int, u.1 as int, v.0 as int, v.1 as int);
        let k = choose|k: int|
            0 <= k < 8 && #[trigger] clamped_nbr(n, u.0 as int, u.1 as int, k) == (
            v.0 as int,
            v.1 as int,
        );
        assert({
            let c = clamped_nbr(n, u.0 as int, u.1 as int, k);
            open_cell(n, obstacles, fog, honor_fog, c.0, c.1) ==> g[idx(n, c.0, c.1)] <= g[idx(
                n,
                u.0 as int,
                u.1 as int,
            )] + 1
        });
    }
}

/// A path that revisits a cell can be shortened: cutting the cycle between
/// the two visits leaves a valid path with the same endpoints.
proof fn lemma_path_cut(
    p: Seq<(usize, usize)>,
    n: int,
    obstacles: Seq<bool>,
    fog: Seq<bool>,
    honor_fog: bool,
    sx: int,
    sy: int,
    gx: int,
    gy: int,
    i: int,
    j: int,
)
    requires
        path_ok(p, n, obstacles, fog, honor_fog, sx, sy, gx, gy),
        0 <= i < j < p.len(),
        p[i] == p[j],
    ensures
        path_ok(p.take(i) + p.skip(j), n, obstacles, fog, honor_fog, sx, sy, gx, gy),
        (p.take(i) + p.skip(j)).len() < p.len(),
{
    let q = p.take(i) + p.skip(j);
    assert(q.len() == i + (p.len() - j));
    assert forall|t: int| 0 <= t < q.len() implies q[t] == (if t < i {
        p[t]
    } else {
        p[t - i + j]
    }) by {}
    assert(q[0] == p[0]);
    assert(q[q.len() - 1] == p[p.len() - 1]);
    assert forall|t: int|
        1 <= t < q.len() implies adj8(
        (#[trigger] q[t]).0 as int,
        q[t].1 as int,
        q[t - 1].0 as int,
        q[t - 1].1 as int,
    ) && open_cell(n, obstacles, fog, honor_fog, q[t].0 as int, q[t].1 as int) by {
        if t < i {
            assert(q[t] == p[t] && q[t - 1] == p[t - 1]);
        } else if t == i {
            assert(q[t] == p[j] && p[j] == p[i]);
            assert(q[t - 1] == p[t - 1]);
            assert(adj8(p[i].0 as int, p[i].1 as int, p[i - 1].0 as int, p[i - 1].1 as int)
                && open_cell(n, obstacles, fog, honor_fog, p[i].0 as int, p[i].1 as int));
        } else {
            let m = t - i + j;
            assert(q[t] == p[m] && q[t - 1] == p[m - 1]);
            assert(adj8(p[m].0 as int, p[m].1 as int, p[m - 1].0 as int, p[m - 1].1 as int)
                && open_cell(n, obstacles, fog, honor_fog, p[m].0 as int, p[m].1 as int));
        }
    }
}

/// Any valid path at all between two cells yields one of at most one cell
/// per grid cell: a shortest route never revisits a cell. So the bounded
/// form of reachability that the search's contract speaks of covers plain
/// reachability, and a `None` from the search rules out every route.
pub proof fn lemma_reachable_bounded(
    p: Seq<(usize, usize)>,
    n: int,
    obstacles: Seq<bool>,
    fog: Seq<bool>,
    honor_fog: bool,
    sx: int,
    sy: int,
    gx: int,
    gy: int,
)
    requires
        1 <= n,
        path_ok(p, n, obstacles, fog, honor_fog, sx, sy, gx, gy),
    ensures
        reachable_within(n, obstacles, fog, honor_fog, sx, sy, gx, gy),
    decreases p.len(),
{
    lemma_idx_bounds(n, sx, sy);
    if p.len() <= n * n {
        assert(path_ok(p, n, obstacles, fog, honor_fog, sx, sy, gx, gy) && p.len() <= n * n);
    } else {
        assert forall|t: int| 0 <= t < p.len() implies in_bounds(
            n,
            (#[trigger] p[t]).0 as int,
            p[t].1 as int,
        ) by {
            if t > 0 {
                assert(open_cell(n, obstacles, fog, honor_fog, p[t].0 as int, p[t].1 as int));
            }
        }
        if p.no_duplicates() {
            let ids = Seq::new(p.len(), |t: int| idx(n, p[t].0 as int, p[t].1 as int));
            assert forall|t1: int, t2: int|
                0 <= t1 < ids.len() && 0 <= t2 < ids.len() && t1 != t2 implies ids[t1] != ids[
                t2
            ] by {
                if ids[t1] == ids[t2] {
                    lemma_idx_injective(
                        n,
                        p[t1].0 as int,
                        p[t1].1 as int,
                        p[t2].0 as int,
                        p[t2].1 as int,
                    );
                    assert(p[t1] == p[t2]);
                }
            }
            ids.unique_seq_to_set();
            assert forall|e: int| ids.to_set().contains(e) implies set_int_range(0, n * n).contains(
                e,
            ) by {
                let t = choose|t: int| 0 <= t < ids.len() && ids[t] == e;
                lemma_idx_bounds(n, p[t].0 as int, p[t].1 as int);
            }
            lemma_int_range(0, n * n);
            lemma_len_subset(ids.to_set(), set_int_range(0, n * n));
            assert(false);
        }
        let (i0, j0) = choose|i0: int, j0: int|
            0 <= i0 < p.len() && 0 <= j0 < p.len() && i0 != j0 && #[trigger] p[i0] == #[trigger] p[j0];
        let i = if i0 < j0 {
            i0
        } else {
            j0
        };
        let j = if i0 < j0 {
            j0
        } else {
            i0
        };
        lemma_path_cut(p, n, obstacles, fog, honor_fog, sx, sy, gx, gy, i, j);
        lemma_reachable_bounded(
            p.take(i) + p.skip(j),
            n,
            obstacles,
            fog,
            honor_fog,
            sx,
            sy,
            gx,
            gy,
        );
    }
}

/// When every cell adjacent to the goal is an obstacle and the start is an
/// open cell elsewhere, no valid path can end at the goal. Together with the
/// search's contract, whose `Some` result always carries a valid path, this
/// forces `find_path` to return `None` for a goal walled in by obstacles.
pub proof fn lemma_enclosed_goal_unreachable(
    n: int,
    obstacles: Seq<bool>,
    fog: Seq<bool>,
    honor_fog: bool,
    sx: int,
    sy: int,
    gx: int,
    gy: int,
)
    requires
        in_bounds(n, sx, sy),
        in_bounds(n, gx, gy),
        !(sx == gx && sy == gy),
        obstacles.len() == n * n,
        !obstacles[idx(n, sx, sy)],
        forall|x: int, y: int|
            in_bounds(n, x, y) && adj8(x, y, gx, gy) ==> obstacles[#[trigger] idx(n, x, y)],
    ensures
        forall|p: Seq<(usize, usize)>|
            !#[trigger] path_ok(p, n, obstacles, fog, honor_fog, sx, sy, gx, gy),
{
    assert forall|p: Seq<(usize, usize)>|
        !#[trigger] path_ok(p, n, obstacles, fog, honor_fog, sx, sy, gx, gy) by {
        if path_ok(p, n, obstacles, fog, honor_fog, sx, sy, gx, gy) {
            let len = p.len() as int;
            assert(len >= 2);
            let q = p[len - 2];
            assert(adj8(p[len - 1].0 as int, p[len - 1].1 as int, q.0 as int, q.1 as int));
            if len - 2 == 0 {
                assert(q.0 == sx && q.1 == sy);
                assert(obstacles[idx(n, sx, sy)]);
            } else {
                assert(open_cell(n, obstacles, fog, honor_fog, q.0 as int, q.1 as int));
                assert(obstacles[idx(n, q.0 as int, q.1 as int)]);
            }
        }
    }
}

/// Total of all cell costs: the part of the search's termination measure
/// that every relaxation strictly shrinks.
pub open spec fn sum_seq(g: Seq<usize>) -> int
    decreases g.len(),
{
    if g.len() == 0 {
        0
    } else {
        sum_seq(g.drop_last()) + g.last()
    }
}

proof fn lemma_sum_nonneg(g: Seq<usize>)
    ensures
        sum_seq(g) >= 0,
    decreases g.len(),
{
    if g.len() > 0 {
        lemma_sum_nonneg(g.drop_last());
    }
}

proof fn lemma_sum_update(g: Seq<usize>, i: int, v: usize)
    requires
        0 <= i < g.len(),
    ensures
        sum_seq(g.update(i, v)) == sum_seq(g) - g[i] + v,
    decreases g.len(),
{
    let g2 = g.update(i, v);
    if i == g.len() - 1 {
        assert(g2.drop_last() =~= g.drop_last());
        assert(g2.last() == v);
    } else {
        assert(g2.drop_last() =~= g.drop_last().update(i, v));
        assert(g2.last() == g.last());
        lemma_sum_update(g.drop_last(), i, v);
    }
}

/// One relaxation step keeps the search invariant and the cost bound: the
/// cell `(nxu, nyu)` gets cost `tentative` and predecessor `(cxu, cyu)`.
proof fn lemma_relax(
    n: int,
    obstacles: Seq<bool>,
    fog: Seq<bool>,
    honor_fog: bool,
    sx: int,
    sy: int,
    g_old: Seq<usize>,
    came_old: Seq<Option<(usize, usize)>>,
    cxu: usize,
    cyu: usize,
    nxu: usize,
    nyu: usize,
    tentative: usize,
)
    requires
        search_inv(n, obstacles, fog, honor_fog, sx, sy, g_old, came_old),
        g_bounded(g_old),
        in_bounds(n, sx, sy),
        in_bounds(n, cxu as int, cyu as int),
        in_bounds(n, nxu as int, nyu as int),
        abs_i(nxu - cxu) <= 1,
        abs_i(nyu - cyu) <= 1,
        open_cell(n, obstacles, fog, honor_fog, nxu as int, nyu as int),
        g_old[idx(n, cxu as int, cyu as int)] < usize::MAX,
        tentative == g_old[idx(n, cxu as int, cyu as int)] + 1,
        tentative < g_old[idx(n, nxu as int, nyu as int)],
    ensures
        search_inv(
            n,
            obstacles,
            fog,
            honor_fog,
            sx,
            sy,
            g_old.update(idx(n, nxu as int, nyu as int), tentative),
            came_old.update(idx(n, nxu as int, nyu as int), Option::Some((cxu, cyu))),
        ),
        g_bounded(g_old.update(idx(n, nxu as int, nyu as int), tentative)),
        idx(n, nxu as int, nyu as int) != idx(n, cxu as int, cyu as int),
{
    let nx = nxu as int;
    let ny = nyu as int;
    let cx = cxu as int;
    let cy = cyu as int;
    let tidx = idx(n, nx, ny);
    let cidx = idx(n, cx, cy);
    let sidx = idx(n, sx, sy);
    let g_new = g_old.update(tidx, tentative);
    let came_new = came_old.update(tidx, Option::Some((cxu, cyu)));
    lemma_idx_bounds(n, nx, ny);
    lemma_idx_bounds(n, cx, cy);
    lemma_idx_bounds(n, sx, sy);
    // The relaxed cell is neither the start (cost 0) nor the popped cell.
    assert(tidx != cidx);
    assert(tidx != sidx);
    assert(adj8(cx, cy, nx, ny)) by {
        if cx == nx && cy == ny {
            assert(tidx == cidx);
        }
    }
    assert forall|x: int, y: int|
        in_bounds(n, x, y) && !(x == sx && y == sy) && g_new[idx(n, x, y)]
            < usize::MAX implies (#[trigger] came_new[idx(n, x, y)]) is Some by {
        lemma_idx_bounds(n, x, y);
        if idx(n, x, y) == tidx {
        } else {
            assert(g_old[idx(n, x, y)] < usize::MAX);
            assert(came_old[idx(n, x, y)] is Some);
        }
    }
    assert forall|x: int, y: int|
        in_bounds(n, x, y) && (#[trigger] came_new[idx(n, x, y)]) is Some implies came_entry_ok(
        n,
        obstacles,
        fog,
        honor_fog,
        g_new,
        x,
        y,
        came_new[idx(n, x, y)].unwrap(),
    ) by {
        lemma_idx_bounds(n, x, y);
        if idx(n, x, y) == tidx {
            lemma_idx_injective(n, x, y, nx, ny);
            assert(came_new[tidx].unwrap() == (cxu, cyu));
            assert(g_new[cidx] == g_old[cidx]);
            assert(g_new[tidx] == g_old[cidx] + 1);
        } else {
            assert(came_old[idx(n, x, y)] is Some);
            let u = came_old[idx(n, x, y)].unwrap();
            assert(came_entry_ok(n, obstacles, fog, honor_fog, g_old, x, y, u));
            lemma_idx_bounds(n, u.0 as int, u.1 as int);
            if idx(n, u.0 as int, u.1 as int) == tidx {
                assert(g_new[idx(n, u.0 as int, u.1 as int)] == tentative);
                assert(g_old[idx(n, x, y)] >= g_old[tidx] + 1 >= tentative + 1);
            }
        }
    }
    // The cost bound: the set of finite cells either gains the relaxed cell
    // or stays the same, and every finite cost stays below its size.
    lemma_fin_set_le(g_old);
    if g_old[tidx] == usize::MAX {
        assert(fin_set(g_new) =~= fin_set(g_old).insert(tidx));
        assert(!fin_set(g_old).contains(tidx));
        vstd::set::axiom_set_insert_len(fin_set(g_old), tidx);
        assert(fin_set(g_new).len() == fin_set(g_old).len() + 1);
        assert forall|i: int|
            0 <= i < g_new.len() && (#[trigger] g_new[i]) < usize::MAX implies g_new[i] < fin_set(
            g_new,
        ).len() by {
            if i == tidx {
                assert(g_old[cidx] < fin_set(g_old).len());
            } else {
                assert(g_old[i] == g_new[i]);
            }
        }
    } else {
        assert(fin_set(g_new) =~= fin_set(g_old));
        assert forall|i: int|
            0 <= i < g_new.len() && (#[trigger] g_new[i]) < usize::MAX implies g_new[i] < fin_set(
            g_new,
        ).len() by {
            if i == tidx {
                assert(g_old[tidx] < fin_set(g_old).len());
            } else {
                assert(g_old[i] == g_new[i]);
            }
        }
    }
}

/// A* search from `(sx, sy)` to `(gx, gy)` over the flattened `n` by `n`
/// obstacle mask, 8-connected with unit cost per step. When `honor_fog` is
/// set, fogged cells block as obstacles do. A returned path starts at the
/// start cell, ends at the goal and moves one open cell at a time.
pub fn find_path(
    n: usize,
    sx: usize,
    sy: usize,
    gx: usize,
    gy: usize,
    obstacles: &Vec<bool>,
    fog: &Vec<bool>,
    honor_fog: bool,
) -> (r: Option<Vec<(usize, usize)>>)
    requires
        1 <= n,
        (n as int) * (n as int) + 2 * (n as int) <= usize::MAX,
        obstacles@.len() == (n as int) * (n as int),
        fog@.len() == (n as int) * (n as int),
        sx < n,
        sy < n,
        gx < n,
        gy < n,
    ensures
        r matches Some(p) ==> path_ok(
            p@,
            n as int,
            obstacles@,
            fog@,
            honor_fog,
            sx as int,
            sy as int,
            gx as int,
            gy as int,
        ),
        r is None ==> !reachable_within(
            n as int,
            obstacles@,
            fog@,
            honor_fog,
            sx as int,
            sy as int,
            gx as int,
            gy as int,
        ),
{
    let ghost ni_ = n as int;
    let ghost obs_ = obstacles@;
    let ghost fog_ = fog@;
    let nn: usize = n * n;
    let mut g_score: Vec<usize> = crate::filled(nn, usize::MAX);
    let mut came_from: Vec<Option<(usize, usize)>> = crate::filled(nn, None);
    let mut open_list: Vec<Node> = Vec::new();
    let si = cell_index(n, sx, sy);
    g_score.set(si, 0);
    let h0 = heuristic(sx, sy, gx, gy);
    open_list.push(Node::new(sx, sy, 0, h0));
    proof {
        assert forall|x: int, y: int|
            in_bounds(ni_, x, y) && !(x == sx && y == sy) && g_score@[idx(ni_, x, y)]
                < usize::MAX implies (#[trigger] came_from@[idx(ni_, x, y)]) is Some by {
            lemma_idx_bounds(ni_, x, y);
            if idx(ni_, x, y) == idx(ni_, sx as int, sy as int) {
                lemma_idx_injective(ni_, x, y, sx as int, sy as int);
            }
        }
        assert(fin_set(g_score@) =~= Set::empty().insert(si as int)) by {
            lemma_idx_bounds(ni_, sx as int, sy as int);
        }
        assert(fin_set(g_score@).len() == 1) by {
            vstd::set::axiom_set_insert_len(Set::empty(), si as int);
            assert(Set::<int>::empty().len() == 0);
        }
        assert forall|x: int, y: int|
            in_bounds(ni_, x, y) && (#[trigger] came_from@[idx(ni_, x, y)]) is Some implies came_entry_ok(
            ni_,
            obs_,
            fog_,
            honor_fog,
            g_score@,
            x,
            y,
            came_from@[idx(ni_, x, y)].unwrap(),
        ) by {
            lemma_idx_bounds(ni_, x, y);
            assert(came_from@[idx(ni_, x, y)] is None);
        }
        lemma_idx_bounds(ni_, sx as int, sy as int);
        assert(search_inv(ni_, obs_, fog_, honor_fog, sx as int, sy as int, g_score@, came_from@));
        assert(open_list@[0].x == sx && open_list@[0].y == sy);
        assert(in_open(open_list@, sx as int, sy as int));
        assert forall|x: int, y: int|
            in_bounds(ni_, x, y) && g_score@[idx(ni_, x, y)] < usize::MAX implies #[trigger] cell_settled(
            ni_,
            obs_,
            fog_,
            honor_fog,
            g_score@,
            open_list@,
            x,
            y,
        ) by {
            lemma_idx_bounds(ni_, x, y);
            if idx(ni_, x, y) == si as int {
                lemma_idx_injective(ni_, x, y, sx as int, sy as int);
                assert(in_open(open_list@, x, y));
            }
        }
        lemma_idx_bounds(ni_, gx as int, gy as int);
        if g_score@[idx(ni_, gx as int, gy as int)] < usize::MAX {
            lemma_idx_injective(ni_, gx as int, gy as int, sx as int, sy as int);
            assert(in_open(open_list@, gx as int, gy as int));
        }
    }
    while open_list.len() != 0
        invariant
            1 <= n,
            ni_ == n as int,
            obs_ == obstacles@,
            fog_ == fog@,
            (n as int) * (n as int) + 2 * (n as int) <= usize::MAX,
            nn == (n as int) * (n as int),
            obs_.len() == (n as int) * (n as int),
            fog_.len() == (n as int) * (n as int),
            sx < n,
            sy < n,
            gx < n,
            gy < n,
            search_inv(ni_, obs_, fog_, honor_fog, sx as int, sy as int, g_score@, came_from@),
            open_nodes_ok(ni_, g_score@, open_list@),
            g_bounded(g_score@),
            pending_all(ni_, obs_, fog_, honor_fog, g_score@, open_list@),
            g_score@[idx(ni_, gx as int, gy as int)] < usize::MAX ==> in_open(
                open_list@,
                gx as int,
                gy as int,
            ),
        decreases sum_seq(g_score@), open_list@.len(),
    {
        proof {
            lemma_sum_nonneg(g_score@);
        }
        let mut best: usize = 0;
        let mut k2: usize = 1;
        while k2 < open_list.len()
            invariant
                open_list@.len() >= 1,
                best < k2,
                1 <= k2 <= open_list@.len(),
            decreases open_list@.len() - k2,
        {
            if open_list[k2].priority < open_list[best].priority {
                best = k2;
            }
            k2 += 1;
        }
        let ghost open_before = open_list@;
        let current = open_list.swap_remove(best);
        proof {
            assert(in_bounds(ni_, current.x as int, current.y as int) && g_score@[idx(
                ni_,
                current.x as int,
                current.y as int,
            )] < usize::MAX);
        }
        if current.x == gx && current.y == gy {
            let mut path: Vec<(usize, usize)> = Vec::new();
            let mut cx = current.x;
            let mut cy = current.y;
            loop
                invariant
                    1 <= n,
                    ni_ == n as int,
                    obs_ == obstacles@,
                    fog_ == fog@,
                    (n as int) * (n as int) + 2 * (n as int) <= usize::MAX,
                    sx < n,
                    sy < n,
                    gx < n,
                    gy < n,
                    search_inv(
                        ni_,
                        obs_,
                        fog_,
                        honor_fog,
                        sx as int,
                        sy as int,
                        g_score@,
                        came_from@,
                    ),
                    in_bounds(ni_, cx as int, cy as int),
                    g_score@[idx(ni_, cx as int, cy as int)] < usize::MAX,
                    path@.len() == 0 ==> cx == gx && cy == gy,
                    path@.len() > 0 ==> path@[0].0 == gx && path@[0].1 == gy,
                    forall|i: int|
                        0 <= i < path@.len() ==> open_cell(
                            ni_,
                            obs_,
                            fog_,
                            honor_fog,
                            (#[trigger] path@[i]).0 as int,
                            path@[i].1 as int,
                        ),
                    forall|i: int|
                        1 <= i < path@.len() ==> adj8(
                            (#[trigger] path@[i]).0 as int,
                            path@[i].1 as int,
                            path@[i - 1].0 as int,
                            path@[i - 1].1 as int,
                        ),
                    path@.len() > 0 ==> adj8(
                        cx as int,
                        cy as int,
                        path@[path@.len() - 1].0 as int,
                        path@[path@.len() - 1].1 as int,
                    ),
                ensures
                    in_bounds(ni_, cx as int, cy as int),
                    g_score@[idx(ni_, cx as int, cy as int)] < usize::MAX,
                    came_from@[idx(ni_, cx as int, cy as int)] is None,
                    search_inv(
                        ni_,
                        obs_,
                        fog_,
                        honor_fog,
                        sx as int,
                        sy as int,
                        g_score@,
                        came_from@,
                    ),
                    path@.len() == 0 ==> cx == gx && cy == gy,
                    path@.len() > 0 ==> path@[0].0 == gx && path@[0].1 == gy,
                    forall|i: int|
                        0 <= i < path@.len() ==> open_cell(
                            ni_,
                            obs_,
                            fog_,
                            honor_fog,
                            (#[trigger] path@[i]).0 as int,
                            path@[i].1 as int,
                        ),
                    forall|i: int|
                        1 <= i < path@.len() ==> adj8(
                            (#[trigger] path@[i]).0 as int,
                            path@[i].1 as int,
                            path@[i - 1].0 as int,
                            path@[i - 1].1 as int,
                        ),
                    path@.len() > 0 ==> adj8(
                        cx as int,
                        cy as int,
                        path@[path@.len() - 1].0 as int,
                        path@[path@.len() - 1].1 as int,
                    ),
                decreases g_score@[idx(ni_, cx as int, cy as int)],
            {
                let ci2 = cell_index(n, cx, cy);
                let entry: Option<(usize, usize)> = came_from[ci2];
                match entry {
                    Option::Some(prev) => {
                        proof {
                            assert(came_from@[idx(ni_, cx as int, cy as int)] is Some);
                            assert(came_entry_ok(
                                ni_,
                                obs_,
                                fog_,
                                honor_fog,
                                g_score@,
                                cx as int,
                                cy as int,
                                came_from@[idx(ni_, cx as int, cy as int)].unwrap(),
                            ));
                        }
                        path.push((cx, cy));
                        cx = prev.0;
                        cy = prev.1;
                    },
                    Option::None => {
                        break ;
                    },
                }
            }
            proof {
                if !(cx == sx && cy == sy) {
                    assert(came_from@[idx(ni_, cx as int, cy as int)] is Some);
                }
                assert(cx == sx && cy == sy);
            }
            path.push((sx, sy));
            let mut rev: Vec<(usize, usize)> = Vec::new();
            let mut m: usize = path.len();
            while m > 0
                invariant
                    m <= path@.len(),
                    rev@.len() + m == path@.len(),
                    forall|i: int|
                        0 <= i < rev@.len() ==> (#[trigger] rev@[i]) == path@[path@.len() - 1 - i],
                decreases m,
            {
                m -= 1;
                let c = path[m];
                rev.push(c);
            }
            proof {
                let p = rev@;
                let q = path@;
                let len = q.len();
                assert(p.len() == len);
                assert(p[0] == q[len - 1]);
                assert(q[len - 1] == (sx, sy));
                if len > 1 {
                    assert(p[len - 1] == q[0]);
                }
                assert forall|i: int| 1 <= i < p.len() implies adj8(
                    (#[trigger] p[i]).0 as int,
                    p[i].1 as int,
                    p[i - 1].0 as int,
                    p[i - 1].1 as int,
                ) && open_cell(ni_, obs_, fog_, honor_fog, p[i].0 as int, p[i].1 as int) by {
                    assert(p[i] == q[len - 1 - i]);
                    assert(p[i - 1] == q[len - i]);
                    if len - i < len - 1 {
                        assert(adj8(
                            q[len - i].0 as int,
                            q[len - i].1 as int,
                            q[len - i - 1].0 as int,
                            q[len - i - 1].1 as int,
                        ));
                    }
                }
                assert(path_ok(
                    p,
                    ni_,
                    obs_,
                    fog_,
                    honor_fog,
                    sx as int,
                    sy as int,
                    gx as int,
                    gy as int,
                ));
            }
            return Option::Some(rev);
        }
        let ci = cell_index(n, current.x, current.y);
        let cg = g_score[ci];
        proof {
            assert(cg == g_score@[ci as int]);
            lemma_fin_set_le(g_score@);
            assert forall|x: int, y: int|
                in_bounds(ni_, x, y) && g_score@[idx(ni_, x, y)] < usize::MAX && !(x
                    == current.x as int && y == current.y as int) implies #[trigger] cell_settled(
                ni_,
                obs_,
                fog_,
                honor_fog,
                g_score@,
                open_list@,
                x,
                y,
            ) by {
                assert(cell_settled(ni_, obs_, fog_, honor_fog, g_score@, open_before, x, y));
                if in_open(open_before, x, y) {
                    let j = choose|j: int|
                        0 <= j < open_before.len() && (#[trigger] open_before[j]).x == x
                            && open_before[j].y == y;
                    if j == best as int {
                        assert(open_before[j] == current);
                        assert(false);
                    } else if j == open_before.len() - 1 {
                        assert(open_list@[best as int] == open_before[j]);
                        assert(in_open(open_list@, x, y));
                    } else {
                        assert(open_list@[j] == open_before[j]);
                        assert(in_open(open_list@, x, y));
                    }
                }
            }
            if g_score@[idx(ni_, gx as int, gy as int)] < usize::MAX {
                assert(in_open(open_before, gx as int, gy as int));
                let j = choose|j: int|
                    0 <= j < open_before.len() && (#[trigger] open_before[j]).x == gx as int
                        && open_before[j].y == gy as int;
                if j == best as int {
                    assert(open_before[j] == current);
                    assert(false);
                } else if j == open_before.len() - 1 {
                    assert(open_list@[best as int] == open_before[j]);
                } else {
                    assert(open_list@[j] == open_before[j]);
                }
                assert(in_open(open_list@, gx as int, gy as int));
            }
        }
        let tentative = cg + 1;
        let ghost sum0 = sum_seq(g_score@);
        let ghost open0 = open_list@.len();
        let mut k: usize = 0;
        while k < 8
            invariant
                sum_seq(g_score@) <= sum0,
                open_list@.len() >= open0,
                open_list@.len() > open0 ==> sum_seq(g_score@) < sum0,
                1 <= n,
                ni_ == n as int,
                obs_ == obstacles@,
                fog_ == fog@,
                (n as int) * (n as int) + 2 * (n as int) <= usize::MAX,
                nn == (n as int) * (n as int),
                obs_.len() == (n as int) * (n as int),
                fog_.len() == (n as int) * (n as int),
                sx < n,
                sy < n,
                gx < n,
                gy < n,
                k <= 8,
                in_bounds(ni_, current.x as int, current.y as int),
                ci == idx(ni_, current.x as int, current.y as int),
                g_score@[ci as int] == cg,
                cg < usize::MAX,
                tentative == cg + 1,
                tentative <= (n as int) * (n as int),
                search_inv(ni_, obs_, fog_, honor_fog, sx as int, sy as int, g_score@, came_from@),
                open_nodes_ok(ni_, g_score@, open_list@),
                g_bounded(g_score@),
                pending_except(
                    ni_,
                    obs_,
                    fog_,
                    honor_fog,
                    g_score@,
                    open_list@,
                    (current.x as int, current.y as int),
                ),
                g_score@[idx(ni_, gx as int, gy as int)] < usize::MAX ==> in_open(
                    open_list@,
                    gx as int,
                    gy as int,
                ),
                forall|k2: int|
                    0 <= k2 < k ==> ({
                        let c = #[trigger] clamped_nbr(ni_, current.x as int, current.y as int, k2);
                        open_cell(ni_, obs_, fog_, honor_fog, c.0, c.1) ==> g_score@[idx(
                            ni_,
                            c.0,
                            c.1,
                        )] <= cg + 1
                    }),
            decreases 8 - k,
        {
            let (nx2, ny2) = clamped_neighbor(n, current.x, current.y, k);
            let ni2 = cell_index(n, nx2, ny2);
            if !(obstacles[ni2] || (honor_fog && fog[ni2])) {
                if tentative < g_score[ni2] {
                    let ghost g_old = g_score@;
                    let ghost came_old = came_from@;
                    proof {
                        assert(g_old[ci as int] == cg);
                        lemma_relax(
                            ni_,
                            obs_,
                            fog_,
                            honor_fog,
                            sx as int,
                            sy as int,
                            g_old,
                            came_old,
                            current.x,
                            current.y,
                            nx2,
                            ny2,
                            tentative,
                        );
                    }
                    came_from.set(ni2, Option::Some((current.x, current.y)));
                    proof {
                        lemma_sum_update(g_score@, ni2 as int, tentative);
                    }
                    g_score.set(ni2, tentative);
                    proof {
                        let g_new = g_old.update(ni2 as int, tentative);
                        assert(g_score@ == g_new);
                        assert(ni2 as int != ci as int);
                        assert(tentative < usize::MAX);
                        lemma_idx_bounds(ni_, current.x as int, current.y as int);
                        assert(g_new[ci as int] == cg);
                        assert((n as int) * (n as int) >= 0) by (nonlinear_arith);
                        lemma_fin_set_le(g_score@);
                        assert forall|j: int|
                            0 <= j < open_list@.len() implies in_bounds(
                            ni_,
                            (#[trigger] open_list@[j]).x as int,
                            open_list@[j].y as int,
                        ) && g_score@[idx(ni_, open_list@[j].x as int, open_list@[j].y as int)]
                            < usize::MAX by {
                            assert(in_bounds(ni_, open_list@[j].x as int, open_list@[j].y as int)
                                && g_old[idx(ni_, open_list@[j].x as int, open_list@[j].y as int)]
                                < usize::MAX);
                            lemma_idx_bounds(ni_, open_list@[j].x as int, open_list@[j].y as int);
                            assert(g_new[idx(ni_, open_list@[j].x as int, open_list@[j].y as int)]
                                < usize::MAX);
                        }
                    }
                    let h = heuristic(nx2, ny2, gx, gy);
                    let f = tentative + h;
                    let ghost open_old = open_list@;
                    open_list.push(Node::new(nx2, ny2, tentative, f));
                    proof {
                        let opn = open_list@;
                        assert(opn[opn.len() - 1].x == nx2 && opn[opn.len() - 1].y == ny2);
                        assert(in_open(opn, nx2 as int, ny2 as int));
                        assert forall|x: int, y: int|
                            in_bounds(ni_, x, y) && g_score@[idx(ni_, x, y)] < usize::MAX && !(x
                                == current.x as int && y
                                == current.y as int) implies #[trigger] cell_settled(
                            ni_,
                            obs_,
                            fog_,
                            honor_fog,
                            g_score@,
                            opn,
                            x,
                            y,
                        ) by {
                            lemma_idx_bounds(ni_, x, y);
                            if idx(ni_, x, y) == ni2 as int {
                                lemma_idx_injective(ni_, x, y, nx2 as int, ny2 as int);
                                assert(in_open(opn, x, y));
                            } else {
                                assert(g_old[idx(ni_, x, y)] == g_score@[idx(ni_, x, y)]);
                                assert(cell_settled(
                                    ni_,
                                    obs_,
                                    fog_,
                                    honor_fog,
                                    g_old,
                                    open_old,
                                    x,
                                    y,
                                ));
                                if in_open(open_old, x, y) {
                                    let j = choose|j: int|
                                        0 <= j < open_old.len() && (#[trigger] open_old[j]).x == x
                                            && open_old[j].y == y;
                                    assert(opn[j] == open_old[j]);
                                    assert(in_open(opn, x, y));
                                } else {
                                    assert(relaxed_at(ni_, obs_, fog_, honor_fog, g_old, x, y));
                                    assert forall|k3: int| 0 <= k3 < 8 implies ({
                                        let c = #[trigger] clamped_nbr(ni_, x, y, k3);
                                        open_cell(ni_, obs_, fog_, honor_fog, c.0, c.1)
                                            ==> g_score@[idx(ni_, c.0, c.1)] <= g_score@[idx(
                                            ni_,
                                            x,
                                            y,
                                        )] + 1
                                    }) by {
                                        let c = clamped_nbr(ni_, x, y, k3);
                                        if open_cell(ni_, obs_, fog_, honor_fog, c.0, c.1) {
                                            assert(g_old[idx(ni_, c.0, c.1)] <= g_old[idx(
                                                ni_,
                                                x,
                                                y,
                                            )] + 1);
                                            lemma_idx_bounds(ni_, c.0, c.1);
                                        }
                                    }
                                    assert(relaxed_at(ni_, obs_, fog_, honor_fog, g_score@, x, y));
                                }
                            }
                        }
                        if g_score@[idx(ni_, gx as int, gy as int)] < usize::MAX {
                            lemma_idx_bounds(ni_, gx as int, gy as int);
                            if g_old[idx(ni_, gx as int, gy as int)] < usize::MAX {
                                assert(in_open(open_old, gx as int, gy as int));
                                let j = choose|j: int|
                                    0 <= j < open_old.len() && (#[trigger] open_old[j]).x
                                        == gx as int && open_old[j].y == gy as int;
                                assert(opn[j] == open_old[j]);
                            } else {
                                assert(idx(ni_, gx as int, gy as int) == ni2 as int);
                                lemma_idx_injective(ni_, gx as int, gy as int, nx2 as int, ny2 as int);
                                assert(opn[opn.len() - 1].x == gx as int);
                            }
                            assert(in_open(opn, gx as int, gy as int));
                        }
                        assert forall|k2: int| 0 <= k2 < k + 1 implies ({
                            let c = #[trigger] clamped_nbr(
                                ni_,
                                current.x as int,
                                current.y as int,
                                k2,
                            );
                            open_cell(ni_, obs_, fog_, honor_fog, c.0, c.1) ==> g_score@[idx(
                                ni_,
                                c.0,
                                c.1,
                            )] <= cg + 1
                        }) by {
                            let c = clamped_nbr(ni_, current.x as int, current.y as int, k2);
                            if open_cell(ni_, obs_, fog_, honor_fog, c.0, c.1) {
                                lemma_idx_bounds(ni_, c.0, c.1);
                                if k2 < k {
                                    assert(g_old[idx(ni_, c.0, c.1)] <= cg + 1);
                                    assert(g_old.update(ni2 as int, tentative)[idx(
                                        ni_,
                                        c.0,
                                        c.1,
                                    )] <= cg + 1);
                                } else {
                                    assert(c == (nx2 as int, ny2 as int));
                                    assert(g_score@[idx(ni_, c.0, c.1)] == tentative);
                                }
                            }
                        }
                    }
                } else {
                    proof {
                        assert forall|k2: int| 0 <= k2 < k + 1 implies ({
                            let c = #[trigger] clamped_nbr(
                                ni_,
                                current.x as int,
                                current.y as int,
                                k2,
                            );
                            open_cell(ni_, obs_, fog_, honor_fog, c.0, c.1) ==> g_score@[idx(
                                ni_,
                                c.0,
                                c.1,
                            )] <= cg + 1
                        }) by {
                            let c = clamped_nbr(ni_, current.x as int, current.y as int, k2);
                            if open_cell(ni_, obs_, fog_, honor_fog, c.0, c.1) && k2 == k {
                                assert(c == (nx2 as int, ny2 as int));
                                assert(g_score@[idx(ni_, c.0, c.1)] <= tentative);
                            }
                        }
                    }
                }
            } else {
                proof {
                    assert forall|k2: int| 0 <= k2 < k + 1 implies ({
                        let c = #[trigger] clamped_nbr(
                            ni_,
                            current.x as int,
                            current.y as int,
                            k2,
                        );
                        open_cell(ni_, obs_, fog_, honor_fog, c.0, c.1) ==> g_score@[idx(
                            ni_,
                            c.0,
                            c.1,
                        )] <= cg + 1
                    }) by {
                        let c = clamped_nbr(ni_, current.x as int, current.y as int, k2);
                        if open_cell(ni_, obs_, fog_, honor_fog, c.0, c.1) && k2 == k {
                            assert(c == (nx2 as int, ny2 as int));
                            assert(false);
                        }
                    }
                }
            }
            k += 1;
        }
        proof {
            lemma_sum_nonneg(g_score@);
            assert(relaxed_at(
                ni_,
                obs_,
                fog_,
                honor_fog,
                g_score@,
                current.x as int,
                current.y as int,
            )) by {
                assert forall|k3: int| 0 <= k3 < 8 implies ({
                    let c = #[trigger] clamped_nbr(ni_, current.x as int, current.y as int, k3);
                    open_cell(ni_, obs_, fog_, honor_fog, c.0, c.1) ==> g_score@[idx(
                        ni_,
                        c.0,
                        c.1,
                    )] <= g_score@[idx(ni_, current.x as int, current.y as int)] + 1
                }) by {
                }
            }
            assert forall|x: int, y: int|
                in_bounds(ni_, x, y) && g_score@[idx(ni_, x, y)]
                    < usize::MAX implies #[trigger] cell_settled(
                ni_,
                obs_,
                fog_,
                honor_fog,
                g_score@,
                open_list@,
                x,
                y,
            ) by {
                if !(x == current.x as int && y == current.y as int) {
                    assert(cell_settled(ni_, obs_, fog_, honor_fog, g_score@, open_list@, x, y));
                }
            }
        }
    }
    proof {
        assert forall|x: int, y: int|
            in_bounds(ni_, x, y) && g_score@[idx(ni_, x, y)] < usize::MAX implies #[trigger] relaxed_at(
            ni_,
            obs_,
            fog_,
            honor_fog,
            g_score@,
            x,
            y,
        ) by {
            assert(cell_settled(ni_, obs_, fog_, honor_fog, g_score@, open_list@, x, y));
            if in_open(open_list@, x, y) {
                let j = choose|j: int|
                    0 <= j < open_list@.len() && (#[trigger] open_list@[j]).x == x
                        && open_list@[j].y == y;
                assert(false);
            }
        }
        lemma_idx_bounds(ni_, gx as int, gy as int);
        assert(g_score@[idx(ni_, gx as int, gy as int)] == usize::MAX) by {
            if g_score@[idx(ni_, gx as int, gy as int)] < usize::MAX {
                assert(in_open(open_list@, gx as int, gy as int));
                let j = choose|j: int|
                    0 <= j < open_list@.len() && (#[trigger] open_list@[j]).x == gx as int
                        && open_list@[j].y == gy as int;
                assert(false);
            }
        }
        lemma_idx_bounds(ni_, sx as int, sy as int);
        assert forall|p: Seq<(usize, usize)>|
            !(#[trigger] path_ok(
                p,
                ni_,
                obs_,
                fog_,
                honor_fog,
                sx as int,
                sy as int,
                gx as int,
                gy as int,
            ) && p.len() <= (n as int) * (n as int)) by {
            if path_ok(p, ni_, obs_, fog_, honor_fog, sx as int, sy as int, gx as int, gy as int)
                && p.len() <= (n as int) * (n as int) {
                lemma_path_prefix_bound(
                    ni_,
                    obs_,
                    fog_,
                    honor_fog,
                    sx as int,
                    sy as int,
                    gx as int,
                    gy as int,
                    g_score@,
                    p,
                    p.len() - 1,
                );
                assert(p[p.len() - 1].0 == gx && p[p.len() - 1].1 == gy);
                assert(false);
            }
        }
        assert(!reachable_within(
            ni_,
            obs_,
            fog_,
            honor_fog,
            sx as int,
            sy as int,
            gx as int,
            gy as int,
        ));
    }
    Option::None
}

} // verus!
