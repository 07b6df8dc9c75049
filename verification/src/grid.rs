//! The grid: per-cell boolean layers for obstacles, the two resource kinds,
//! exploration and fog of war, the station cell, and the record of resource
//! positions taken at generation time.

use vstd::prelude::*;
use vstd::pervasive::VecAdditionalExecFns;
use crate::pathfinder::abs_i;
use crate::pathfinder::idx;
use crate::pathfinder::in_bounds;
use crate::pathfinder::lemma_idx_bounds;
use crate::rng::rand_below;

verus! {

/// How many entries of a boolean layer are set.
pub open spec fn count_true(s: Seq<bool>) -> int
    decreases s.len(),
{
    if s.len() == 0 {
        0
    } else {
        count_true(s.drop_last()) + if s.last() {
            1int
        } else {
            0int
        }
    }
}

pub proof fn lemma_count_true_le_len(s: Seq<bool>)
    ensures
        0 <= count_true(s) <= s.len(),
    decreases s.len(),
{
    if s.len() > 0 {
        lemma_count_true_le_len(s.drop_last());
    }
}

/// A layer's count is zero exactly when no entry is set: the two ways the
/// protocol asks whether the grid is exhausted agree.
pub proof fn lemma_count_true_zero_iff_none(s: Seq<bool>)
    ensures
        count_true(s) == 0 <==> (forall|i: int| 0 <= i < s.len() ==> !s[i]),
    decreases s.len(),
{
    if s.len() > 0 {
        lemma_count_true_zero_iff_none(s.drop_last());
        lemma_count_true_le_len(s.drop_last());
        assert(forall|i: int| 0 <= i < s.len() - 1 ==> s[i] == s.drop_last()[i]);
        if count_true(s) == 0 {
            assert(!s.last());
            assert forall|i: int| 0 <= i < s.len() implies !s[i] by {
                if i < s.len() - 1 {
                    assert(!s.drop_last()[i]);
                }
            }
        }
    }
}

fn count_true_vec(v: &Vec<bool>) -> (c: usize)
    ensures
        c == count_true(v@),
{
    let mut c: usize = 0;
    let mut i: usize = 0;
    while i < v.len()
        invariant
            i <= v@.len(),
            c <= i,
            c == count_true(v@.take(i as int)),
        decreases v@.len() - i,
    {
        proof {
            assert(v@.take(i + 1).drop_last() =~= v@.take(i as int));
            assert(v@.take(i + 1).last() == v@[i as int]);
        }
        if v[i] {
            c = c + 1;
        }
        i = i + 1;
    }
    proof {
        assert(v@.take(v@.len() as int) =~= v@);
    }
    c
}

/// The grid's cell state. Layers are flattened row-major: cell `(x, y)` is
/// entry `y * n + x`. A cell may hold energy and minerals at once: the two
/// layers are generated independently and this permissive choice is kept.
pub struct Grid {
    pub n: usize,
    pub energy: Vec<bool>,
    pub minerals: Vec<bool>,
    pub obstacles: Vec<bool>,
    pub explored: Vec<bool>,
    pub fog_of_war: Vec<bool>,
    pub station_x: usize,
    pub station_y: usize,
    pub resources: Vec<(usize, usize)>,
}

impl Grid {
    /// Cell count, as a spec integer.
    pub open spec fn nn(self) -> int {
        (self.n as int) * (self.n as int)
    }

    /// The side is positive, the layers all have one entry per cell, and the
    /// machine can index and count them without overflow.
    pub open spec fn dims_ok(self) -> bool {
        &&& 1 <= self.n
        &&& 2 * self.nn() + 2 * (self.n as int) <= usize::MAX
        &&& self.energy@.len() == self.nn()
        &&& self.minerals@.len() == self.nn()
        &&& self.obstacles@.len() == self.nn()
        &&& self.explored@.len() == self.nn()
        &&& self.fog_of_war@.len() == self.nn()
    }

    /// The station is a cell of the grid, free of obstacles and resources,
    /// and never fogged.
    pub open spec fn station_ok(self) -> bool {
        &&& self.station_x < self.n
        &&& self.station_y < self.n
        &&& !self.obstacles@[idx(self.n as int, self.station_x as int, self.station_y as int)]
        &&& !self.energy@[idx(self.n as int, self.station_x as int, self.station_y as int)]
        &&& !self.minerals@[idx(self.n as int, self.station_x as int, self.station_y as int)]
        &&& !self.fog_of_war@[idx(self.n as int, self.station_x as int, self.station_y as int)]
    }

    /// No cell holds energy or minerals any more.
    pub open spec fn no_resources(self) -> bool {
        forall|i: int| 0 <= i < self.nn() ==> !(#[trigger] self.energy@[i]) && !self.minerals@[i]
    }

    /// An explored cell is never fogged.
    pub open spec fn explored_unfogged(self) -> bool {
        forall|i: int| 0 <= i < self.nn() && (#[trigger] self.explored@[i]) ==> !self.fog_of_war@[i]
    }

    pub open spec fn wf(self) -> bool {
        &&& self.dims_ok()
        &&& self.station_ok()
        &&& self.explored_unfogged()
    }

    /// A fresh grid: nothing placed, everything fogged, the station still at
    /// the origin until a free cell is drawn for it.
    pub fn empty(n: usize) -> (g: Grid)
        requires
            1 <= n,
            2 * ((n as int) * (n as int)) + 2 * (n as int) <= usize::MAX,
        ensures
            g.n == n,
            g.dims_ok(),
            g.station_x == 0 && g.station_y == 0,
            forall|i: int| 0 <= i < g.nn() ==> !(#[trigger] g.energy@[i]),
            forall|i: int| 0 <= i < g.nn() ==> !(#[trigger] g.minerals@[i]),
            forall|i: int| 0 <= i < g.nn() ==> !(#[trigger] g.obstacles@[i]),
            forall|i: int| 0 <= i < g.nn() ==> !(#[trigger] g.explored@[i]),
            forall|i: int| 0 <= i < g.nn() ==> (#[trigger] g.fog_of_war@[i]),
            g.resources@ =~= Seq::<(usize, usize)>::empty(),
    {
        proof {
            assert(0 <= (n as int) * (n as int)) by (nonlinear_arith)
                requires
                    1 <= n,
            ;
        }
        let nn: usize = n * n;
        Grid {
            n,
            energy: crate::filled(nn, false),
            minerals: crate::filled(nn, false),
            obstacles: crate::filled(nn, false),
            explored: crate::filled(nn, false),
            fog_of_war: crate::filled(nn, true),
            station_x: 0,
            station_y: 0,
            resources: Vec::new(),
        }
    }

    /// Empty the cell `(x, y)` of both resource layers at once and report
    /// what was there. A single collection clears the cell entirely, even
    /// when both layers were set.
    pub fn consume(&mut self, x: usize, y: usize) -> (r: (bool, bool))
        requires
            old(self).dims_ok(),
            x < old(self).n,
            y < old(self).n,
        ensures
            r.0 == old(self).energy@[idx(old(self).n as int, x as int, y as int)],
            r.1 == old(self).minerals@[idx(old(self).n as int, x as int, y as int)],
            final(self).energy@ == old(self).energy@.update(
                idx(old(self).n as int, x as int, y as int),
                false,
            ),
            final(self).minerals@ == old(self).minerals@.update(
                idx(old(self).n as int, x as int, y as int),
                false,
            ),
            final(self).n == old(self).n,
            final(self).obstacles == old(self).obstacles,
            final(self).explored == old(self).explored,
            final(self).fog_of_war == old(self).fog_of_war,
            final(self).station_x == old(self).station_x,
            final(self).station_y == old(self).station_y,
            final(self).resources == old(self).resources,
    {
        let ci = crate::pathfinder::cell_index(self.n, x, y);
        let was_energy = self.energy[ci];
        let was_minerals = self.minerals[ci];
        self.energy.set(ci, false);
        self.minerals.set(ci, false);
        (was_energy, was_minerals)
    }

    /// Total number of set entries across both resource layers.
    pub fn count_consumables(&self) -> (c: usize)
        requires
            self.dims_ok(),
        ensures
            c == count_true(self.energy@) + count_true(self.minerals@),
    {
        proof {
            lemma_count_true_le_len(self.energy@);
            lemma_count_true_le_len(self.minerals@);
        }
        let a = count_true_vec(&self.energy);
        let b = count_true_vec(&self.minerals);
        a + b
    }

    /// True exactly when no cell holds energy or minerals.
    pub fn is_map_empty(&self) -> (r: bool)
        requires
            self.dims_ok(),
        ensures
            r <==> self.no_resources(),
    {
        let mut i: usize = 0;
        let nn: usize = self.n * self.n;
        while i < nn
            invariant
                self.dims_ok(),
                nn == self.nn(),
                i <= nn,
                forall|j: int| 0 <= j < i ==> !(#[trigger] self.energy@[j]) && !self.minerals@[j],
            decreases nn - i,
        {
            if self.energy[i] || self.minerals[i] {
                return false;
            }
            proof {
                assert(!self.energy@[i as int] && !self.minerals@[i as int]);
                assert forall|j: int|
                    0 <= j < i + 1 implies !(#[trigger] self.energy@[j]) && !self.minerals@[j] by {
                    if j < i {
                        assert(!self.energy@[j] && !self.minerals@[j]);
                    } else {
                        assert(j == i);
                    }
                }
            }
            i = i + 1;
        }
        true
    }
}

/// The one fog transition: after revealing around `(x, y)`, a cell is fogged
/// exactly when it was fogged before and is not in the 3-by-3 block around
/// `(x, y)`. Fog never comes back.
pub open spec fn revealed_from(old_fog: Seq<bool>, new_fog: Seq<bool>, n: int, x: int, y: int) -> bool {
    &&& new_fog.len() == old_fog.len()
    &&& forall|cx: int, cy: int|
        in_bounds(n, cx, cy) ==> new_fog[#[trigger] idx(n, cx, cy)] == (old_fog[idx(n, cx, cy)]
            && !(abs_i(cx - x) <= 1 && abs_i(cy - y) <= 1))
}

/// Revealing only clears fog: no cell that was clear becomes fogged.
pub proof fn lemma_reveal_monotone(old_fog: Seq<bool>, new_fog: Seq<bool>, n: int, x: int, y: int)
    requires
        1 <= n,
        old_fog.len() == n * n,
        revealed_from(old_fog, new_fog, n, x, y),
    ensures
        forall|i: int| 0 <= i < old_fog.len() && (#[trigger] new_fog[i]) ==> old_fog[i],
{
    assert forall|i: int| 0 <= i < old_fog.len() && (#[trigger] new_fog[i]) implies old_fog[i] by {
        crate::pathfinder::lemma_idx_surjective(n, i);
        assert(new_fog[idx(n, i % n, i / n)] == (old_fog[idx(n, i % n, i / n)] && !(abs_i(
            i % n - x,
        ) <= 1 && abs_i(i / n - y) <= 1)));
    }
}

/// Revealing the same cell twice changes nothing the second time.
pub proof fn lemma_reveal_idempotent(
    f0: Seq<bool>,
    f1: Seq<bool>,
    f2: Seq<bool>,
    n: int,
    x: int,
    y: int,
)
    requires
        1 <= n,
        f0.len() == n * n,
        revealed_from(f0, f1, n, x, y),
        revealed_from(f1, f2, n, x, y),
    ensures
        f2 =~= f1,
{
    assert forall|i: int| 0 <= i < f1.len() implies f2[i] == f1[i] by {
        crate::pathfinder::lemma_idx_surjective(n, i);
        let cx = i % n;
        let cy = i / n;
        assert(f1[idx(n, cx, cy)] == (f0[idx(n, cx, cy)] && !(abs_i(cx - x) <= 1 && abs_i(cy - y)
            <= 1)));
        assert(f2[idx(n, cx, cy)] == (f1[idx(n, cx, cy)] && !(abs_i(cx - x) <= 1 && abs_i(cy - y)
            <= 1)));
    }
}

/// The resource positions recorded while placing the first `k` cells, in the
/// order the generation scan visits them.
pub open spec fn resource_seq(e: Seq<bool>, m: Seq<bool>, n: int, k: int) -> Seq<(usize, usize)>
    decreases k,
{
    if k <= 0 {
        Seq::empty()
    } else {
        resource_seq(e, m, n, k - 1) + if e[k - 1] || m[k - 1] {
            seq![(((k - 1) % n) as usize, ((k - 1) / n) as usize)]
        } else {
            Seq::empty()
        }
    }
}

/// The two ways the protocol asks whether the grid is exhausted agree: the
/// consumable count is zero exactly when no cell holds any resource.
pub proof fn lemma_count_agrees_with_empty(g: Grid)
    requires
        g.dims_ok(),
    ensures
        (count_true(g.energy@) + count_true(g.minerals@) == 0) <==> g.no_resources(),
{
    lemma_count_true_le_len(g.energy@);
    lemma_count_true_le_len(g.minerals@);
    lemma_count_true_zero_iff_none(g.energy@);
    lemma_count_true_zero_iff_none(g.minerals@);
    if count_true(g.energy@) + count_true(g.minerals@) == 0 {
        assert(count_true(g.energy@) == 0 && count_true(g.minerals@) == 0);
        assert forall|i: int|
            0 <= i < g.nn() implies !(#[trigger] g.energy@[i]) && !g.minerals@[i] by {
            assert(!g.energy@[i]);
            assert(!g.minerals@[i]);
        }
    }
    if g.no_resources() {
        assert forall|i: int| 0 <= i < g.energy@.len() implies !(#[trigger] g.energy@[i]) by {
            assert(!g.energy@[i] && !g.minerals@[i]);
        }
        assert forall|i: int| 0 <= i < g.minerals@.len() implies !(#[trigger] g.minerals@[i]) by {
            assert(!g.energy@[i] && !g.minerals@[i]);
        }
    }
}

/// A cell stands in the recorded resource positions of the first `k` cells
/// exactly when it is one of those cells and fired in either field.
pub proof fn lemma_resource_seq_contains(
    e: Seq<bool>,
    m: Seq<bool>,
    n: int,
    k: int,
    x: usize,
    y: usize,
)
    requires
        1 <= n,
        n <= usize::MAX,
        0 <= k <= n * n,
    ensures
        resource_seq(e, m, n, k).contains((x, y)) <==> (in_bounds(n, x as int, y as int) && idx(
            n,
            x as int,
            y as int,
        ) < k && (e[idx(n, x as int, y as int)] || m[idx(n, x as int, y as int)])),
    decreases k,
{
    if k > 0 {
        lemma_resource_seq_contains(e, m, n, k - 1, x, y);
        crate::pathfinder::lemma_idx_surjective(n, k - 1);
        let prev = resource_seq(e, m, n, k - 1);
        let cur = resource_seq(e, m, n, k);
        let cx = ((k - 1) % n) as usize;
        let cy = ((k - 1) / n) as usize;
        if e[k - 1] || m[k - 1] {
            assert(cur == prev + seq![(cx, cy)]);
            assert forall|p: (usize, usize)| #[trigger]
                cur.contains(p) implies prev.contains(p) || p == (cx, cy) by {
                let j = choose|j: int| 0 <= j < cur.len() && cur[j] == p;
                if j < prev.len() {
                    assert(prev[j] == p);
                } else {
                    assert(cur[j] == (cx, cy));
                }
            }
            assert(cur.contains((cx, cy))) by {
                assert(cur[cur.len() - 1] == (cx, cy));
            }
            if prev.contains((x, y)) {
                assert(cur.contains((x, y))) by {
                    let j = choose|j: int| 0 <= j < prev.len() && prev[j] == (x, y);
                    assert(cur[j] == (x, y));
                }
            }
            if (x, y) == (cx, cy) {
                assert(idx(n, x as int, y as int) == k - 1) by {
                    assert(x as int == (k - 1) % n && y as int == (k - 1) / n);
                }
            }
            if in_bounds(n, x as int, y as int) && idx(n, x as int, y as int) == k - 1 {
                crate::pathfinder::lemma_idx_injective(
                    n,
                    x as int,
                    y as int,
                    (k - 1) % n,
                    (k - 1) / n,
                );
                assert((x, y) == (cx, cy));
            }
        } else {
            assert(cur == prev + Seq::<(usize, usize)>::empty());
            assert(cur =~= prev);
            if in_bounds(n, x as int, y as int) && idx(n, x as int, y as int) == k - 1 {
                crate::pathfinder::lemma_idx_injective(
                    n,
                    x as int,
                    y as int,
                    (k - 1) % n,
                    (k - 1) / n,
                );
            }
        }
    } else {
        if resource_seq(e, m, n, k).contains((x, y)) {
            let j = choose|j: int|
                0 <= j < resource_seq(e, m, n, k).len() && resource_seq(e, m, n, k)[j] == (x, y);
        }
    }
}

/// Whether the recorded resource list holds the cell `(x, y)`.
fn contains_cell(v: &Vec<(usize, usize)>, x: usize, y: usize) -> (r: bool)
    ensures
        r == v@.contains((x, y)),
{
    let mut i: usize = 0;
    while i < v.len()
        invariant
            i <= v@.len(),
            forall|j: int| 0 <= j < i ==> (#[trigger] v@[j]) != (x, y),
        decreases v@.len() - i,
    {
        let p = v[i];
        if p.0 == x && p.1 == y {
            proof {
                assert(v@[i as int] == (x, y));
            }
            return true;
        }
        i = i + 1;
    }
    proof {
        if v@.contains((x, y)) {
            let j = choose|j: int| 0 <= j < v@.len() && v@[j] == (x, y);
            assert(v@[j] != (x, y));
        }
    }
    false
}

/// How often the station search may draw before initialization fails.
pub const MAX_STATION_ATTEMPTS: usize = 100;

impl Grid {
    /// Clear fog in the 3-by-3 block around `(x, y)`, clamped to the grid.
    /// Side effect only, and idempotent.
    pub fn reveal_around(&mut self, x: usize, y: usize)
        requires
            old(self).dims_ok(),
            x < old(self).n,
            y < old(self).n,
        ensures
            final(self).n == old(self).n,
            final(self).energy == old(self).energy,
            final(self).minerals == old(self).minerals,
            final(self).obstacles == old(self).obstacles,
            final(self).explored == old(self).explored,
            final(self).station_x == old(self).station_x,
            final(self).station_y == old(self).station_y,
            final(self).resources == old(self).resources,
            revealed_from(
                old(self).fog_of_war@,
                final(self).fog_of_war@,
                old(self).n as int,
                x as int,
                y as int,
            ),
    {
        let ghost f0 = self.fog_of_war@;
        let ghost ni_ = self.n as int;
        let n = self.n;
        let x0: usize = if x == 0 {
            0
        } else {
            x - 1
        };
        let x1: usize = if x + 1 <= n - 1 {
            x + 1
        } else {
            n - 1
        };
        let y0: usize = if y == 0 {
            0
        } else {
            y - 1
        };
        let y1: usize = if y + 1 <= n - 1 {
            y + 1
        } else {
            n - 1
        };
        let mut yy = y0;
        while yy <= y1
            invariant
                old(self).dims_ok(),
                self.n == old(self).n,
                n == self.n,
                ni_ == n as int,
                x < n,
                y < n,
                x0 == if x == 0 { 0int } else { x - 1 },
                x1 == if x + 1 <= n - 1 { x + 1 } else { (n - 1) as int },
                y0 == if y == 0 { 0int } else { y - 1 },
                y1 == if y + 1 <= n - 1 { y + 1 } else { (n - 1) as int },
                y0 <= yy <= y1 + 1,
                y1 < n,
                x1 < n,
                self.energy == old(self).energy,
                self.minerals == old(self).minerals,
                self.obstacles == old(self).obstacles,
                self.explored == old(self).explored,
                self.station_x == old(self).station_x,
                self.station_y == old(self).station_y,
                self.resources == old(self).resources,
                f0 == old(self).fog_of_war@,
                self.fog_of_war@.len() == f0.len(),
                f0.len() == (n as int) * (n as int),
                forall|cx: int, cy: int|
                    in_bounds(ni_, cx, cy) ==> self.fog_of_war@[#[trigger] idx(ni_, cx, cy)] == (
                    f0[idx(ni_, cx, cy)] && !(x0 <= cx <= x1 && y0 <= cy < yy)),
            decreases y1 + 1 - yy,
        {
            let mut xx = x0;
            while xx <= x1
                invariant
                    old(self).dims_ok(),
                    self.n == old(self).n,
                    n == self.n,
                    ni_ == n as int,
                    x < n,
                    y < n,
                    x0 == if x == 0 { 0int } else { x - 1 },
                    x1 == if x + 1 <= n - 1 { x + 1 } else { (n - 1) as int },
                    y0 == if y == 0 { 0int } else { y - 1 },
                    y1 == if y + 1 <= n - 1 { y + 1 } else { (n - 1) as int },
                    y0 <= yy <= y1,
                    x0 <= xx <= x1 + 1,
                    y1 < n,
                    x1 < n,
                    self.energy == old(self).energy,
                    self.minerals == old(self).minerals,
                    self.obstacles == old(self).obstacles,
                    self.explored == old(self).explored,
                    self.station_x == old(self).station_x,
                    self.station_y == old(self).station_y,
                    self.resources == old(self).resources,
                    f0 == old(self).fog_of_war@,
                    self.fog_of_war@.len() == f0.len(),
                    f0.len() == (n as int) * (n as int),
                    forall|cx: int, cy: int|
                        in_bounds(ni_, cx, cy) ==> self.fog_of_war@[#[trigger] idx(ni_, cx, cy)]
                            == (f0[idx(ni_, cx, cy)] && !((x0 <= cx <= x1 && y0 <= cy < yy) || (cy
                            == yy && x0 <= cx < xx))),
                decreases x1 + 1 - xx,
            {
                let ghost fprev = self.fog_of_war@;
                let ci = crate::pathfinder::cell_index(n, xx, yy);
                self.fog_of_war.set(ci, false);
                proof {
                    let fnew = fprev.update(ci as int, false);
                    assert(self.fog_of_war@ == fnew);
                    lemma_idx_bounds(ni_, xx as int, yy as int);
                    assert forall|cx: int, cy: int|
                        in_bounds(ni_, cx, cy) implies self.fog_of_war@[#[trigger] idx(
                        ni_,
                        cx,
                        cy,
                    )] == (f0[idx(ni_, cx, cy)] && !((x0 <= cx <= x1 && y0 <= cy < yy) || (cy == yy
                        && x0 <= cx < xx + 1))) by {
                        lemma_idx_bounds(ni_, cx, cy);
                        if idx(ni_, cx, cy) == ci as int {
                            crate::pathfinder::lemma_idx_injective(
                                ni_,
                                cx,
                                cy,
                                xx as int,
                                yy as int,
                            );
                            assert(fnew[ci as int] == false);
                        } else {
                            assert(fnew[idx(ni_, cx, cy)] == fprev[idx(ni_, cx, cy)]);
                        }
                    }
                }
                xx = xx + 1;
            }
            yy = yy + 1;
        }
        proof {
            assert forall|cx: int, cy: int|
                in_bounds(ni_, cx, cy) implies self.fog_of_war@[#[trigger] idx(ni_, cx, cy)] == (
            f0[idx(ni_, cx, cy)] && !(abs_i(cx - x) <= 1 && abs_i(cy - y) <= 1)) by {
                assert((x0 <= cx <= x1) == (abs_i(cx - x) <= 1 && 0 <= cx < ni_));
                assert((y0 <= cy <= y1) == (abs_i(cy - y) <= 1 && 0 <= cy < ni_));
            }
        }
    }

    /// Copy the two thresholded sample fields into the resource layers and
    /// record, in scan order, every cell where either fired.
    pub fn place_resources(&mut self, energy_field: &Vec<bool>, minerals_field: &Vec<bool>)
        requires
            old(self).dims_ok(),
            energy_field@.len() == old(self).nn(),
            minerals_field@.len() == old(self).nn(),
        ensures
            final(self).n == old(self).n,
            final(self).obstacles == old(self).obstacles,
            final(self).explored == old(self).explored,
            final(self).fog_of_war == old(self).fog_of_war,
            final(self).station_x == old(self).station_x,
            final(self).station_y == old(self).station_y,
            final(self).energy@ =~= energy_field@,
            final(self).minerals@ =~= minerals_field@,
            final(self).resources@ == old(self).resources@ + resource_seq(
                energy_field@,
                minerals_field@,
                old(self).n as int,
                old(self).nn(),
            ),
    {
        let ghost ni_ = self.n as int;
        let ghost res0 = self.resources@;
        let n = self.n;
        let nn: usize = n * n;
        let mut i: usize = 0;
        while i < nn
            invariant
                old(self).dims_ok(),
                self.n == old(self).n,
                n == self.n,
                ni_ == n as int,
                nn == (n as int) * (n as int),
                i <= nn,
                energy_field@.len() == nn,
                minerals_field@.len() == nn,
                self.energy@.len() == nn,
                self.minerals@.len() == nn,
                self.obstacles == old(self).obstacles,
                self.explored == old(self).explored,
                self.fog_of_war == old(self).fog_of_war,
                self.station_x == old(self).station_x,
                self.station_y == old(self).station_y,
                res0 == old(self).resources@,
                forall|j: int| 0 <= j < i ==> (#[trigger] self.energy@[j]) == energy_field@[j],
                forall|j: int| 0 <= j < i ==> (#[trigger] self.minerals@[j]) == minerals_field@[j],
                self.resources@ == res0 + resource_seq(energy_field@, minerals_field@, ni_, i as int),
            decreases nn - i,
        {
            let x = i % n;
            let y = i / n;
            let e = energy_field[i];
            let m = minerals_field[i];
            let ghost eprev = self.energy@;
            let ghost mprev = self.minerals@;
            let ghost rprev = self.resources@;
            self.energy.set(i, e);
            self.minerals.set(i, m);
            if e || m {
                self.resources.push((x, y));
            }
            proof {
                assert(self.energy@ == eprev.update(i as int, e));
                assert(self.minerals@ == mprev.update(i as int, m));
                crate::pathfinder::lemma_idx_surjective(ni_, i as int);
                assert(resource_seq(energy_field@, minerals_field@, ni_, i + 1)
                    == resource_seq(energy_field@, minerals_field@, ni_, i as int) + if energy_field@[i as int] || minerals_field@[i as int] {
                    seq![(((i as int) % ni_) as usize, ((i as int) / ni_) as usize)]
                } else {
                    Seq::<(usize, usize)>::empty()
                });
                if e || m {
                    assert(self.resources@ == rprev.push((x, y)));
                    assert(rprev.push((x, y)) =~= rprev + seq![(x, y)]);
                } else {
                    assert(resource_seq(energy_field@, minerals_field@, ni_, i + 1) =~= resource_seq(
                        energy_field@,
                        minerals_field@,
                        ni_,
                        i as int,
                    ));
                }
            }
            i = i + 1;
        }
    }

    /// Fill the obstacle layer from the thresholded sample field, skipping
    /// every cell already recorded as a resource position.
    pub fn place_obstacles(&mut self, obstacle_field: &Vec<bool>)
        requires
            old(self).dims_ok(),
            obstacle_field@.len() == old(self).nn(),
        ensures
            final(self).n == old(self).n,
            final(self).energy == old(self).energy,
            final(self).minerals == old(self).minerals,
            final(self).explored == old(self).explored,
            final(self).fog_of_war == old(self).fog_of_war,
            final(self).station_x == old(self).station_x,
            final(self).station_y == old(self).station_y,
            final(self).resources == old(self).resources,
            final(self).obstacles@.len() == old(self).nn(),
            forall|cx: int, cy: int|
                in_bounds(old(self).n as int, cx, cy) ==> final(self).obstacles@[#[trigger] idx(
                    old(self).n as int,
                    cx,
                    cy,
                )] == (if old(self).resources@.contains((cx as usize, cy as usize)) {
                    old(self).obstacles@[idx(old(self).n as int, cx, cy)]
                } else {
                    obstacle_field@[idx(old(self).n as int, cx, cy)]
                }),
    {
        let ghost ni_ = self.n as int;
        let ghost obs0 = self.obstacles@;
        let n = self.n;
        let nn: usize = n * n;
        let mut i: usize = 0;
        while i < nn
            invariant
                old(self).dims_ok(),
                self.n == old(self).n,
                n == self.n,
                ni_ == n as int,
                nn == (n as int) * (n as int),
                i <= nn,
                obstacle_field@.len() == nn,
                self.obstacles@.len() == nn,
                self.energy == old(self).energy,
                self.minerals == old(self).minerals,
                self.explored == old(self).explored,
                self.fog_of_war == old(self).fog_of_war,
                self.station_x == old(self).station_x,
                self.station_y == old(self).station_y,
                self.resources == old(self).resources,
                obs0 == old(self).obstacles@,
                forall|j: int|
                    0 <= j < i ==> (#[trigger] self.obstacles@[j]) == (if old(
                        self,
                    ).resources@.contains(((j % ni_) as usize, (j / ni_) as usize)) {
                        obs0[j]
                    } else {
                        obstacle_field@[j]
                    }),
                forall|j: int| i <= j < nn ==> (#[trigger] self.obstacles@[j]) == obs0[j],
            decreases nn - i,
        {
            let x = i % n;
            let y = i / n;
            let skip = contains_cell(&self.resources, x, y);
            let ghost oprev = self.obstacles@;
            if !skip {
                let o = obstacle_field[i];
                self.obstacles.set(i, o);
            }
            proof {
                crate::pathfinder::lemma_idx_surjective(ni_, i as int);
                assert((x as int) == (i as int) % ni_ && (y as int) == (i as int) / ni_);
                if !skip {
                    assert(self.obstacles@ == oprev.update(i as int, obstacle_field@[i as int]));
                }
            }
            i = i + 1;
        }
        proof {
            assert forall|cx: int, cy: int|
                in_bounds(ni_, cx, cy) implies self.obstacles@[#[trigger] idx(ni_, cx, cy)] == (
            if old(self).resources@.contains((cx as usize, cy as usize)) {
                obs0[idx(ni_, cx, cy)]
            } else {
                obstacle_field@[idx(ni_, cx, cy)]
            }) by {
                lemma_idx_bounds(ni_, cx, cy);
                crate::pathfinder::lemma_idx_decompose(ni_, cx, cy);
            }
        }
    }

    /// Draw random cells until one is free of obstacles and resources, up to
    /// a fixed number of attempts. A returned cell is always such a free
    /// cell; exhaustion of the attempts yields `None`.
    pub fn init_robot_position(&self, rng: &mut rand::rngs::StdRng) -> (r: Option<(usize, usize)>)
        requires
            self.dims_ok(),
        ensures
            r matches Some(p) ==> {
                &&& p.0 < self.n
                &&& p.1 < self.n
                &&& !self.obstacles@[idx(self.n as int, p.0 as int, p.1 as int)]
                &&& !self.energy@[idx(self.n as int, p.0 as int, p.1 as int)]
                &&& !self.minerals@[idx(self.n as int, p.0 as int, p.1 as int)]
            },
            (exists|cx: int, cy: int|
                in_bounds(self.n as int, cx, cy) && !self.obstacles@[#[trigger] idx(
                    self.n as int,
                    cx,
                    cy,
                )] && !self.energy@[idx(self.n as int, cx, cy)] && !self.minerals@[idx(
                    self.n as int,
                    cx,
                    cy,
                )]) || r is None,
    {
        let mut attempts: usize = 0;
        while attempts < MAX_STATION_ATTEMPTS
            invariant
                self.dims_ok(),
            decreases MAX_STATION_ATTEMPTS - attempts,
        {
            let x = rand_below(rng, self.n);
            let y = rand_below(rng, self.n);
            let ci = crate::pathfinder::cell_index(self.n, x, y);
            if !self.obstacles[ci] && !self.energy[ci] && !self.minerals[ci] {
                return Some((x, y));
            }
            attempts = attempts + 1;
        }
        None
    }
}

} // verus!
