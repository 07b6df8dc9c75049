//! The two robots. The explorer roams unexplored cells, reveals fog and
//! remembers the first resource it steps on; the extractor travels to a
//! reported resource and carries it home. Both path with the shared search:
//! the extractor honors fog both ways, while the explorer's trip home
//! ignores it, since the way back is already known.

use vstd::prelude::*;
use vstd::pervasive::VecAdditionalExecFns;
use crate::grid::Grid;
use crate::grid::revealed_from;
use crate::pathfinder::adj8;
use crate::pathfinder::clamped_nbr;
use crate::pathfinder::find_path;
use crate::pathfinder::idx;
use crate::pathfinder::in_bounds;
use crate::pathfinder::lemma_idx_bounds;
use crate::pathfinder::open_cell;
use crate::pathfinder::path_ok;
use crate::pathfinder::reachable_within;
use crate::rng::rand_below;

verus! {

pub struct RobotExplorer {
    pub x: usize,
    pub y: usize,
    pub station_x: usize,
    pub station_y: usize,
    pub founded_resource: bool,
    pub resource_position: Option<(usize, usize)>,
    pub waiting: bool,
}

pub struct RobotExtractor {
    pub x: usize,
    pub y: usize,
    pub station_x: usize,
    pub station_y: usize,
    pub carrying_resource: bool,
    pub target_position: Option<(usize, usize)>,
    pub waiting: bool,
}

/// One legal movement step on the grid: to an adjacent open cell, where fog
/// counts as blocking only when `honor_fog` is set.
pub open spec fn step_to(g: Grid, fx: int, fy: int, tx: int, ty: int, honor_fog: bool) -> bool {
    &&& adj8(fx, fy, tx, ty)
    &&& open_cell(g.n as int, g.obstacles@, g.fog_of_war@, honor_fog, tx, ty)
}

/// Direction `k` out of `(ex, ey)` leads to an acceptable roaming move:
/// not the station, not an obstacle, and, for the first pass, unexplored.
pub open spec fn dir_ok(
    g: Grid,
    ex: int,
    ey: int,
    sx: int,
    sy: int,
    unexplored: bool,
    k: int,
) -> bool {
    let c = clamped_nbr(g.n as int, ex, ey, k);
    &&& !(c.0 == sx && c.1 == sy)
    &&& !g.obstacles@[idx(g.n as int, c.0, c.1)]
    &&& (unexplored ==> !g.explored@[idx(g.n as int, c.0, c.1)])
}

/// Some direction qualifies.
pub open spec fn any_dir_ok(g: Grid, ex: int, ey: int, sx: int, sy: int, unexplored: bool) -> bool {
    exists|k: int| 0 <= k < 8 && #[trigger] dir_ok(g, ex, ey, sx, sy, unexplored, k)
}

/// `(nx, ny)` is one of the qualifying moves.
pub open spec fn moved_to(
    g: Grid,
    ex: int,
    ey: int,
    sx: int,
    sy: int,
    unexplored: bool,
    nx: int,
    ny: int,
) -> bool {
    exists|k: int|
        0 <= k < 8 && #[trigger] dir_ok(g, ex, ey, sx, sy, unexplored, k) && clamped_nbr(
            g.n as int,
            ex,
            ey,
            k,
        ) == (nx, ny)
}

/// Everything one roaming move does, relating the explorer and grid before
/// and after. Unexplored neighbors are preferred; with none, any open
/// neighbor but the station serves; with no candidate at all, nothing moves.
/// The moved-to cell is marked explored, fog is cleared around it, and a
/// resource found there is remembered but not consumed.
pub open spec fn move_random_rel(
    e: RobotExplorer,
    e2: RobotExplorer,
    g: Grid,
    g2: Grid,
) -> bool {
    let ni = g.n as int;
    let sx = e.station_x as int;
    let sy = e.station_y as int;
    &&& g2.n == g.n
    &&& g2.obstacles == g.obstacles
    &&& g2.energy == g.energy
    &&& g2.minerals == g.minerals
    &&& g2.station_x == g.station_x
    &&& g2.station_y == g.station_y
    &&& g2.resources == g.resources
    &&& e2.station_x == e.station_x
    &&& e2.station_y == e.station_y
    &&& e2.waiting == e.waiting
    &&& if !any_dir_ok(g, e.x as int, e.y as int, sx, sy, false) {
        &&& e2 == e
        &&& g2 == g
    } else {
        let found = g.energy@[idx(ni, e2.x as int, e2.y as int)] || g.minerals@[idx(
            ni,
            e2.x as int,
            e2.y as int,
        )];
        &&& (if any_dir_ok(g, e.x as int, e.y as int, sx, sy, true) {
            moved_to(g, e.x as int, e.y as int, sx, sy, true, e2.x as int, e2.y as int)
        } else {
            moved_to(g, e.x as int, e.y as int, sx, sy, false, e2.x as int, e2.y as int)
        })
        &&& e2.x < g.n
        &&& e2.y < g.n
        &&& g2.explored@ == g.explored@.update(idx(ni, e2.x as int, e2.y as int), true)
        &&& revealed_from(g.fog_of_war@, g2.fog_of_war@, ni, e2.x as int, e2.y as int)
        &&& e2.founded_resource == (e.founded_resource || found)
        &&& e2.resource_position == (if found {
            Some((e2.x, e2.y))
        } else {
            e.resource_position
        })
    }
}

impl RobotExtractor {
    /// A new extractor at the station, waiting there until the first
    /// hand-off gives it a target.
    pub fn new(station_x: usize, station_y: usize) -> (r: RobotExtractor)
        ensures
            r.x == station_x,
            r.y == station_y,
            r.station_x == station_x,
            r.station_y == station_y,
            !r.carrying_resource,
            r.target_position is None,
            r.waiting,
    {
        RobotExtractor {
            x: station_x,
            y: station_y,
            station_x,
            station_y,
            carrying_resource: false,
            target_position: None,
            waiting: true,
        }
    }

    /// Path from the extractor's cell to `(target_x, target_y)`, honoring
    /// fog: the extractor keeps to jointly known territory.
    pub fn move_towards(
        &self,
        target_x: usize,
        target_y: usize,
        n: usize,
        obstacles: &Vec<bool>,
        fog_of_war: &Vec<bool>,
    ) -> (r: Option<Vec<(usize, usize)>>)
        requires
            1 <= n,
            (n as int) * (n as int) + 2 * (n as int) <= usize::MAX,
            obstacles@.len() == (n as int) * (n as int),
            fog_of_war@.len() == (n as int) * (n as int),
            self.x < n,
            self.y < n,
            target_x < n,
            target_y < n,
        ensures
            r matches Some(p) ==> path_ok(
                p@,
                n as int,
                obstacles@,
                fog_of_war@,
                true,
                self.x as int,
                self.y as int,
                target_x as int,
                target_y as int,
            ),
            r is None ==> !reachable_within(
                n as int,
                obstacles@,
                fog_of_war@,
                true,
                self.x as int,
                self.y as int,
                target_x as int,
                target_y as int,
            ),
    {
        find_path(n, self.x, self.y, target_x, target_y, obstacles, fog_of_war, true)
    }

    /// Mark the resource at the extractor's cell as picked up.
    pub fn collect_resource(&mut self)
        ensures
            *final(self) == (RobotExtractor { carrying_resource: true, ..*old(self) }),
    {
        self.carrying_resource = true;
    }
}

impl RobotExplorer {
    /// A new explorer at the station, active from the first tick.
    pub fn new(station_x: usize, station_y: usize) -> (r: RobotExplorer)
        ensures
            r.x == station_x,
            r.y == station_y,
            r.station_x == station_x,
            r.station_y == station_y,
            !r.founded_resource,
            r.resource_position is None,
            !r.waiting,
    {
        RobotExplorer {
            x: station_x,
            y: station_y,
            station_x,
            station_y,
            founded_resource: false,
            resource_position: None,
            waiting: false,
        }
    }

    /// Path from the explorer's cell back to the station, ignoring fog: the
    /// way home is already known.
    pub fn return_to_station(&self, n: usize, obstacles: &Vec<bool>, fog_of_war: &Vec<bool>) -> (r:
        Option<Vec<(usize, usize)>>)
        requires
            1 <= n,
            (n as int) * (n as int) + 2 * (n as int) <= usize::MAX,
            obstacles@.len() == (n as int) * (n as int),
            fog_of_war@.len() == (n as int) * (n as int),
            self.x < n,
            self.y < n,
            self.station_x < n,
            self.station_y < n,
        ensures
            r matches Some(p) ==> path_ok(
                p@,
                n as int,
                obstacles@,
                fog_of_war@,
                false,
                self.x as int,
                self.y as int,
                self.station_x as int,
                self.station_y as int,
            ),
            r is None ==> !reachable_within(
                n as int,
                obstacles@,
                fog_of_war@,
                false,
                self.x as int,
                self.y as int,
                self.station_x as int,
                self.station_y as int,
            ),
    {
        find_path(n, self.x, self.y, self.station_x, self.station_y, obstacles, fog_of_war, false)
    }

    /// One roaming move, drawn uniformly among the qualifying neighbors.
    pub fn move_random(&mut self, rng: &mut rand::rngs::StdRng, grid: &mut Grid)
        requires
            old(grid).wf(),
            old(self).x < old(grid).n,
            old(self).y < old(grid).n,
        ensures
            move_random_rel(*old(self), *final(self), *old(grid), *final(grid)),
            final(grid).wf(),
    {
        let ghost e0 = *self;
        let ghost g0 = *grid;
        let ghost ni = grid.n as int;
        let n = grid.n;
        let sx = self.station_x;
        let sy = self.station_y;
        let mut possible_moves: Vec<(usize, usize)> = Vec::new();
        let mut k: usize = 0;
        while k < 8
            invariant
                g0 == *grid,
                e0 == *self,
                ni == n as int,
                n == grid.n,
                grid.wf(),
                self.x < n,
                self.y < n,
                sx == self.station_x,
                sy == self.station_y,
                k <= 8,
                forall|j: int|
                    0 <= j < possible_moves@.len() ==> moved_to(
                        g0,
                        e0.x as int,
                        e0.y as int,
                        sx as int,
                        sy as int,
                        true,
                        (#[trigger] possible_moves@[j]).0 as int,
                        possible_moves@[j].1 as int,
                    ) && possible_moves@[j].0 < n && possible_moves@[j].1 < n,
                forall|k2: int|
                    0 <= k2 < k && #[trigger] dir_ok(
                        g0,
                        e0.x as int,
                        e0.y as int,
                        sx as int,
                        sy as int,
                        true,
                        k2,
                    ) ==> possible_moves@.len() > 0,
            decreases 8 - k,
        {
            let c = crate::pathfinder::clamped_neighbor(n, self.x, self.y, k);
            let ci = crate::pathfinder::cell_index(n, c.0, c.1);
            if !(c.0 == sx && c.1 == sy) && !grid.obstacles[ci] && !grid.explored[ci] {
                proof {
                    assert(dir_ok(g0, e0.x as int, e0.y as int, sx as int, sy as int, true, k as int));
                }
                possible_moves.push(c);
            } else {
                proof {
                    assert(!dir_ok(
                        g0,
                        e0.x as int,
                        e0.y as int,
                        sx as int,
                        sy as int,
                        true,
                        k as int,
                    ));
                }
            }
            k = k + 1;
        }
        proof {
            if possible_moves@.len() == 0 {
                assert(!any_dir_ok(g0, e0.x as int, e0.y as int, sx as int, sy as int, true));
            }
        }
        let first_pass_empty = possible_moves.len() == 0;
        if first_pass_empty {
            let mut k: usize = 0;
            while k < 8
                invariant
                    g0 == *grid,
                    e0 == *self,
                    ni == n as int,
                    n == grid.n,
                    grid.wf(),
                    self.x < n,
                    self.y < n,
                    sx == self.station_x,
                    sy == self.station_y,
                    k <= 8,
                    !any_dir_ok(g0, e0.x as int, e0.y as int, sx as int, sy as int, true),
                    forall|j: int|
                        0 <= j < possible_moves@.len() ==> moved_to(
                            g0,
                            e0.x as int,
                            e0.y as int,
                            sx as int,
                            sy as int,
                            false,
                            (#[trigger] possible_moves@[j]).0 as int,
                            possible_moves@[j].1 as int,
                        ) && possible_moves@[j].0 < n && possible_moves@[j].1 < n,
                    forall|k2: int|
                        0 <= k2 < k && #[trigger] dir_ok(
                            g0,
                            e0.x as int,
                            e0.y as int,
                            sx as int,
                            sy as int,
                            false,
                            k2,
                        ) ==> possible_moves@.len() > 0,
                decreases 8 - k,
            {
                let c = crate::pathfinder::clamped_neighbor(n, self.x, self.y, k);
                let ci = crate::pathfinder::cell_index(n, c.0, c.1);
                if !(c.0 == sx && c.1 == sy) && !grid.obstacles[ci] {
                    proof {
                        assert(dir_ok(
                            g0,
                            e0.x as int,
                            e0.y as int,
                            sx as int,
                            sy as int,
                            false,
                            k as int,
                        ));
                    }
                    possible_moves.push(c);
                } else {
                    proof {
                        assert(!dir_ok(
                            g0,
                            e0.x as int,
                            e0.y as int,
                            sx as int,
                            sy as int,
                            false,
                            k as int,
                        ));
                    }
                }
                k = k + 1;
            }
        }
        if possible_moves.len() == 0 {
            proof {
                assert(!any_dir_ok(g0, e0.x as int, e0.y as int, sx as int, sy as int, false));
            }
            return ;
        }
        proof {
            if !any_dir_ok(g0, e0.x as int, e0.y as int, sx as int, sy as int, false) {
                assert(forall|k2: int|
                    0 <= k2 < 8 ==> !#[trigger] dir_ok(
                        g0,
                        e0.x as int,
                        e0.y as int,
                        sx as int,
                        sy as int,
                        false,
                        k2,
                    ));
                if !first_pass_empty {
                    assert(possible_moves@.len() > 0);
                    assert(moved_to(
                        g0,
                        e0.x as int,
                        e0.y as int,
                        sx as int,
                        sy as int,
                        true,
                        possible_moves@[0].0 as int,
                        possible_moves@[0].1 as int,
                    ));
                    let k0 = choose|k0: int|
                        0 <= k0 < 8 && dir_ok(
                            g0,
                            e0.x as int,
                            e0.y as int,
                            sx as int,
                            sy as int,
                            true,
                            k0,
                        );
                    assert(dir_ok(g0, e0.x as int, e0.y as int, sx as int, sy as int, false, k0));
                }
            }
        }
        let pick = rand_below(rng, possible_moves.len());
        let chosen = possible_moves[pick];
        let nx = chosen.0;
        let ny = chosen.1;
        self.x = nx;
        self.y = ny;
        let ci = crate::pathfinder::cell_index(n, nx, ny);
        let ghost explored0 = grid.explored@;
        grid.explored.set(ci, true);
        grid.reveal_around(nx, ny);
        let found_energy = grid.energy[ci];
        let found_minerals = grid.minerals[ci];
        if found_energy {
            self.founded_resource = true;
            self.resource_position = Some((nx, ny));
        } else if found_minerals {
            self.founded_resource = true;
            self.resource_position = Some((nx, ny));
        }
        proof {
            lemma_idx_bounds(ni, nx as int, ny as int);
            crate::grid::lemma_reveal_monotone(
                g0.fog_of_war@,
                grid.fog_of_war@,
                ni,
                nx as int,
                ny as int,
            );
            assert(grid.explored@ == explored0.update(ci as int, true));
            assert(!grid.fog_of_war@[idx(ni, nx as int, ny as int)]);
            assert forall|i: int|
                0 <= i < grid.nn() && (#[trigger] grid.explored@[i]) implies !grid.fog_of_war@[i] by {
                if i != ci as int {
                    assert(g0.explored@[i]);
                    assert(!g0.fog_of_war@[i]);
                }
            }
            assert(!grid.fog_of_war@[idx(ni, grid.station_x as int, grid.station_y as int)]) by {
                lemma_idx_bounds(ni, grid.station_x as int, grid.station_y as int);
            }
            assert(grid.wf());
        }
    }
}

} // verus!
