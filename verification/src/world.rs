//! The world: the grid, the two robots, the shared random generator and the
//! terminal flag, advanced one tick at a time. Each tick runs the extractor
//! phase and then the explorer phase; the hand-off protocol passes control
//! between the robots through their `waiting` flags, of which exactly one is
//! set at any time.

use vstd::prelude::*;
use crate::grid::lemma_count_agrees_with_empty;
use crate::grid::lemma_resource_seq_contains;
use crate::grid::resource_seq;
use crate::grid::Grid;
use crate::pathfinder::adj8;
use crate::pathfinder::idx;
use crate::pathfinder::open_cell;
use crate::pathfinder::in_bounds;
use crate::pathfinder::lemma_idx_bounds;
use crate::pathfinder::path_ok;
use crate::pathfinder::reachable_within;
use crate::robots::any_dir_ok;
use crate::robots::move_random_rel;
use crate::robots::step_to;
use crate::robots::RobotExplorer;
use crate::robots::RobotExtractor;
use crate::rng::seed_rng;

verus! {

/// Why initialization can fail: no free station cell was found within the
/// allowed number of random draws.
#[derive(Clone, Copy, Debug, PartialEq, Eq, Structural)]
pub enum InitError {
    NoValidStationPosition,
}

/// What a cell shows, one kind per cell, in this order of precedence: fog
/// occludes everything, then the station, obstacles, the two resource kinds,
/// and the two robots.
#[derive(Clone, Copy, Debug, PartialEq, Eq, Structural)]
pub enum CellKind {
    Fog,
    Station,
    Obstacle,
    Energy,
    Minerals,
    ExplorerAt,
    ExtractorAt,
    Plain,
}

pub struct World {
    pub grid: Grid,
    pub robot_explorer: RobotExplorer,
    pub robot_extractor: RobotExtractor,
    pub rng: rand::rngs::StdRng,
    pub game_over: bool,
}

/// The parts of the grid no tick may change.
pub open spec fn grid_statics_unchanged(a: Grid, b: Grid) -> bool {
    &&& b.n == a.n
    &&& b.obstacles == a.obstacles
    &&& b.station_x == a.station_x
    &&& b.station_y == a.station_y
    &&& b.resources == a.resources
}

/// Everything the extractor phase of one tick may do, relating the world
/// before and after. A waiting extractor does nothing. One carrying a
/// resource steps toward the station, honoring fog, and on arrival drops it,
/// starts waiting and wakes the explorer. One with a target steps toward it,
/// honoring fog, and on arrival empties the cell and picks the resource up.
/// One with neither waits implicitly.
pub open spec fn extractor_phase_rel(pre: World, post: World) -> bool {
    let x = pre.robot_extractor;
    let x2 = post.robot_extractor;
    let g = pre.grid;
    let g2 = post.grid;
    let ni = g.n as int;
    &&& post.game_over == pre.game_over
    &&& post.rng == pre.rng
    &&& grid_statics_unchanged(g, g2)
    &&& g2.explored == g.explored
    &&& g2.fog_of_war == g.fog_of_war
    &&& x2.station_x == x.station_x
    &&& x2.station_y == x.station_y
    &&& if x.waiting {
        post == pre
    } else if x.carrying_resource {
        &&& g2.energy == g.energy
        &&& g2.minerals == g.minerals
        &&& x2.target_position == x.target_position
        &&& ({
            ||| (x2.x == x.x && x2.y == x.y && x2.carrying_resource == x.carrying_resource
                && x2.waiting == x.waiting && post.robot_explorer == pre.robot_explorer && ((x.x
                == x.station_x && x.y == x.station_y) || !reachable_within(
                ni,
                g.obstacles@,
                g.fog_of_war@,
                true,
                x.x as int,
                x.y as int,
                x.station_x as int,
                x.station_y as int,
            )))
            ||| ({
                &&& step_to(g, x.x as int, x.y as int, x2.x as int, x2.y as int, true)
                &&& if x2.x == x.station_x && x2.y == x.station_y {
                    &&& !x2.carrying_resource
                    &&& x2.waiting
                    &&& post.robot_explorer == (RobotExplorer {
                        waiting: false,
                        ..pre.robot_explorer
                    })
                } else {
                    &&& x2.carrying_resource == x.carrying_resource
                    &&& x2.waiting == x.waiting
                    &&& post.robot_explorer == pre.robot_explorer
                }
            })
        })
    } else if x.target_position is Some {
        let t = x.target_position.unwrap();
        &&& post.robot_explorer == pre.robot_explorer
        &&& x2.waiting == x.waiting
        &&& x2.target_position == x.target_position
        &&& ({
            ||| (x2.x == x.x && x2.y == x.y && x2.carrying_resource == x.carrying_resource
                && g2.energy == g.energy && g2.minerals == g.minerals && ((x.x == t.0 && x.y
                == t.1) || !reachable_within(
                ni,
                g.obstacles@,
                g.fog_of_war@,
                true,
                x.x as int,
                x.y as int,
                t.0 as int,
                t.1 as int,
            )))
            ||| ({
                &&& step_to(g, x.x as int, x.y as int, x2.x as int, x2.y as int, true)
                &&& if x2.x == t.0 && x2.y == t.1 {
                    &&& x2.carrying_resource
                    &&& g2.energy@ == g.energy@.update(idx(ni, t.0 as int, t.1 as int), false)
                    &&& g2.minerals@ == g.minerals@.update(idx(ni, t.0 as int, t.1 as int), false)
                } else {
                    &&& x2.carrying_resource == x.carrying_resource
                    &&& g2.energy == g.energy
                    &&& g2.minerals == g.minerals
                }
            })
        })
    } else {
        post == pre
    }
}

/// Everything the explorer phase of one tick may do. A waiting explorer does
/// nothing. With the grid exhausted it steps home ignoring fog, and standing
/// at the station it ends the game. With a found resource it hands the
/// position over at the station — waking the extractor and starting to wait
/// — or steps home, ignoring fog. Otherwise it makes one roaming move.
pub open spec fn explorer_phase_rel(pre: World, post: World) -> bool {
    let e = pre.robot_explorer;
    let e2 = post.robot_explorer;
    let g = pre.grid;
    let g2 = post.grid;
    &&& grid_statics_unchanged(g, g2)
    &&& g2.energy == g.energy
    &&& g2.minerals == g.minerals
    &&& e2.station_x == e.station_x
    &&& e2.station_y == e.station_y
    &&& if e.waiting {
        post == pre
    } else if g.no_resources() {
        &&& g2.explored == g.explored
        &&& g2.fog_of_war == g.fog_of_war
        &&& post.rng == pre.rng
        &&& post.robot_extractor == pre.robot_extractor
        &&& e2.founded_resource == e.founded_resource
        &&& e2.resource_position == e.resource_position
        &&& e2.waiting == e.waiting
        &&& ((e2.x == e.x && e2.y == e.y && ((e.x == e.station_x && e.y == e.station_y)
            || !reachable_within(
            g.n as int,
            g.obstacles@,
            g.fog_of_war@,
            false,
            e.x as int,
            e.y as int,
            e.station_x as int,
            e.station_y as int,
        ))) || step_to(g, e.x as int, e.y as int, e2.x as int, e2.y as int, false))
        &&& post.game_over == (pre.game_over || (e2.x == e.station_x && e2.y == e.station_y))
    } else if e.founded_resource {
        &&& post.game_over == pre.game_over
        &&& post.rng == pre.rng
        &&& g2.explored == g.explored
        &&& g2.fog_of_war == g.fog_of_war
        &&& if e.x == e.station_x && e.y == e.station_y {
            &&& e2 == (RobotExplorer {
                founded_resource: false,
                resource_position: None,
                waiting: true,
                ..e
            })
            &&& post.robot_extractor == (RobotExtractor {
                target_position: e.resource_position,
                waiting: false,
                ..pre.robot_extractor
            })
        } else {
            &&& post.robot_extractor == pre.robot_extractor
            &&& e2.founded_resource == e.founded_resource
            &&& e2.resource_position == e.resource_position
            &&& e2.waiting == e.waiting
            &&& ((e2.x == e.x && e2.y == e.y && !reachable_within(
                g.n as int,
                g.obstacles@,
                g.fog_of_war@,
                false,
                e.x as int,
                e.y as int,
                e.station_x as int,
                e.station_y as int,
            )) || step_to(g, e.x as int, e.y as int, e2.x as int, e2.y as int, false))
        }
    } else {
        &&& post.game_over == pre.game_over
        &&& post.robot_extractor == pre.robot_extractor
        &&& move_random_rel(e, e2, g, g2)
    }
}

impl World {
    /// The positions and cross-references that every tick preserves: the
    /// robots stand on the grid, share the station with it, any remembered
    /// positions are on the grid, a found resource is always accompanied by
    /// its position, and exactly one robot waits.
    pub open spec fn wf(self) -> bool {
        &&& self.grid.wf()
        &&& self.robot_explorer.x < self.grid.n
        &&& self.robot_explorer.y < self.grid.n
        &&& self.robot_extractor.x < self.grid.n
        &&& self.robot_extractor.y < self.grid.n
        &&& self.robot_explorer.station_x == self.grid.station_x
        &&& self.robot_explorer.station_y == self.grid.station_y
        &&& self.robot_extractor.station_x == self.grid.station_x
        &&& self.robot_extractor.station_y == self.grid.station_y
        &&& self.robot_explorer.waiting != self.robot_extractor.waiting
        &&& (self.robot_explorer.founded_resource ==> self.robot_explorer.resource_position
            is Some)
        &&& (self.robot_explorer.resource_position matches Some(p) ==> p.0 < self.grid.n && p.1
            < self.grid.n)
        &&& (self.robot_extractor.target_position matches Some(p) ==> p.0 < self.grid.n && p.1
            < self.grid.n)
    }

    /// Place resources and then obstacles into the grid from the three
    /// thresholded sample fields, in that order: a cell recorded as a
    /// resource position never receives an obstacle.
    pub fn spawn_elements(
        grid: &mut Grid,
        energy_field: &Vec<bool>,
        minerals_field: &Vec<bool>,
        obstacle_field: &Vec<bool>,
    )
        requires
            old(grid).dims_ok(),
            energy_field@.len() == old(grid).nn(),
            minerals_field@.len() == old(grid).nn(),
            obstacle_field@.len() == old(grid).nn(),
        ensures
            final(grid).dims_ok(),
            final(grid).n == old(grid).n,
            final(grid).explored == old(grid).explored,
            final(grid).fog_of_war == old(grid).fog_of_war,
            final(grid).station_x == old(grid).station_x,
            final(grid).station_y == old(grid).station_y,
            final(grid).energy@ =~= energy_field@,
            final(grid).minerals@ =~= minerals_field@,
            final(grid).resources@ == old(grid).resources@ + resource_seq(
                energy_field@,
                minerals_field@,
                old(grid).n as int,
                old(grid).nn(),
            ),
            forall|cx: int, cy: int|
                in_bounds(old(grid).n as int, cx, cy) ==> final(grid).obstacles@[#[trigger] idx(
                    old(grid).n as int,
                    cx,
                    cy,
                )] == (if final(grid).resources@.contains((cx as usize, cy as usize)) {
                    old(grid).obstacles@[idx(old(grid).n as int, cx, cy)]
                } else {
                    obstacle_field@[idx(old(grid).n as int, cx, cy)]
                }),
    {
        grid.place_resources(energy_field, minerals_field);
        grid.place_obstacles(obstacle_field);
    }

    /// Build a world: copy the sample fields in, record the resource
    /// positions, place obstacles everywhere else the obstacle field fired,
    /// then draw random cells for the station until a free one comes up.
    /// Both robots start at the station, the explorer active and the
    /// extractor waiting, and only the station cell starts revealed. When
    /// every cell is taken by an obstacle or a resource, no free station
    /// cell exists and initialization fails rather than leaving the robots
    /// unplaced; with the attempt count bounded, an unlucky run of draws can
    /// fail too.
    pub fn new(
        n: usize,
        energy_field: &Vec<bool>,
        minerals_field: &Vec<bool>,
        obstacle_field: &Vec<bool>,
        seed: u64,
    ) -> (r: Result<World, InitError>)
        requires
            1 <= n,
            2 * ((n as int) * (n as int)) + 2 * (n as int) <= usize::MAX,
            energy_field@.len() == (n as int) * (n as int),
            minerals_field@.len() == (n as int) * (n as int),
            obstacle_field@.len() == (n as int) * (n as int),
        ensures
            r matches Ok(w) ==> {
                &&& w.wf()
                &&& w.grid.n == n
                &&& !w.game_over
                &&& w.grid.energy@ =~= energy_field@
                &&& w.grid.minerals@ =~= minerals_field@
                &&& w.grid.resources@ == resource_seq(
                    energy_field@,
                    minerals_field@,
                    n as int,
                    (n as int) * (n as int),
                )
                &&& forall|cx: int, cy: int|
                    in_bounds(n as int, cx, cy) ==> w.grid.obstacles@[#[trigger] idx(
                        n as int,
                        cx,
                        cy,
                    )] == (obstacle_field@[idx(n as int, cx, cy)] && !w.grid.resources@.contains(
                        (cx as usize, cy as usize),
                    ))
                &&& forall|i: int| 0 <= i < w.grid.nn() ==> !(#[trigger] w.grid.explored@[i])
                &&& forall|i: int|
                    0 <= i < w.grid.nn() ==> (#[trigger] w.grid.fog_of_war@[i]) == (i != idx(
                        n as int,
                        w.grid.station_x as int,
                        w.grid.station_y as int,
                    ))
                &&& w.robot_explorer.x == w.grid.station_x
                &&& w.robot_explorer.y == w.grid.station_y
                &&& w.robot_extractor.x == w.grid.station_x
                &&& w.robot_extractor.y == w.grid.station_y
                &&& !w.robot_explorer.founded_resource
                &&& w.robot_explorer.resource_position is None
                &&& !w.robot_explorer.waiting
                &&& !w.robot_extractor.carrying_resource
                &&& w.robot_extractor.target_position is None
                &&& w.robot_extractor.waiting
            },
            (forall|i: int|
                0 <= i < (n as int) * (n as int) ==> (#[trigger] energy_field@[i])
                    || minerals_field@[i] || obstacle_field@[i]) ==> r is Err,
            r matches Err(e) ==> e == InitError::NoValidStationPosition,
    {
        let ghost ni = n as int;
        let mut grid = Grid::empty(n);
        World::spawn_elements(&mut grid, energy_field, minerals_field, obstacle_field);
        proof {
            assert(grid.resources@ =~= resource_seq(energy_field@, minerals_field@, ni, grid.nn()));
        }
        let mut rng = seed_rng(seed);
        let station = grid.init_robot_position(&mut rng);
        match station {
            Some((sx, sy)) => {
                let ci = crate::pathfinder::cell_index(n, sx, sy);
                grid.station_x = sx;
                grid.station_y = sy;
                grid.fog_of_war.set(ci, false);
                let explorer = RobotExplorer::new(sx, sy);
                let extractor = RobotExtractor::new(sx, sy);
                proof {
                    lemma_idx_bounds(ni, sx as int, sy as int);
                    assert(!(forall|i: int|
                        0 <= i < ni * ni ==> (#[trigger] energy_field@[i]) || minerals_field@[i]
                            || obstacle_field@[i])) by {
                        let si = idx(ni, sx as int, sy as int);
                        lemma_resource_seq_contains(
                            energy_field@,
                            minerals_field@,
                            ni,
                            ni * ni,
                            sx,
                            sy,
                        );
                        assert(!energy_field@[si] && !minerals_field@[si]);
                        assert(!grid.resources@.contains((sx, sy)));
                        assert(!obstacle_field@[si]);
                    }
                    assert forall|cx: int, cy: int|
                        in_bounds(ni, cx, cy) implies grid.obstacles@[#[trigger] idx(ni, cx, cy)]
                        == (obstacle_field@[idx(ni, cx, cy)] && !grid.resources@.contains(
                        (cx as usize, cy as usize),
                    )) by {
                        lemma_idx_bounds(ni, cx, cy);
                    }
                }
                Ok(
                    World {
                        grid,
                        robot_explorer: explorer,
                        robot_extractor: extractor,
                        rng,
                        game_over: false,
                    },
                )
            },
            None => Err(InitError::NoValidStationPosition),
        }
    }

    pub fn is_game_over(&self) -> (r: bool)
        ensures
            r == self.game_over,
    {
        self.game_over
    }

    /// What cell `(x, y)` shows, by the fixed precedence.
    pub open spec fn spec_classify(self, x: int, y: int) -> CellKind {
        let ci = idx(self.grid.n as int, x, y);
        if self.grid.fog_of_war@[ci] {
            CellKind::Fog
        } else if x == self.grid.station_x && y == self.grid.station_y {
            CellKind::Station
        } else if self.grid.obstacles@[ci] {
            CellKind::Obstacle
        } else if self.grid.energy@[ci] {
            CellKind::Energy
        } else if self.grid.minerals@[ci] {
            CellKind::Minerals
        } else if x == self.robot_explorer.x && y == self.robot_explorer.y {
            CellKind::ExplorerAt
        } else if x == self.robot_extractor.x && y == self.robot_extractor.y {
            CellKind::ExtractorAt
        } else {
            CellKind::Plain
        }
    }

    /// Classify cell `(x, y)` for display. Fog occludes everything; the
    /// station shows as soon as a cell is clear, so it is visible from the
    /// start, being never fogged.
    pub fn classify(&self, x: usize, y: usize) -> (r: CellKind)
        requires
            self.wf(),
            x < self.grid.n,
            y < self.grid.n,
        ensures
            r == self.spec_classify(x as int, y as int),
    {
        let ci = crate::pathfinder::cell_index(self.grid.n, x, y);
        if self.grid.fog_of_war[ci] {
            CellKind::Fog
        } else if x == self.grid.station_x && y == self.grid.station_y {
            CellKind::Station
        } else if self.grid.obstacles[ci] {
            CellKind::Obstacle
        } else if self.grid.energy[ci] {
            CellKind::Energy
        } else if self.grid.minerals[ci] {
            CellKind::Minerals
        } else if x == self.robot_explorer.x && y == self.robot_explorer.y {
            CellKind::ExplorerAt
        } else if x == self.robot_extractor.x && y == self.robot_extractor.y {
            CellKind::ExtractorAt
        } else {
            CellKind::Plain
        }
    }

    /// The extractor's half of a tick.
    #[verifier::rlimit(80)]
    fn step_extractor(&mut self)
        requires
            old(self).wf(),
        ensures
            extractor_phase_rel(*old(self), *final(self)),
            final(self).wf(),
            forall|i: int|
                0 <= i < old(self).grid.nn() && (#[trigger] final(self).grid.energy@[i]) ==> old(self).grid.energy@[i],
            forall|i: int|
                0 <= i < old(self).grid.nn() && (#[trigger] final(self).grid.minerals@[i]) ==> old(self).grid.minerals@[i],
    {
        proof {
            assert(0 <= (self.grid.n as int) * (self.grid.n as int)) by (nonlinear_arith);
        }
        if self.robot_extractor.waiting {
            return ;
        }
        let n = self.grid.n;
        let ghost ni = n as int;
        if self.robot_extractor.carrying_resource {
            let path_opt = self.robot_extractor.move_towards(
                self.robot_extractor.station_x,
                self.robot_extractor.station_y,
                n,
                &self.grid.obstacles,
                &self.grid.fog_of_war,
            );
            if let Some(path) = path_opt {
                if path.len() > 1 {
                    let step = path[1];
                    proof {
                        assert(adj8(
                            path@[1].0 as int,
                            path@[1].1 as int,
                            path@[0].0 as int,
                            path@[0].1 as int,
                        ) && open_cell(
                            ni,
                            self.grid.obstacles@,
                            self.grid.fog_of_war@,
                            true,
                            path@[1].0 as int,
                            path@[1].1 as int,
                        ));
                    }
                    self.robot_extractor.x = step.0;
                    self.robot_extractor.y = step.1;
                    if self.robot_extractor.x == self.robot_extractor.station_x
                        && self.robot_extractor.y == self.robot_extractor.station_y {
                        self.robot_extractor.carrying_resource = false;
                        self.robot_extractor.waiting = true;
                        self.robot_explorer.waiting = false;
                    }
                }
            }
        } else {
            let target_opt = self.robot_extractor.target_position;
            if let Some(t) = target_opt {
                let path_opt = self.robot_extractor.move_towards(
                    t.0,
                    t.1,
                    n,
                    &self.grid.obstacles,
                    &self.grid.fog_of_war,
                );
                if let Some(path) = path_opt {
                    if path.len() > 1 {
                        let step = path[1];
                        proof {
                            assert(adj8(
                                path@[1].0 as int,
                                path@[1].1 as int,
                                path@[0].0 as int,
                                path@[0].1 as int,
                            ) && open_cell(
                                ni,
                                self.grid.obstacles@,
                                self.grid.fog_of_war@,
                                true,
                                path@[1].0 as int,
                                path@[1].1 as int,
                            ));
                        }
                        self.robot_extractor.x = step.0;
                        self.robot_extractor.y = step.1;
                        if self.robot_extractor.x == t.0 && self.robot_extractor.y == t.1 {
                            self.robot_extractor.collect_resource();
                            self.grid.consume(t.0, t.1);
                            proof {
                                lemma_idx_bounds(ni, t.0 as int, t.1 as int);
                                lemma_idx_bounds(
                                    ni,
                                    self.grid.station_x as int,
                                    self.grid.station_y as int,
                                );
                                let si = idx(
                                    ni,
                                    self.grid.station_x as int,
                                    self.grid.station_y as int,
                                );
                                let ti = idx(ni, t.0 as int, t.1 as int);
                                assert(self.grid.energy@ == old(self).grid.energy@.update(
                                    ti,
                                    false,
                                ));
                                assert(!old(self).grid.energy@.update(ti, false)[si]);
                                assert(!old(self).grid.minerals@.update(ti, false)[si]);
                            }
                        }
                    }
                }
            }
        }
    }

    /// The explorer's half of a tick.
    fn step_explorer(&mut self)
        requires
            old(self).wf(),
        ensures
            explorer_phase_rel(*old(self), *final(self)),
            final(self).wf(),
            old(self).game_over ==> final(self).game_over,
            forall|i: int|
                0 <= i < old(self).grid.nn() && (#[trigger] final(self).grid.fog_of_war@[i])
                    ==> old(self).grid.fog_of_war@[i],
            forall|i: int|
                0 <= i < old(self).grid.nn() && (#[trigger] old(self).grid.explored@[i]) ==> final(self).grid.explored@[i],
    {
        proof {
            assert(0 <= (self.grid.n as int) * (self.grid.n as int)) by (nonlinear_arith);
        }
        if self.robot_explorer.waiting {
            return ;
        }
        let n = self.grid.n;
        let ghost ni = n as int;
        let count = self.grid.count_consumables();
        let empty = self.grid.is_map_empty();
        let all_collected = count == 0 || empty;
        proof {
            lemma_count_agrees_with_empty(self.grid);
            crate::grid::lemma_count_true_le_len(self.grid.energy@);
            crate::grid::lemma_count_true_le_len(self.grid.minerals@);
            assert(all_collected == self.grid.no_resources());
        }
        if all_collected {
            let path_opt = self.robot_explorer.return_to_station(
                n,
                &self.grid.obstacles,
                &self.grid.fog_of_war,
            );
            if let Some(path) = path_opt {
                if path.len() > 1 {
                    let step = path[1];
                    proof {
                        assert(adj8(
                            path@[1].0 as int,
                            path@[1].1 as int,
                            path@[0].0 as int,
                            path@[0].1 as int,
                        ) && open_cell(
                            ni,
                            self.grid.obstacles@,
                            self.grid.fog_of_war@,
                            false,
                            path@[1].0 as int,
                            path@[1].1 as int,
                        ));
                    }
                    self.robot_explorer.x = step.0;
                    self.robot_explorer.y = step.1;
                }
            }
            if self.robot_explorer.x == self.robot_explorer.station_x && self.robot_explorer.y
                == self.robot_explorer.station_y {
                self.game_over = true;
            }
        } else if self.robot_explorer.founded_resource {
            let rp = self.robot_explorer.resource_position;
            if let Some(resource) = rp {
                if self.robot_explorer.x == self.robot_explorer.station_x && self.robot_explorer.y
                    == self.robot_explorer.station_y {
                    self.robot_extractor.target_position = Some(resource);
                    self.robot_explorer.founded_resource = false;
                    self.robot_explorer.resource_position = None;
                    self.robot_explorer.waiting = true;
                    self.robot_extractor.waiting = false;
                } else {
                    let path_opt = self.robot_explorer.return_to_station(
                        n,
                        &self.grid.obstacles,
                        &self.grid.fog_of_war,
                    );
                    if let Some(path) = path_opt {
                        if path.len() > 1 {
                            let step = path[1];
                            proof {
                                assert(adj8(
                                    path@[1].0 as int,
                                    path@[1].1 as int,
                                    path@[0].0 as int,
                                    path@[0].1 as int,
                                ) && open_cell(
                                    ni,
                                    self.grid.obstacles@,
                                    self.grid.fog_of_war@,
                                    false,
                                    path@[1].0 as int,
                                    path@[1].1 as int,
                                ));
                            }
                            self.robot_explorer.x = step.0;
                            self.robot_explorer.y = step.1;
                        }
                    }
                }
            }
        } else {
            let ghost g0 = self.grid;
            self.robot_explorer.move_random(&mut self.rng, &mut self.grid);
            proof {
                if any_dir_ok(
                    g0,
                    old(self).robot_explorer.x as int,
                    old(self).robot_explorer.y as int,
                    old(self).robot_explorer.station_x as int,
                    old(self).robot_explorer.station_y as int,
                    false,
                ) {
                    crate::grid::lemma_reveal_monotone(
                        g0.fog_of_war@,
                        self.grid.fog_of_war@,
                        ni,
                        self.robot_explorer.x as int,
                        self.robot_explorer.y as int,
                    );
                    lemma_idx_bounds(
                        ni,
                        self.robot_explorer.x as int,
                        self.robot_explorer.y as int,
                    );
                    let exp_new = g0.explored@.update(
                        idx(ni, self.robot_explorer.x as int, self.robot_explorer.y as int),
                        true,
                    );
                    assert(self.grid.explored@ == exp_new);
                    assert forall|i: int|
                        0 <= i < g0.nn() && (#[trigger] g0.explored@[i]) implies exp_new[i] by {}
                }
            }
        }
    }

    /// One tick: the extractor phase, then the explorer phase, in this fixed
    /// order — an extractor woken by a hand-off acts only from the next
    /// tick on. Once the game is over the tick is a no-op, and the grid's
    /// frame — side, obstacles, station, resource record — never changes;
    /// fog only clears, explored cells stay explored, and resource cells are
    /// only ever emptied.
    pub fn update_robot(&mut self)
        requires
            old(self).wf(),
        ensures
            final(self).wf(),
            old(self).game_over ==> *final(self) == *old(self),
            !old(self).game_over ==> (exists|mid: World|
                #[trigger] extractor_phase_rel(*old(self), mid) && explorer_phase_rel(
                    mid,
                    *final(self),
                )),
            old(self).game_over ==> final(self).game_over,
            final(self).grid.n == old(self).grid.n,
            final(self).grid.obstacles == old(self).grid.obstacles,
            final(self).grid.station_x == old(self).grid.station_x,
            final(self).grid.station_y == old(self).grid.station_y,
            final(self).grid.resources == old(self).grid.resources,
            forall|i: int|
                0 <= i < old(self).grid.nn() && (#[trigger] final(self).grid.fog_of_war@[i])
                    ==> old(self).grid.fog_of_war@[i],
            forall|i: int|
                0 <= i < old(self).grid.nn() && (#[trigger] old(self).grid.explored@[i]) ==> final(self).grid.explored@[i],
            forall|i: int|
                0 <= i < old(self).grid.nn() && (#[trigger] final(self).grid.energy@[i]) ==> old(self).grid.energy@[i],
            forall|i: int|
                0 <= i < old(self).grid.nn() && (#[trigger] final(self).grid.minerals@[i]) ==> old(self).grid.minerals@[i],
    {
        if self.game_over {
            return ;
        }
        self.step_extractor();
        let ghost mid = *self;
        self.step_explorer();
        proof {
            assert(extractor_phase_rel(*old(self), mid));
            assert(explorer_phase_rel(mid, *self));
        }
    }
}

/// The hand-off never leaves both robots waiting, and never leaves a report
/// pending — a resource found, no target set — with neither robot waiting:
/// in a well-formed world exactly one of the two flags is set.
pub proof fn lemma_handoff_exclusive(w: World)
    requires
        w.wf(),
    ensures
        !(w.robot_explorer.waiting && w.robot_extractor.waiting),
        (w.robot_explorer.founded_resource && w.robot_extractor.target_position is None) ==> (
        w.robot_explorer.waiting || w.robot_extractor.waiting),
{
}

} // verus!
