use cosmobots::grid::Grid;
use cosmobots::world::{CellKind, InitError, World};

fn clear(n: usize) -> Vec<bool> {
    vec![false; n * n]
}

#[test]
fn reveal_is_idempotent() {
    let mut g = Grid::empty(4);
    g.reveal_around(1, 2);
    let once = g.fog_of_war.clone();
    g.reveal_around(1, 2);
    assert_eq!(g.fog_of_war, once);
}

#[test]
fn reveal_only_clears_fog() {
    let mut g = Grid::empty(5);
    g.reveal_around(2, 2);
    let before = g.fog_of_war.clone();
    g.reveal_around(4, 4);
    for i in 0..25 {
        if g.fog_of_war[i] {
            assert!(before[i], "fog came back at {}", i);
        }
    }
}

#[test]
fn reveal_clamps_at_corner() {
    let mut g = Grid::empty(3);
    g.reveal_around(0, 0);
    for y in 0..3 {
        for x in 0..3 {
            let expect_clear = x <= 1 && y <= 1;
            assert_eq!(!g.fog_of_war[y * 3 + x], expect_clear, "cell ({}, {})", x, y);
        }
    }
}

#[test]
fn consume_reports_and_clears_both_layers() {
    let mut g = Grid::empty(4);
    g.energy[1 * 4 + 2] = true;
    g.minerals[1 * 4 + 2] = true;
    assert_eq!(g.consume(2, 1), (true, true));
    assert!(!g.energy[1 * 4 + 2]);
    assert!(!g.minerals[1 * 4 + 2]);
    assert_eq!(g.consume(2, 1), (false, false));
}

#[test]
fn count_and_is_empty_agree() {
    let mut g = Grid::empty(3);
    assert_eq!(g.count_consumables(), 0);
    assert!(g.is_map_empty());
    g.energy[4] = true;
    g.minerals[4] = true;
    g.minerals[7] = true;
    assert_eq!(g.count_consumables(), 3);
    assert!(!g.is_map_empty());
    g.consume(1, 1);
    assert_eq!(g.count_consumables(), 1);
    assert!(!g.is_map_empty());
    g.consume(1, 2);
    assert_eq!(g.count_consumables(), 0);
    assert!(g.is_map_empty());
}

#[test]
fn place_resources_records_positions_in_scan_order() {
    let n = 3;
    let mut ef = clear(n);
    let mut mf = clear(n);
    ef[0 * n + 1] = true;
    mf[2 * n + 0] = true;
    ef[2 * n + 2] = true;
    mf[2 * n + 2] = true;
    let mut g = Grid::empty(n);
    g.place_resources(&ef, &mf);
    assert_eq!(g.energy, ef);
    assert_eq!(g.minerals, mf);
    assert_eq!(g.resources, vec![(1, 0), (0, 2), (2, 2)]);
}

#[test]
fn place_obstacles_skips_resource_cells() {
    let n = 3;
    let mut ef = clear(n);
    ef[1 * n + 1] = true;
    let mf = clear(n);
    let of = vec![true; n * n];
    let mut g = Grid::empty(n);
    g.place_resources(&ef, &mf);
    g.place_obstacles(&of);
    for y in 0..n {
        for x in 0..n {
            let expect = !(x == 1 && y == 1);
            assert_eq!(g.obstacles[y * n + x], expect, "cell ({}, {})", x, y);
        }
    }
}

#[test]
fn spawn_elements_places_resources_then_obstacles() {
    let n = 3;
    let mut ef = clear(n);
    ef[0] = true;
    let mf = clear(n);
    let of = vec![true; n * n];
    let mut g = Grid::empty(n);
    World::spawn_elements(&mut g, &ef, &mf, &of);
    assert_eq!(g.energy, ef);
    assert_eq!(g.resources, vec![(0, 0)]);
    assert!(!g.obstacles[0]);
    assert!(g.obstacles[1..].iter().all(|&o| o));
}

#[test]
fn new_world_starts_at_a_free_station() {
    let n = 5;
    let mut ef = clear(n);
    ef[0] = true;
    let mf = clear(n);
    let mut of = clear(n);
    of[1] = true;
    let w = World::new(n, &ef, &mf, &of, 7).unwrap();
    let (sx, sy) = (w.grid.station_x, w.grid.station_y);
    assert!(sx < n && sy < n);
    let si = sy * n + sx;
    assert!(!w.grid.obstacles[si] && !w.grid.energy[si] && !w.grid.minerals[si]);
    assert_eq!((w.robot_explorer.x, w.robot_explorer.y), (sx, sy));
    assert_eq!((w.robot_extractor.x, w.robot_extractor.y), (sx, sy));
    assert!(!w.robot_explorer.waiting);
    assert!(w.robot_extractor.waiting);
    assert!(!w.robot_explorer.founded_resource);
    assert!(!w.robot_extractor.carrying_resource);
    assert_eq!(w.robot_explorer.resource_position, None);
    assert_eq!(w.robot_extractor.target_position, None);
    assert!(!w.is_game_over());
    // only the station cell starts revealed
    for i in 0..n * n {
        assert_eq!(w.grid.fog_of_war[i], i != si);
    }
    // the energy cell was recorded and is obstacle-free
    assert_eq!(w.grid.resources, vec![(0, 0)]);
    assert!(!w.grid.obstacles[0]);
    assert!(w.grid.obstacles[1]);
}

#[test]
fn new_world_fails_when_no_cell_is_free() {
    let n = 3;
    let ef = clear(n);
    let mf = clear(n);
    let of = vec![true; n * n];
    for seed in 0..5u64 {
        match World::new(n, &ef, &mf, &of, seed) {
            Err(e) => assert_eq!(e, InitError::NoValidStationPosition),
            Ok(_) => panic!("initialization succeeded with no free cell"),
        }
    }
}

#[test]
fn classification_follows_precedence() {
    let n = 4;
    let mut ef = clear(n);
    ef[2] = true;
    let mut mf = clear(n);
    mf[3] = true;
    let mut of = clear(n);
    of[1 * n + 3] = true;
    let mut w = World::new(n, &ef, &mf, &of, 3).unwrap();
    // fog occludes everything until revealed
    let fogged = (0..n * n).find(|&i| w.grid.fog_of_war[i]).unwrap();
    assert_eq!(w.classify(fogged % n, fogged / n), CellKind::Fog);
    // the station is visible from the start
    assert_eq!(w.classify(w.grid.station_x, w.grid.station_y), CellKind::Station);
    // lift the fog to inspect the rest
    for i in 0..n * n {
        w.grid.fog_of_war[i] = false;
    }
    assert_eq!(w.classify(2, 0), CellKind::Energy);
    assert_eq!(w.classify(3, 0), CellKind::Minerals);
    assert_eq!(w.classify(3, 1), CellKind::Obstacle);
    // park the robots on distinct plain cells
    let (sx, sy) = (w.grid.station_x, w.grid.station_y);
    let mut plain: Vec<(usize, usize)> = Vec::new();
    for y in 0..n {
        for x in 0..n {
            let i = y * n + x;
            if (x, y) != (sx, sy) && !w.grid.obstacles[i] && !w.grid.energy[i]
                && !w.grid.minerals[i]
            {
                plain.push((x, y));
            }
        }
    }
    w.robot_explorer.x = plain[0].0;
    w.robot_explorer.y = plain[0].1;
    w.robot_extractor.x = plain[1].0;
    w.robot_extractor.y = plain[1].1;
    assert_eq!(w.classify(plain[0].0, plain[0].1), CellKind::ExplorerAt);
    assert_eq!(w.classify(plain[1].0, plain[1].1), CellKind::ExtractorAt);
    assert_eq!(w.classify(plain[2].0, plain[2].1), CellKind::Plain);
    // fog beats even the station
    w.grid.fog_of_war[plain[0].1 * n + plain[0].0] = true;
    assert_eq!(w.classify(plain[0].0, plain[0].1), CellKind::Fog);
}
