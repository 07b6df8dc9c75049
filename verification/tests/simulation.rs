use cosmobots::world::World;

fn clear(n: usize) -> Vec<bool> {
    vec![false; n * n]
}

fn build(n: usize, energy_cells: &[(usize, usize)], seed: u64) -> Option<World> {
    let mut ef = clear(n);
    for &(x, y) in energy_cells {
        ef[y * n + x] = true;
    }
    let mf = clear(n);
    let of = clear(n);
    World::new(n, &ef, &mf, &of, seed).ok()
}

#[test]
fn empty_world_ends_on_the_first_tick() {
    let mut w = build(3, &[], 11).unwrap();
    assert!(!w.is_game_over());
    w.update_robot();
    assert!(w.is_game_over());
}

#[test]
fn tick_is_a_no_op_after_game_over() {
    let mut w = build(3, &[], 5).unwrap();
    w.update_robot();
    assert!(w.is_game_over());
    let explorer_pos = (w.robot_explorer.x, w.robot_explorer.y);
    let fog = w.grid.fog_of_war.clone();
    let explored = w.grid.explored.clone();
    for _ in 0..10 {
        w.update_robot();
    }
    assert!(w.is_game_over());
    assert_eq!((w.robot_explorer.x, w.robot_explorer.y), explorer_pos);
    assert_eq!(w.grid.fog_of_war, fog);
    assert_eq!(w.grid.explored, explored);
}

#[test]
fn run_keeps_handoff_exclusive_and_frame_fixed() {
    let n = 5;
    let mut w = build(n, &[(0, 0), (4, 4), (2, 3)], 42).unwrap();
    let obstacles = w.grid.obstacles.clone();
    let station = (w.grid.station_x, w.grid.station_y);
    let mut ticks = 0usize;
    while !w.is_game_over() && ticks < 200_000 {
        let fog_before = w.grid.fog_of_war.clone();
        let explored_before = w.grid.explored.clone();
        let energy_before = w.grid.energy.clone();
        let minerals_before = w.grid.minerals.clone();
        w.update_robot();
        ticks += 1;
        // exactly one robot waits, so a pending report always has a waiter
        assert_ne!(w.robot_explorer.waiting, w.robot_extractor.waiting);
        if w.robot_explorer.founded_resource && w.robot_extractor.target_position.is_none() {
            assert!(w.robot_explorer.waiting || w.robot_extractor.waiting);
        }
        // fog only clears, explored only grows, resources only vanish
        for i in 0..n * n {
            if w.grid.fog_of_war[i] {
                assert!(fog_before[i]);
            }
            if explored_before[i] {
                assert!(w.grid.explored[i]);
            }
            if w.grid.energy[i] {
                assert!(energy_before[i]);
            }
            if w.grid.minerals[i] {
                assert!(minerals_before[i]);
            }
        }
        // the frame never changes
        assert_eq!(w.grid.obstacles, obstacles);
        assert_eq!((w.grid.station_x, w.grid.station_y), station);
    }
    assert!(w.is_game_over(), "run did not finish within the tick budget");
    assert!(w.grid.is_map_empty());
}

#[test]
fn repeated_ticks_reach_game_over() {
    let mut w = build(4, &[(0, 0), (3, 3)], 1).unwrap();
    let mut ticks = 0usize;
    while !w.is_game_over() && ticks < 200_000 {
        w.update_robot();
        ticks += 1;
    }
    assert!(w.is_game_over());
    assert!(w.grid.is_map_empty());
    assert_eq!(
        (w.robot_explorer.x, w.robot_explorer.y),
        (w.grid.station_x, w.grid.station_y)
    );
}

#[test]
fn full_retrieval_scenario() {
    // A 3-by-3 grid with one energy cell at (0, 0) and the station at
    // (1, 1), seeded so the explorer's first roaming move lands on (0, 0).
    let n = 3;
    let mut world = None;
    for seed in 0..200_000u64 {
        if let Some(mut w) = build(n, &[(0, 0)], seed) {
            if (w.grid.station_x, w.grid.station_y) != (1, 1) {
                continue;
            }
            w.update_robot();
            if (w.robot_explorer.x, w.robot_explorer.y) == (0, 0) {
                world = Some(w);
                break;
            }
        }
    }
    let mut w = world.expect("no seed drove the first move to (0, 0)");
    // tick 1 has happened: the resource is found but not yet consumed
    assert!(w.robot_explorer.founded_resource);
    assert_eq!(w.robot_explorer.resource_position, Some((0, 0)));
    assert!(w.grid.energy[0]);
    assert!(w.robot_extractor.waiting);
    // tick 2: the explorer walks back to the station
    w.update_robot();
    assert_eq!((w.robot_explorer.x, w.robot_explorer.y), (1, 1));
    assert!(w.robot_explorer.founded_resource);
    // tick 3: hand-off at the station
    w.update_robot();
    assert!(!w.robot_explorer.founded_resource);
    assert_eq!(w.robot_explorer.resource_position, None);
    assert!(w.robot_explorer.waiting);
    assert!(!w.robot_extractor.waiting);
    assert_eq!(w.robot_extractor.target_position, Some((0, 0)));
    // tick 4: the extractor reaches the resource and collects it
    w.update_robot();
    assert_eq!((w.robot_extractor.x, w.robot_extractor.y), (0, 0));
    assert!(w.robot_extractor.carrying_resource);
    assert!(!w.grid.energy[0]);
    // tick 5: the extractor returns, control passes back, and the explorer,
    // already home on an exhausted grid, ends the game
    w.update_robot();
    assert_eq!((w.robot_extractor.x, w.robot_extractor.y), (1, 1));
    assert!(!w.robot_extractor.carrying_resource);
    assert!(w.robot_extractor.waiting);
    assert!(w.is_game_over());
}
