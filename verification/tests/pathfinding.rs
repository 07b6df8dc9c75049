use cosmobots::pathfinder::{find_path, heuristic, Node};
use std::collections::VecDeque;

const DIRS: [(isize, isize); 8] = [
    (0, -1),
    (0, 1),
    (-1, 0),
    (1, 0),
    (-1, -1),
    (1, -1),
    (-1, 1),
    (1, 1),
];

fn grid_from(rows: &[&str]) -> (usize, Vec<bool>) {
    let n = rows.len();
    let mut v = Vec::new();
    for row in rows {
        assert_eq!(row.len(), n);
        for c in row.chars() {
            v.push(c == '#');
        }
    }
    (n, v)
}

fn clear(n: usize) -> Vec<bool> {
    vec![false; n * n]
}

/// Reference shortest-path length in edges, by breadth-first search.
fn bfs_dist(
    n: usize,
    sx: usize,
    sy: usize,
    gx: usize,
    gy: usize,
    obstacles: &[bool],
    fog: &[bool],
    honor_fog: bool,
) -> Option<usize> {
    let mut dist = vec![usize::MAX; n * n];
    dist[sy * n + sx] = 0;
    let mut q = VecDeque::new();
    q.push_back((sx, sy));
    while let Some((x, y)) = q.pop_front() {
        if (x, y) == (gx, gy) {
            return Some(dist[y * n + x]);
        }
        for (dx, dy) in DIRS {
            let nx = x as isize + dx;
            let ny = y as isize + dy;
            if nx < 0 || ny < 0 || nx >= n as isize || ny >= n as isize {
                continue;
            }
            let (nx, ny) = (nx as usize, ny as usize);
            let ci = ny * n + nx;
            if obstacles[ci] || (honor_fog && fog[ci]) {
                continue;
            }
            if dist[ci] == usize::MAX {
                dist[ci] = dist[y * n + x] + 1;
                q.push_back((nx, ny));
            }
        }
    }
    None
}

fn assert_valid_path(
    path: &[(usize, usize)],
    n: usize,
    sx: usize,
    sy: usize,
    gx: usize,
    gy: usize,
    obstacles: &[bool],
    fog: &[bool],
    honor_fog: bool,
) {
    assert!(!path.is_empty());
    assert_eq!(path[0], (sx, sy));
    assert_eq!(*path.last().unwrap(), (gx, gy));
    for w in path.windows(2) {
        let (ax, ay) = w[0];
        let (bx, by) = w[1];
        assert!(bx < n && by < n);
        assert!((ax, ay) != (bx, by));
        assert!(ax.abs_diff(bx) <= 1 && ay.abs_diff(by) <= 1);
        assert!(!obstacles[by * n + bx]);
        if honor_fog {
            assert!(!fog[by * n + bx]);
        }
    }
}

#[test]
fn heuristic_exact_values() {
    assert_eq!(heuristic(0, 0, 3, 4), 7);
    assert_eq!(heuristic(3, 4, 0, 0), 7);
    assert_eq!(heuristic(5, 5, 5, 5), 0);
    assert_eq!(heuristic(2, 9, 7, 1), 13);
}

#[test]
fn node_new_keeps_fields() {
    let node = Node::new(3, 4, 5, 9);
    assert_eq!(node.x, 3);
    assert_eq!(node.y, 4);
    assert_eq!(node.cost, 5);
    assert_eq!(node.priority, 9);
}

#[test]
fn path_when_start_equals_goal() {
    let n = 4;
    let obst = clear(n);
    let fog = clear(n);
    let p = find_path(n, 2, 2, 2, 2, &obst, &fog, false).unwrap();
    assert_eq!(p, vec![(2, 2)]);
}

#[test]
fn straight_path_is_optimal() {
    let n = 5;
    let obst = clear(n);
    let fog = clear(n);
    let p = find_path(n, 0, 2, 4, 2, &obst, &fog, false).unwrap();
    assert_valid_path(&p, n, 0, 2, 4, 2, &obst, &fog, false);
    assert_eq!(p.len() - 1, 4);
}

#[test]
fn diagonal_path_is_optimal() {
    let n = 5;
    let obst = clear(n);
    let fog = clear(n);
    let p = find_path(n, 0, 0, 4, 4, &obst, &fog, false).unwrap();
    assert_valid_path(&p, n, 0, 0, 4, 4, &obst, &fog, false);
    assert_eq!(p.len() - 1, 4);
}

#[test]
fn no_path_when_goal_enclosed() {
    let (n, obst) = grid_from(&[
        ".....",
        ".###.",
        ".#.#.",
        ".###.",
        ".....",
    ]);
    let fog = clear(n);
    assert_eq!(find_path(n, 0, 0, 2, 2, &obst, &fog, false), None);
}

#[test]
fn fog_blocks_only_when_honored() {
    let n = 3;
    let obst = clear(n);
    // a fog wall across the middle column
    let mut fog = clear(n);
    for y in 0..n {
        fog[y * n + 1] = true;
    }
    assert_eq!(find_path(n, 0, 1, 2, 1, &obst, &fog, true), None);
    let p = find_path(n, 0, 1, 2, 1, &obst, &fog, false).unwrap();
    assert_valid_path(&p, n, 0, 1, 2, 1, &obst, &fog, false);
}

#[test]
fn path_detours_around_obstacles() {
    let (n, obst) = grid_from(&[
        "..#..",
        "..#..",
        "..#..",
        "..#..",
        ".....",
    ]);
    let fog = clear(n);
    let p = find_path(n, 0, 0, 4, 0, &obst, &fog, false).unwrap();
    assert_valid_path(&p, n, 0, 0, 4, 0, &obst, &fog, false);
    assert_eq!(p.len() - 1, bfs_dist(n, 0, 0, 4, 0, &obst, &fog, false).unwrap());
}

#[test]
fn reachability_agrees_with_bfs() {
    // A deterministic batch of small grids: the search returns a path
    // exactly when one exists, and never beats the true minimum.
    let mut state: u64 = 0x2545_f491_4f6c_dd1d;
    for _ in 0..300 {
        let n = 4 + (state % 3) as usize;
        let mut obst = clear(n);
        for cell in obst.iter_mut() {
            state = state.wrapping_mul(6364136223846793005).wrapping_add(1442695040888963407);
            *cell = (state >> 33) % 10 < 3;
        }
        state = state.wrapping_mul(6364136223846793005).wrapping_add(1442695040888963407);
        let sx = (state >> 33) as usize % n;
        state = state.wrapping_mul(6364136223846793005).wrapping_add(1442695040888963407);
        let sy = (state >> 33) as usize % n;
        state = state.wrapping_mul(6364136223846793005).wrapping_add(1442695040888963407);
        let gx = (state >> 33) as usize % n;
        state = state.wrapping_mul(6364136223846793005).wrapping_add(1442695040888963407);
        let gy = (state >> 33) as usize % n;
        let fog = clear(n);
        let found = find_path(n, sx, sy, gx, gy, &obst, &fog, false);
        let best = bfs_dist(n, sx, sy, gx, gy, &obst, &fog, false);
        match (found, best) {
            (Some(p), Some(d)) => {
                assert_valid_path(&p, n, sx, sy, gx, gy, &obst, &fog, false);
                assert!(p.len() - 1 >= d);
            },
            (None, None) => {},
            (a, b) => panic!("reachability disagreement: {:?} vs {:?}", a.map(|p| p.len()), b),
        }
    }
}

#[test]
fn manhattan_heuristic_can_overshoot_the_minimum() {
    // The Manhattan heuristic overestimates diagonal-heavy remainders on an
    // 8-connected grid, so the search may return a valid path longer than
    // the true minimum. This layout is one such case: the minimum is 4.
    let (n, obst) = grid_from(&[
        "#..##",
        "..#..",
        ".#..#",
        ".....",
        "####.",
    ]);
    let fog = clear(n);
    let p = find_path(n, 0, 1, 4, 3, &obst, &fog, false).unwrap();
    assert_valid_path(&p, n, 0, 1, 4, 3, &obst, &fog, false);
    let d = bfs_dist(n, 0, 1, 4, 3, &obst, &fog, false).unwrap();
    assert_eq!(d, 4);
    assert!(p.len() - 1 >= d);
}

#[test]
fn optimal_on_open_grids() {
    // On grids without obstacles the returned length matches the true
    // minimum, the Chebyshev distance.
    for n in 2..8usize {
        let obst = clear(n);
        let fog = clear(n);
        for gx in 0..n {
            for gy in 0..n {
                let p = find_path(n, 0, 0, gx, gy, &obst, &fog, false).unwrap();
                assert_valid_path(&p, n, 0, 0, gx, gy, &obst, &fog, false);
                assert_eq!(p.len() - 1, gx.max(gy));
            }
        }
    }
}
