use maze_wars::maze::{Difficulty, GameMap};

/// Whether a point of the plane lies in a wall tile, as the renderer and
/// physics ask it: points left of or above the map are walls.
fn wall_at_point(m: &GameMap, x: f32, y: f32) -> bool {
    if x < 0.0 || y < 0.0 {
        return true;
    }
    m.is_wall(x as usize, y as usize)
}

#[test]
fn deterministic_generation() {
    let m1 = GameMap::generate(42, Difficulty::Easy);
    let m2 = GameMap::generate(42, Difficulty::Easy);
    assert_eq!(m1.grid, m2.grid);
}

#[test]
fn dimensions_easy() {
    let m = GameMap::generate(1, Difficulty::Easy);
    assert_eq!(m.width, 21);
    assert_eq!(m.height, 21);
    assert_eq!(m.grid.len(), 21 * 21);
}

#[test]
fn has_spawn_points() {
    let m = GameMap::generate(7, Difficulty::Easy);
    assert!(
        m.spawn_cells.len() >= 7,
        "expected at least 7 spawn points, got {}",
        m.spawn_cells.len()
    );
}

#[test]
fn bounds_checking() {
    let m = GameMap::generate(1, Difficulty::Easy);
    // Map is enclosed by walls, so (0,0) and perimeter should be true (wall)
    assert!(wall_at_point(&m, 0.0, 0.0));
    assert!(wall_at_point(&m, (m.width as f32) - 0.1, 0.0));
    assert!(wall_at_point(&m, -1.0, 5.0)); // Out of bounds = wall
    assert!(wall_at_point(&m, 99.0, 99.0));

    // Start carve position is always explicitly carved out
    assert!(!wall_at_point(&m, 1.5, 1.5));
}

#[test]
fn dimensions_of_each_difficulty() {
    assert_eq!(Difficulty::Easy.dimensions(), (21, 21));
    assert_eq!(Difficulty::Medium.dimensions(), (31, 31));
    assert_eq!(Difficulty::Hard.dimensions(), (41, 41));
    let m = GameMap::generate(5, Difficulty::Hard);
    assert_eq!((m.width, m.height), (41, 41));
    assert_eq!(m.grid.len(), 41 * 41);
}

#[test]
fn loop_and_widening_rates() {
    assert_eq!(Difficulty::Easy.loop_percent(), 20);
    assert_eq!(Difficulty::Medium.loop_percent(), 16);
    assert_eq!(Difficulty::Hard.loop_percent(), 12);
    assert_eq!(Difficulty::Easy.widen_percent(), 28);
    assert_eq!(Difficulty::Medium.widen_percent(), 23);
    assert_eq!(Difficulty::Hard.widen_percent(), 18);
}

#[test]
fn every_room_is_floor_and_corners_are_walls() {
    for (seed, d) in [(1u64, Difficulty::Easy), (99, Difficulty::Medium), (12345, Difficulty::Hard)] {
        let m = GameMap::generate(seed, d);
        let (w, h) = (m.width, m.height);
        for y in (1..h - 1).step_by(2) {
            for x in (1..w - 1).step_by(2) {
                assert!(!m.is_wall(x, y), "room ({}, {}) is a wall", x, y);
            }
        }
        assert!(m.is_wall(0, 0));
        assert!(m.is_wall(w - 1, 0));
        assert!(m.is_wall(0, h - 1));
        assert!(m.is_wall(w - 1, h - 1));
    }
}

#[test]
fn tiles_past_the_edge_are_walls() {
    let m = GameMap::generate(3, Difficulty::Medium);
    assert!(m.is_wall(m.width, 1));
    assert!(m.is_wall(1, m.height));
    assert!(m.is_wall(usize::MAX, usize::MAX));
}

#[test]
fn spawn_tiles_are_distinct_floor_tiles() {
    for seed in [0u64, 7, 42, 2024] {
        for d in [Difficulty::Easy, Difficulty::Medium, Difficulty::Hard] {
            let m = GameMap::generate(seed, d);
            assert_eq!(m.spawn_cells.len(), 7);
            for (i, &(x, y)) in m.spawn_cells.iter().enumerate() {
                assert!(!m.is_wall(x, y));
                assert!(x >= 1 && y >= 1 && x < m.width - 1 && y < m.height - 1);
                for &(x2, y2) in &m.spawn_cells[i + 1..] {
                    assert!((x, y) != (x2, y2));
                }
            }
        }
    }
}

#[test]
fn different_seeds_give_different_mazes() {
    let a = GameMap::generate(1, Difficulty::Easy);
    let b = GameMap::generate(2, Difficulty::Easy);
    assert_ne!(a.grid, b.grid);
}

/// Tiles reachable from (1, 1) over floor, by flood fill.
fn flood_from_start(m: &GameMap) -> Vec<bool> {
    let (w, h) = (m.width, m.height);
    let mut seen = vec![false; w * h];
    let mut stack = vec![(1usize, 1usize)];
    seen[w + 1] = true;
    while let Some((x, y)) = stack.pop() {
        let next = [(x.wrapping_sub(1), y), (x + 1, y), (x, y.wrapping_sub(1)), (x, y + 1)];
        for (a, b) in next {
            if a < w && b < h && !m.is_wall(a, b) && !seen[b * w + a] {
                seen[b * w + a] = true;
                stack.push((a, b));
            }
        }
    }
    seen
}

#[test]
fn every_room_is_reachable_from_the_start() {
    for seed in [1u64, 2, 3, 77, 4096] {
        for d in [Difficulty::Easy, Difficulty::Medium, Difficulty::Hard] {
            let m = GameMap::generate(seed, d);
            let seen = flood_from_start(&m);
            for y in (1..m.height - 1).step_by(2) {
                for x in (1..m.width - 1).step_by(2) {
                    assert!(seen[y * m.width + x], "room ({}, {}) unreachable", x, y);
                }
            }
        }
    }
}

#[test]
fn outer_ring_is_all_walls() {
    for seed in [0u64, 1, 42, 999, 31337] {
        for d in [Difficulty::Easy, Difficulty::Medium, Difficulty::Hard] {
            let m = GameMap::generate(seed, d);
            for x in 0..m.width {
                assert!(m.is_wall(x, 0) && m.is_wall(x, m.height - 1), "({}, edge) open", x);
            }
            for y in 0..m.height {
                assert!(m.is_wall(0, y) && m.is_wall(m.width - 1, y), "(edge, {}) open", y);
            }
        }
    }
}

#[test]
fn same_seed_same_spawn_tiles_across_difficulties() {
    for d in [Difficulty::Easy, Difficulty::Medium, Difficulty::Hard] {
        let a = GameMap::generate(2024, d);
        let b = GameMap::generate(2024, d);
        assert_eq!(a.grid, b.grid);
        assert_eq!(a.spawn_cells, b.spawn_cells);
    }
}
