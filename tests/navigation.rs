use stealth_ai::level::{grid_from_rows, load_level_1, load_level_2, load_level_by_index};
use stealth_ai::path::{compute_reachable, find_nearest_floor, find_path, heuristic, Pos};
use stealth_ai::tile::{
    find_large_spawn, is_spawn_position_valid, is_wall, tile_to_world, world_to_tile, Grid, TileType, MAX_SIDE,
};

fn grid(rows: &[&'static str]) -> Grid {
    grid_from_rows(&rows.to_vec())
}

fn is_walk(g: &Grid, p: &[Pos]) -> bool {
    for w in p.windows(2) {
        let d = w[0].0.abs_diff(w[1].0) + w[0].1.abs_diff(w[1].1);
        if d != 1 {
            return false;
        }
    }
    p[1..].iter().all(|&(x, y)| g[y][x].tile_type == TileType::Floor)
}

#[test]
fn find_path_is_shortest_around_pillar() {
    let g = grid(&["#####", "#...#", "#.#.#", "#...#", "#####"]);
    let p = find_path(&g, (1, 1), (3, 3)).unwrap();
    assert_eq!(p.len(), 5);
    assert_eq!(p[0], (1, 1));
    assert_eq!(*p.last().unwrap(), (3, 3));
    assert!(is_walk(&g, &p));
}

#[test]
fn find_path_length_matches_bfs_distance_in_corridor() {
    let g = grid(&["#########", "#.......#", "#######.#", "#.......#", "#########"]);
    let p = find_path(&g, (1, 1), (1, 3)).unwrap();
    // 6 steps right, 2 down, 6 left.
    assert_eq!(p.len() - 1, 14);
    assert!(is_walk(&g, &p));
}

#[test]
fn find_path_to_wall_is_none() {
    let g = grid(&["#####", "#...#", "#.#.#", "#...#", "#####"]);
    assert!(find_path(&g, (1, 1), (2, 2)).is_none());
}

#[test]
fn find_path_disconnected_is_none() {
    let g = grid(&["#######", "#..#..#", "#######"]);
    assert!(find_path(&g, (1, 1), (4, 1)).is_none());
}

#[test]
fn find_path_start_is_goal() {
    let g = grid(&["#####", "#...#", "#####"]);
    assert_eq!(find_path(&g, (2, 1), (2, 1)).unwrap(), vec![(2, 1)]);
}

#[test]
fn find_path_from_wall_start_is_none() {
    let g = grid(&["#####", "#...#", "#####"]);
    assert!(find_path(&g, (2, 0), (3, 1)).is_none());
    let pair = grid(&["#."]);
    assert!(find_path(&pair, (0, 0), (1, 0)).is_none());
    assert!(find_path(&pair, (0, 0), (0, 0)).is_none());
}

#[test]
fn find_path_start_off_grid_is_none() {
    let g = grid(&["#####", "#...#", "#####"]);
    assert!(find_path(&g, (9, 1), (3, 1)).is_none());
}

#[test]
fn find_path_on_level_one() {
    let (g, spawn) = load_level_1();
    let p = find_path(&g, spawn.player_spawn, (22, 13)).unwrap();
    assert_eq!(p[0], (1, 1));
    assert_eq!(*p.last().unwrap(), (22, 13));
    assert!(is_walk(&g, &p));
    assert!(p.len() - 1 >= 21 + 12);
}

#[test]
fn reachability_marks_only_the_connected_part() {
    let g = grid(&["#######", "#..#..#", "#######"]);
    let r = compute_reachable(&g, (1, 1));
    assert_eq!(r.len(), 3);
    assert!(r.iter().all(|row| row.len() == 7));
    assert!(r[1][1] && r[1][2]);
    assert!(!r[1][4] && !r[1][5]);
    assert!(!r[0][0] && !r[1][3]);
}

#[test]
fn reachability_agrees_with_path_search() {
    let (g, _) = load_level_2();
    let r = compute_reachable(&g, (1, 1));
    for y in 0..g.len() {
        for x in 0..g[0].len() {
            let floor = g[y][x].tile_type == TileType::Floor;
            assert_eq!(floor && r[y][x], find_path(&g, (1, 1), (x, y)).is_some());
        }
    }
}

#[test]
fn reachability_from_a_wall_start_is_empty() {
    let g = grid(&["#####", "#...#", "#####"]);
    let r = compute_reachable(&g, (0, 0));
    assert!(r.iter().all(|row| row.iter().all(|&b| !b)));
    let pair = grid(&["#."]);
    assert_eq!(compute_reachable(&pair, (0, 0)), vec![vec![false, false]]);
}

#[test]
fn nearest_floor_from_wall() {
    let g = grid(&["#####", "#...#", "#####"]);
    assert_eq!(find_nearest_floor(&g, (0, 0)), Some((1, 1)));
    assert_eq!(find_nearest_floor(&g, (4, 1)), Some((3, 1)));
    assert_eq!(find_nearest_floor(&g, (2, 1)), Some((2, 1)));
}

#[test]
fn nearest_floor_none_without_floor() {
    let g = grid(&["###", "###"]);
    assert_eq!(find_nearest_floor(&g, (1, 1)), None);
}

#[test]
fn heuristic_is_manhattan() {
    assert_eq!(heuristic((1, 2), (4, 0)), 5);
    assert_eq!(heuristic((3, 3), (3, 3)), 0);
}

#[test]
fn levels_have_their_shape() {
    for (g, s) in [load_level_1(), load_level_2()] {
        assert_eq!(g.len(), 15);
        assert!(g.iter().all(|row| row.len() == 24));
        assert_eq!(s.player_spawn, (1, 1));
        assert_eq!(g[1][1].tile_type, TileType::Floor);
    }
}

#[test]
fn short_rows_end_in_wall() {
    let (g, _) = load_level_1();
    // Row 4 of the first layout has 23 characters.
    assert_eq!(g[4][23].tile_type, TileType::Wall);
    assert_eq!(g[4][21].tile_type, TileType::Floor);
}

#[test]
fn level_by_index_picks_layout() {
    let (one, _) = load_level_by_index(1);
    let (two, _) = load_level_by_index(2);
    let (other, _) = load_level_by_index(7);
    assert_eq!(one[4][19].tile_type, TileType::Wall);
    assert_eq!(two[4][19].tile_type, TileType::Floor);
    assert_eq!(other[4][19].tile_type, TileType::Wall);
}

#[test]
fn is_wall_fails_closed() {
    let (g, _) = load_level_1();
    assert!(is_wall(&g, -1, 100));
    assert!(is_wall(&g, 100, -1));
    assert!(is_wall(&g, 0, 0));
    assert!(!is_wall(&g, 3300, 3300));
    assert!(is_wall(&g, 24 * 3200, 3300));
    assert!(is_wall(&g, 3300, 15 * 3200));
}

#[test]
fn tile_and_world_conversions() {
    assert_eq!(world_to_tile(3250, 6500), (1, 2));
    assert_eq!(world_to_tile(3199, 0), (0, 0));
    assert_eq!(world_to_tile(-5, 10), (MAX_SIDE, 0));
    assert_eq!(tile_to_world(2, 3), (6400, 9600));
}

#[test]
fn spawn_position_checks_corners() {
    let (g, _) = load_level_1();
    assert!(is_spawn_position_valid(&g, 3200, 3200, 3200));
    assert!(is_spawn_position_valid(&g, 3200, 3200, 6400));
    assert!(!is_spawn_position_valid(&g, 0, 0, 3200));
    // A 64-pixel square at tile (10, 1) reaches the wall at column 11.
    assert!(!is_spawn_position_valid(&g, 10 * 3200, 3200, 6400));
}

#[test]
fn large_spawn_is_first_fitting_tile() {
    let (g, _) = load_level_1();
    assert_eq!(find_large_spawn(&g, 6400), Some((3200, 3200)));
    let tight = grid(&["#####", "#.#.#", "#####"]);
    assert_eq!(find_large_spawn(&tight, 6400), None);
    assert_eq!(find_large_spawn(&tight, 3200), Some((3200, 3200)));
}

/// Breadth-first distances over floor tiles from `start`, written independently.
fn reference_distances(g: &Grid, start: Pos) -> Vec<Vec<Option<usize>>> {
    let (h, w) = (g.len(), g[0].len());
    let mut dist = vec![vec![None; w]; h];
    dist[start.1][start.0] = Some(0);
    let mut queue = std::collections::VecDeque::new();
    queue.push_back(start);
    while let Some((x, y)) = queue.pop_front() {
        let d = dist[y][x].unwrap();
        let mut next = Vec::new();
        if x > 0 {
            next.push((x - 1, y));
        }
        if y > 0 {
            next.push((x, y - 1));
        }
        next.push((x + 1, y));
        next.push((x, y + 1));
        for (nx, ny) in next {
            if nx < w && ny < h && dist[ny][nx].is_none() && g[ny][nx].tile_type == TileType::Floor {
                dist[ny][nx] = Some(d + 1);
                queue.push_back((nx, ny));
            }
        }
    }
    dist
}

#[test]
fn reachability_matches_reference_bfs() {
    for (g, s) in [load_level_1(), load_level_2()] {
        let dist = reference_distances(&g, s.player_spawn);
        let r = compute_reachable(&g, s.player_spawn);
        for y in 0..g.len() {
            for x in 0..g[0].len() {
                assert_eq!(r[y][x], dist[y][x].is_some());
            }
        }
    }
}

#[test]
fn path_lengths_match_reference_bfs() {
    for (g, s) in [load_level_1(), load_level_2()] {
        let dist = reference_distances(&g, s.player_spawn);
        for y in 0..g.len() {
            for x in 0..g[0].len() {
                let found = find_path(&g, s.player_spawn, (x, y));
                let floor = g[y][x].tile_type == TileType::Floor;
                match (floor, dist[y][x]) {
                    (true, Some(d)) => {
                        let p = found.unwrap();
                        assert_eq!(p.len() - 1, d);
                        assert!(is_walk(&g, &p));
                    }
                    _ => assert!(found.is_none()),
                }
            }
        }
    }
}

#[test]
fn level_one_layout_fixes_paths_and_flags() {
    let (g, _) = load_level_1();
    assert_eq!(find_path(&g, (1, 1), (3, 1)), Some(vec![(1, 1), (2, 1), (3, 1)]));
    assert!(find_path(&g, (1, 1), (0, 0)).is_none());
    let r = compute_reachable(&g, (1, 1));
    assert!(r[1][1] && r[1][10] && !r[1][11] && !r[0][0]);
    assert_eq!(find_nearest_floor(&g, (0, 0)), Some((1, 1)));
    assert!(g[0].iter().all(|t| t.tile_type == TileType::Wall));
    assert!(g[14].iter().all(|t| t.tile_type == TileType::Wall));
}
