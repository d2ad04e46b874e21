use algorithms::graphs_mazes::{solution_path, solve_dijkstra, Maze, MazeError, Neighbors};
use std::collections::HashMap;

fn lines(rows: &[&str]) -> Vec<String> {
    rows.iter().map(|r| r.to_string()).collect()
}

fn pos(row: u32, col: u32) -> u64 {
    Maze::coordinates_to_position(row, col)
}

#[test]
fn maze_routes_around_wall() {
    let maze = Maze::new(&lines(&["@  ", " # ", "  $"])).unwrap();
    assert_eq!(maze.start_positions(), vec![pos(0, 0)]);
    assert_eq!(maze.end_positions(), vec![pos(2, 2)]);
    let (distances, predecessors, reached) =
        solve_dijkstra(&maze, maze.start_positions(), maze.end_positions());
    assert_eq!(reached, Some(pos(2, 2)));
    assert_eq!(distances[&pos(2, 2)], 4);
    assert!(!distances.contains_key(&pos(1, 1)));
    let path = solution_path(&predecessors, pos(2, 2), &maze.start_positions());
    assert_eq!(path.len(), 3);
    assert!(!path.contains(&pos(1, 1)));
}

#[test]
fn maze_wall_blocks_target() {
    let maze = Maze::new(&lines(&["@#$"])).unwrap();
    let (distances, predecessors, reached) =
        solve_dijkstra(&maze, maze.start_positions(), maze.end_positions());
    assert_eq!(reached, None);
    assert_eq!(distances.len(), 1);
    assert_eq!(distances[&pos(0, 0)], 0);
    assert!(predecessors.is_empty());
}

#[test]
fn maze_two_sources_nearest_wins() {
    let maze = Maze::new(&lines(&["@ $", "  #", "@  "])).unwrap();
    assert_eq!(maze.start_positions(), vec![pos(0, 0), pos(2, 0)]);
    let (distances, _, reached) =
        solve_dijkstra(&maze, maze.start_positions(), maze.end_positions());
    assert_eq!(reached, Some(pos(0, 2)));
    assert_eq!(distances[&pos(0, 2)], 2);
    assert_eq!(distances[&pos(2, 0)], 0);
}

#[test]
fn maze_rejects_unequal_lines() {
    assert_eq!(
        Maze::new(&lines(&["@  ", " #", "  $"])).unwrap_err(),
        MazeError::UnequalLineLengths
    );
}

#[test]
fn maze_rejects_empty_layout() {
    assert_eq!(Maze::new(&[]).unwrap_err(), MazeError::EmptyLayout);
}

#[test]
fn maze_markers() {
    let maze = Maze::new(&lines(&["@$"])).unwrap();
    assert_eq!(maze.start_char(), '@');
    assert_eq!(maze.end_char(), '$');
}

#[test]
fn coordinates_round_trip() {
    for &(row, col) in &[(0u32, 0u32), (2, 7), (u32::MAX, 0), (0, u32::MAX), (u32::MAX, u32::MAX)] {
        let p = Maze::coordinates_to_position(row, col);
        assert_eq!(Maze::position_to_coordinates(p), (row, col));
    }
    assert_eq!(Maze::coordinates_to_position(1, 2), (1u64 << 32) + 2);
    assert_eq!(Maze::position_to_coordinates((3u64 << 32) + 5), (3, 5));
}

#[test]
fn maze_neighbors_skip_walls_and_edges() {
    let maze = Maze::new(&lines(&["@ #", "  $"])).unwrap();
    let n = maze.list_neighbors_and_distances(&pos(0, 1));
    assert_eq!(n, vec![(pos(1, 1), 1), (pos(0, 0), 1)]);
    let corner = maze.list_neighbors_and_distances(&pos(1, 2));
    assert_eq!(corner, vec![(pos(1, 1), 1)]);
}

#[test]
fn corridor_distance_equals_length() {
    let maze = Maze::new(&lines(&["@####", "    $"])).unwrap();
    let (distances, _, reached) =
        solve_dijkstra(&maze, maze.start_positions(), maze.end_positions());
    assert_eq!(reached, Some(pos(1, 4)));
    assert_eq!(distances[&pos(1, 4)], 5);
}

#[test]
fn solve_is_repeatable() {
    let maze = Maze::new(&lines(&["@  ", "   ", "  $"])).unwrap();
    let first = solve_dijkstra(&maze, maze.start_positions(), maze.end_positions());
    let second = solve_dijkstra(&maze, maze.start_positions(), maze.end_positions());
    assert_eq!(first.0, second.0);
    assert_eq!(first.2, second.2);
}

#[test]
fn settled_distances_respect_edges() {
    let maze = Maze::new(&lines(&["@  # ", "   # ", "     "])).unwrap();
    let (distances, _, reached) = solve_dijkstra(&maze, maze.start_positions(), vec![]);
    assert_eq!(reached, None);
    assert_eq!(distances.len(), 13);
    for (&u, &du) in &distances {
        for (v, w) in maze.list_neighbors_and_distances(&u) {
            if let Some(&dv) = distances.get(&v) {
                assert!(dv <= du + w);
            }
        }
    }
}

#[test]
fn empty_sources_give_empty_result() {
    let maze = Maze::new(&lines(&["@ $"])).unwrap();
    let (distances, predecessors, reached) = solve_dijkstra(&maze, vec![], maze.end_positions());
    assert!(distances.is_empty());
    assert!(predecessors.is_empty());
    assert_eq!(reached, None);
}

#[test]
fn solution_grid_marks_cells() {
    let maze = Maze::new(&lines(&["@  ", " # ", "  $"])).unwrap();
    let (distances, predecessors, reached) =
        solve_dijkstra(&maze, maze.start_positions(), maze.end_positions());
    let path = solution_path(&predecessors, reached.unwrap(), &maze.start_positions());
    let grid = maze.solution_grid(&distances, &path);
    assert_eq!(grid.len(), 3);
    assert_eq!(grid[0][0], '@');
    assert_eq!(grid[2][2], '$');
    assert_eq!(grid[1][1], '#');
    let marked: usize = grid.iter().flatten().filter(|&&c| c == 'x').count();
    assert_eq!(marked, 3);
}

#[test]
fn solution_path_stops_at_sources() {
    let mut predecessors: HashMap<u64, u64> = HashMap::new();
    predecessors.insert(3, 2);
    predecessors.insert(2, 1);
    assert_eq!(solution_path(&predecessors, 3, &vec![1]), vec![2]);
    assert_eq!(solution_path(&predecessors, 3, &vec![]), vec![2, 1]);
}
