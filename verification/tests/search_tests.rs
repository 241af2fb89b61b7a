use search_space::breadth_first_search;
use search_space::depth_first_search;
use search_space::dijkstra;
use search_space::greedy_search;
use search_space::a_star;
use search_space::random_search;
use search_space::reconstruct_path;
use search_space::problems::cell;
use search_space::StateSpace;
use search_space::problems::GridSpace;
use search_space::problems::KnightBoard;

use std::collections::HashMap;

fn decode(s: u64) -> (u64, u64) {
    (s / 0x1_0000_0000, s % 0x1_0000_0000)
}

fn grid_adjacent(a: u64, b: u64) -> bool {
    let (xa, ya) = decode(a);
    let (xb, yb) = decode(b);
    let dx = if xa > xb { xa - xb } else { xb - xa };
    let dy = if ya > yb { ya - yb } else { yb - ya };
    dx + dy == 1
}

fn open_grid() -> GridSpace {
    GridSpace { width: 3, height: 3, walls: Vec::new() }
}

fn walled_grid() -> GridSpace {
    GridSpace { width: 3, height: 3, walls: vec![cell(1, 0), cell(1, 1), cell(1, 2)] }
}

fn assert_valid_grid_path(path: &[u64], init: u64, goal: u64) {
    assert!(!path.is_empty());
    assert_eq!(path[0], init);
    assert_eq!(*path.last().unwrap(), goal);
    for pair in path.windows(2) {
        assert!(grid_adjacent(pair[0], pair[1]));
    }
    for i in 0..path.len() {
        for j in i + 1..path.len() {
            assert_ne!(path[i], path[j]);
        }
    }
}

#[test]
fn open_grid_bfs_shortest() {
    let grid = open_grid();
    let path = breadth_first_search(&grid, cell(0, 0), cell(2, 2)).expect("path");
    assert_valid_grid_path(&path, cell(0, 0), cell(2, 2));
    assert_eq!(path.len(), 5);
}

#[test]
fn open_grid_a_star_shortest() {
    let grid = open_grid();
    let path = a_star(&grid, cell(0, 0), cell(2, 2)).expect("path");
    assert_valid_grid_path(&path, cell(0, 0), cell(2, 2));
    assert_eq!(path.len(), 5);
    let total_cost: u64 = (path.len() as u64) - 1;
    assert_eq!(total_cost, 4);
}

#[test]
fn open_grid_dijkstra_matches_a_star() {
    let grid = open_grid();
    let d = dijkstra(&grid, cell(0, 0), cell(2, 2)).expect("path");
    let a = a_star(&grid, cell(0, 0), cell(2, 2)).expect("path");
    assert_valid_grid_path(&d, cell(0, 0), cell(2, 2));
    // unit costs: the accumulated cost is the edge count
    assert_eq!(d.len() - 1, 4);
    assert_eq!(a.len() - 1, 4);
    assert_eq!(d.len(), a.len());
}

#[test]
fn open_grid_depth_first_finds_path() {
    let grid = open_grid();
    let path = depth_first_search(&grid, cell(0, 0), cell(2, 2)).expect("path");
    assert_valid_grid_path(&path, cell(0, 0), cell(2, 2));
}

#[test]
fn open_grid_greedy_finds_path() {
    let grid = open_grid();
    let path = greedy_search(&grid, cell(0, 0), cell(2, 2)).expect("path");
    assert_valid_grid_path(&path, cell(0, 0), cell(2, 2));
}

#[test]
fn open_grid_random_finds_path() {
    let grid = open_grid();
    let path = random_search(&grid, cell(0, 0), cell(2, 2)).expect("path");
    assert_valid_grid_path(&path, cell(0, 0), cell(2, 2));
}

#[test]
fn walled_grid_reports_no_path() {
    let grid = walled_grid();
    let init = cell(0, 0);
    let goal = cell(2, 2);
    assert_eq!(breadth_first_search(&grid, init, goal), None);
    assert_eq!(depth_first_search(&grid, init, goal), None);
    assert_eq!(random_search(&grid, init, goal), None);
    assert_eq!(dijkstra(&grid, init, goal), None);
    assert_eq!(greedy_search(&grid, init, goal), None);
    assert_eq!(a_star(&grid, init, goal), None);
}

#[test]
fn init_equals_goal_single_state() {
    let grid = open_grid();
    let s = cell(1, 1);
    assert_eq!(breadth_first_search(&grid, s, s), Some(vec![s]));
    assert_eq!(depth_first_search(&grid, s, s), Some(vec![s]));
    assert_eq!(random_search(&grid, s, s), Some(vec![s]));
    assert_eq!(dijkstra(&grid, s, s), Some(vec![s]));
    assert_eq!(greedy_search(&grid, s, s), Some(vec![s]));
    assert_eq!(a_star(&grid, s, s), Some(vec![s]));
}

#[test]
fn knight_corner_has_two_moves() {
    let board = KnightBoard { size: 8 };
    let mut moves = board.neighbours(cell(7, 7));
    moves.sort();
    assert_eq!(moves, vec![cell(5, 6), cell(6, 5)]);
}

#[test]
fn knight_single_move_path() {
    let board = KnightBoard { size: 8 };
    let path = breadth_first_search(&board, cell(0, 0), cell(2, 1)).expect("path");
    assert_eq!(path, vec![cell(0, 0), cell(2, 1)]);
}

#[test]
fn reconstruct_path_follows_predecessors() {
    let mut parents: HashMap<u64, u64> = HashMap::new();
    parents.insert(2, 1);
    parents.insert(3, 2);
    assert_eq!(reconstruct_path(parents, 3), vec![1, 2, 3]);
}

#[test]
fn reconstruct_path_single_state() {
    let parents: HashMap<u64, u64> = HashMap::new();
    assert_eq!(reconstruct_path(parents, 7), vec![7]);
}
