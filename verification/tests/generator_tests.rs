use std::collections::HashSet;
use std::collections::VecDeque;

use maze::cell::Cell;
use maze::generators::aldous_broder::AldousBroderMazeGenerator;
use maze::generators::generator::MazeGenerator;
use maze::generators::kruskal::KruskalMazeGenerator;
use maze::generators::prims::PrimMazeGenerator;
use maze::generators::recursive_backtracker::RecursiveBacktrackerMazeGenerator;
use maze::maze::Maze;
use maze::progress::ProgressTracker;
use maze::solvers::astar::AstarSolver;
use maze::solvers::bfs_solver::BfsSolver;
use maze::solvers::dfs_solver::DfsSolver;
use maze::solvers::dijkstra::DijkstraSolver;
use maze::solvers::solver::Solver;

/// The cells reachable from the maze's start through its adjacency graph.
fn reachable_cells(maze: &Maze) -> HashSet<(usize, usize)> {
    let graph = maze.to_graph();
    let mut visited = HashSet::new();
    let mut queue = VecDeque::new();
    queue.push_back(maze.start);
    visited.insert(maze.start);
    while let Some(pos) = queue.pop_front() {
        for (cell, adj) in &graph.entries {
            if *cell == pos {
                for (neighbor, _) in adj {
                    if visited.insert(*neighbor) {
                        queue.push_back(*neighbor);
                    }
                }
            }
        }
    }
    visited
}

#[test]
fn test_generate_kruskal_maze() {
    let generator = KruskalMazeGenerator;
    let maze = generator.generate(11, 11, None, None, 0, &mut ProgressTracker::new(false));
    assert_eq!(maze.start, (1, 1));
    assert_eq!(maze.end, (9, 9));
    assert_eq!(maze.cells[maze.start.0][maze.start.1], Cell::Path);
    assert_eq!(maze.cells[maze.end.0][maze.end.1], Cell::Path);
}

#[test]
fn test_generate_recursive_backtracker_maze() {
    let generator = RecursiveBacktrackerMazeGenerator;
    let maze = generator.generate(11, 11, None, None, 0, &mut ProgressTracker::new(false));
    assert_eq!(maze.start, (1, 1));
    assert_eq!(maze.end, (9, 9));
    assert_eq!(maze.cells[maze.start.0][maze.start.1], Cell::Path);
    assert_eq!(maze.cells[maze.end.0][maze.end.1], Cell::Path);
}

#[test]
fn test_generate_aldous_broder_maze() {
    let generator = AldousBroderMazeGenerator;
    let maze = generator.generate(11, 11, None, None, 0, &mut ProgressTracker::new(false));
    assert_eq!(maze.start, (1, 1));
    assert_eq!(maze.end, (9, 9));
    assert_eq!(maze.cells[maze.start.0][maze.start.1], Cell::Path);
    assert_eq!(maze.cells[maze.end.0][maze.end.1], Cell::Path);
}

#[test]
fn test_generate_prim_maze() {
    // Generate a small maze
    let generator = PrimMazeGenerator;
    let maze = generator.generate(9, 9, None, None, 0, &mut ProgressTracker::new(false));
    // Ensure start and end are correct
    assert_eq!(maze.start, (1, 1));
    assert_eq!(maze.end, (7, 7));
    // Ensure start and end are paths
    assert_eq!(maze.cells[maze.start.0][maze.start.1], Cell::Path);
    assert_eq!(maze.cells[maze.end.0][maze.end.1], Cell::Path);
    // Check there is at least one path from start to end using BFS
    let found = reachable_cells(&maze).contains(&maze.end);
    assert!(found, "No path from start to end in Prim maze");
}

#[test]
fn test_generate_prim_maze_with_custom_start_end() {
    // Generate a small maze with custom start and end
    let start = (3, 3);
    let end = (5, 5);
    let generator = PrimMazeGenerator;
    let maze = generator.generate(9, 9, Some(start), Some(end), 0, &mut ProgressTracker::new(false));
    // Ensure start and end are correct
    assert_eq!(maze.start, start);
    assert_eq!(maze.end, end);
    // Ensure start and end are paths
    assert_eq!(maze.cells[maze.start.0][maze.start.1], Cell::Path);
    assert_eq!(maze.cells[maze.end.0][maze.end.1], Cell::Path);
}

#[test]
fn test_every_generator_connects_all_lattice_cells() {
    // With no imperfection pass, every odd-coordinate cell of the lattice must
    // be reachable from the start.
    let generators: Vec<Box<dyn MazeGenerator>> = vec![
        Box::new(KruskalMazeGenerator),
        Box::new(PrimMazeGenerator),
        Box::new(RecursiveBacktrackerMazeGenerator),
        Box::new(AldousBroderMazeGenerator),
    ];
    for generator in &generators {
        let maze = generator.generate(11, 11, None, None, 0, &mut ProgressTracker::new(false));
        let reached = reachable_cells(&maze);
        for r in (1..11).step_by(2) {
            for c in (1..11).step_by(2) {
                assert_eq!(maze.cells[r][c], Cell::Path);
                assert!(reached.contains(&(r, c)), "cell ({}, {}) unreachable", r, c);
            }
        }
    }
}

#[test]
fn test_shortest_solvers_agree_on_generated_maze() {
    // Breadth-first search, Dijkstra and A* must find equally long paths;
    // depth-first search may only be longer.
    let generator = KruskalMazeGenerator;
    let maze = generator.generate(11, 11, None, None, 0, &mut ProgressTracker::new(false));
    let bfs = BfsSolver
        .solve(&maze, &mut ProgressTracker::new(false))
        .expect("perfect maze is connected");
    let dijkstra = DijkstraSolver
        .solve(&maze, &mut ProgressTracker::new(false))
        .expect("perfect maze is connected");
    let astar = AstarSolver
        .solve(&maze, &mut ProgressTracker::new(false))
        .expect("perfect maze is connected");
    let dfs = DfsSolver
        .solve(&maze, &mut ProgressTracker::new(false))
        .expect("perfect maze is connected");
    assert_eq!(bfs.len(), dijkstra.len());
    assert_eq!(bfs.len(), astar.len());
    assert!(dfs.len() >= bfs.len());
}

#[test]
fn test_generator_tracker_records_carves() {
    let generator = KruskalMazeGenerator;
    let mut tracker = ProgressTracker::new(true);
    generator.generate(11, 11, None, None, 0, &mut tracker);
    // At least the 25 lattice cells of an 11x11 maze are reported.
    assert!(tracker.history.len() >= 25);
    for (r, c, cell) in &tracker.history {
        assert!(*r < 11 && *c < 11);
        assert_eq!(*cell, Cell::Path);
    }
}

#[test]
fn test_imperfection_clears_the_requested_share() {
    // With a full percentage every interior wall is carved open.
    let generator = KruskalMazeGenerator;
    let maze = generator.generate(11, 11, None, None, 100, &mut ProgressTracker::new(false));
    for r in 1..10 {
        for c in 1..10 {
            assert_eq!(maze.cells[r][c], Cell::Path);
        }
    }
}

#[test]
fn test_remove_walls_rejects_bad_percentage_and_zero_is_noop() {
    let generator = KruskalMazeGenerator;
    let mut maze = generator.generate(9, 9, None, None, 0, &mut ProgressTracker::new(false));
    let before = maze.cells.clone();
    maze.remove_walls(101);
    assert_eq!(maze.cells, before);
    maze.remove_walls(0);
    assert_eq!(maze.cells, before);
}
