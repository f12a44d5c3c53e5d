use maze::cell::Cell;
use maze::maze::Maze;
use maze::progress::ProgressTracker;
use maze::solvers::astar::AstarSolver;
use maze::solvers::bfs_solver::BfsSolver;
use maze::solvers::dfs_solver::DfsSolver;
use maze::solvers::dijkstra::DijkstraSolver;
use maze::solvers::solver::Solver;

fn open_maze_3x3() -> Maze {
    let cells = vec![
        vec![Cell::Path, Cell::Wall, Cell::Path],
        vec![Cell::Path, Cell::Path, Cell::Path],
        vec![Cell::Wall, Cell::Path, Cell::Path],
    ];
    Maze { cells, start: (0, 0), end: (2, 2) }
}

fn blocked_maze_3x3() -> Maze {
    let cells = vec![
        vec![Cell::Path, Cell::Wall, Cell::Path],
        vec![Cell::Wall, Cell::Wall, Cell::Path],
        vec![Cell::Wall, Cell::Path, Cell::Path],
    ];
    Maze { cells, start: (0, 0), end: (2, 2) }
}

#[test]
fn test_astar_solver_finds_path() {
    let maze = open_maze_3x3();
    let solver = AstarSolver;

    let path = solver.solve(&maze, &mut ProgressTracker::new(false));
    assert!(path.is_some());

    let path = path.unwrap();
    assert_eq!(path.first().cloned(), Some(maze.start));
    assert_eq!(path.last().cloned(), Some(maze.end));

    for i in 0..path.len() - 1 {
        let (r1, c1) = path[i];
        let (r2, c2) = path[i + 1];
        let dr = (r1 as isize - r2 as isize).abs();
        let dc = (c1 as isize - c2 as isize).abs();
        assert_eq!(dr + dc, 1, "Steps must be adjacent");
        assert_ne!(maze.cells[r2][c2], Cell::Wall, "Step goes through wall");
    }
}

#[test]
fn test_astar_solver_no_path() {
    let maze = blocked_maze_3x3();
    let solver = AstarSolver;

    let path = solver.solve(&maze, &mut ProgressTracker::new(false));
    assert!(path.is_none(), "Expected no path due to walls");
}

#[test]
fn test_bfs_solver_finds_path() {
    let maze = open_maze_3x3();
    let solver = BfsSolver;
    let path = solver.solve(&maze, &mut ProgressTracker::new(false));

    assert!(path.is_some());
    let path = path.unwrap();

    assert_eq!(path.first().cloned(), Some(maze.start));
    assert_eq!(path.last().cloned(), Some(maze.end));

    for i in 0..path.len() - 1 {
        let (r1, c1) = path[i];
        let (r2, c2) = path[i + 1];
        let dr = (r1 as isize - r2 as isize).abs();
        let dc = (c1 as isize - c2 as isize).abs();
        assert!(dr + dc == 1);
        assert_ne!(maze.cells[r2][c2], Cell::Wall);
    }
}

#[test]
fn bfs_solver_test_bfs_solver_finds_path() {
    let maze = open_maze_3x3();
    let solver = BfsSolver;
    let path = solver.solve(&maze, &mut ProgressTracker::new(false));

    assert!(path.is_some());
    let path = path.unwrap();

    assert_eq!(path.first().cloned(), Some(maze.start));
    assert_eq!(path.last().cloned(), Some(maze.end));

    for i in 0..path.len() - 1 {
        let (r1, c1) = path[i];
        let (r2, c2) = path[i + 1];
        let dr = (r1 as isize - r2 as isize).abs();
        let dc = (c1 as isize - c2 as isize).abs();
        assert!(dr + dc == 1);
        assert_ne!(maze.cells[r2][c2], Cell::Wall);
    }
}

#[test]
fn test_bfs_solver_no_path() {
    let maze = blocked_maze_3x3();
    let solver = BfsSolver;
    let path = solver.solve(&maze, &mut ProgressTracker::new(false));
    assert!(path.is_none());
}

#[test]
fn bfs_solver_test_bfs_solver_no_path() {
    let maze = blocked_maze_3x3();
    let solver = BfsSolver;
    let path = solver.solve(&maze, &mut ProgressTracker::new(false));
    assert!(path.is_none());
}

#[test]
fn test_dfs_solver_finds_path() {
    let cells = vec![
        vec![
            Cell::Wall,
            Cell::Wall,
            Cell::Wall,
            Cell::Wall,
            Cell::Wall,
            Cell::Wall,
            Cell::Wall,
        ],
        vec![
            Cell::Wall,
            Cell::Path,
            Cell::Path,
            Cell::Path,
            Cell::Path,
            Cell::Path,
            Cell::Wall,
        ],
        vec![
            Cell::Wall,
            Cell::Wall,
            Cell::Wall,
            Cell::Wall,
            Cell::Wall,
            Cell::Wall,
            Cell::Wall,
        ],
    ];
    let start = (1, 1);
    let end = (1, 5);

    let maze = Maze { cells, start, end };

    let solver = DfsSolver;
    let path = solver.solve(&maze, &mut ProgressTracker::new(false));

    assert!(path.is_some(), "Solver should find a path");
    let path = path.unwrap();

    assert_eq!(path.first().copied(), Some(start), "Path should start at S");
    assert_eq!(path.last().copied(), Some(end), "Path should end at E");

    for window in path.windows(2) {
        let (a, b) = (window[0], window[1]);

        let (a_row, a_col) = a;
        let (b_row, b_col) = b;

        assert!(
            maze.cells[b_row][b_col] != Cell::Wall,
            "Path goes through a wall at {:?}",
            b
        );

        let dr = (a_row as isize - b_row as isize).abs();
        let dc = (a_col as isize - b_col as isize).abs();
        assert!(
            dr + dc == 1,
            "Non-adjacent steps in path: {:?} -> {:?}",
            a,
            b
        );
    }
}

#[test]
fn test_dfs_solver_no_path() {
    let cells = vec![
        vec![
            Cell::Wall,
            Cell::Wall,
            Cell::Wall,
            Cell::Wall,
            Cell::Wall,
            Cell::Wall,
            Cell::Wall,
        ],
        vec![
            Cell::Wall,
            Cell::Path,
            Cell::Wall,
            Cell::Wall,
            Cell::Wall,
            Cell::Path,
            Cell::Wall,
        ],
        vec![
            Cell::Wall,
            Cell::Wall,
            Cell::Wall,
            Cell::Wall,
            Cell::Wall,
            Cell::Wall,
            Cell::Wall,
        ],
    ];
    let start = (1, 1);
    let end = (1, 5);

    let maze = Maze { cells, start, end };

    let solver = DfsSolver;
    let path = solver.solve(&maze, &mut ProgressTracker::new(false));

    assert!(
        path.is_none(),
        "Solver should return None when no path exists"
    );
}

#[test]
fn test_dijkstra_solver_finds_path() {
    let maze = open_maze_3x3();
    let solver = DijkstraSolver;

    let path = solver.solve(&maze, &mut ProgressTracker::new(false));
    assert!(path.is_some());

    let path = path.unwrap();
    assert_eq!(path.first().cloned(), Some(maze.start));
    assert_eq!(path.last().cloned(), Some(maze.end));

    for i in 0..path.len() - 1 {
        let (r1, c1) = path[i];
        let (r2, c2) = path[i + 1];
        let dr = (r1 as isize - r2 as isize).abs();
        let dc = (c1 as isize - c2 as isize).abs();
        assert_eq!(dr + dc, 1, "Steps must be adjacent");
        assert_ne!(maze.cells[r2][c2], Cell::Wall, "Step goes through wall");
    }
}

#[test]
fn test_dijkstra_solver_no_path() {
    let maze = blocked_maze_3x3();
    let solver = DijkstraSolver;

    let path = solver.solve(&maze, &mut ProgressTracker::new(false));
    assert!(path.is_none(), "Expected no path due to walls");
}

#[test]
fn test_all_solvers_shortest_on_open_grid() {
    // Each solver must cross the 3x3 grid in exactly five cells and never
    // step on the walls at (0, 1) and (2, 0).
    let maze = open_maze_3x3();
    let solvers: Vec<Box<dyn Solver>> = vec![
        Box::new(BfsSolver),
        Box::new(DfsSolver),
        Box::new(DijkstraSolver),
        Box::new(AstarSolver),
    ];
    for solver in &solvers {
        let path = solver
            .solve(&maze, &mut ProgressTracker::new(false))
            .expect("a path exists");
        assert_eq!(path.len(), 5);
        assert_eq!(path[0], (0, 0));
        assert_eq!(path[4], (2, 2));
        assert!(!path.contains(&(0, 1)));
        assert!(!path.contains(&(2, 0)));
    }
}

#[test]
fn test_all_solvers_none_when_disconnected() {
    let maze = blocked_maze_3x3();
    let solvers: Vec<Box<dyn Solver>> = vec![
        Box::new(BfsSolver),
        Box::new(DfsSolver),
        Box::new(DijkstraSolver),
        Box::new(AstarSolver),
    ];
    for solver in &solvers {
        assert!(solver.solve(&maze, &mut ProgressTracker::new(false)).is_none());
    }
}

#[test]
fn test_solver_tracker_records_visits() {
    let maze = open_maze_3x3();
    let mut enabled = ProgressTracker::new(true);
    let mut disabled = ProgressTracker::new(false);
    let solver = BfsSolver;
    solver.solve(&maze, &mut enabled).unwrap();
    solver.solve(&maze, &mut disabled).unwrap();
    assert!(!enabled.history.is_empty());
    assert_eq!(enabled.history[0], (0, 0, Cell::Path));
    assert!(disabled.history.is_empty());
}
