use maze::cell::Cell;
use maze::maze::{Maze, MazeError};
use maze::maze_pprint::display_maze_with_path;

fn lines_of(rows: &[&str]) -> Vec<Vec<char>> {
    rows.iter().map(|r| r.chars().collect()).collect()
}

#[test]
fn test_from_lines_success() {
    let lines = lines_of(&["#######", "#S...E#", "#######"]);
    let maze = Maze::from_lines(&lines).expect("Failed to parse maze");

    assert_eq!(maze.start, (1, 1));
    assert_eq!(maze.end, (1, 5));
    assert_eq!(maze.cells[0][0], Cell::Wall);
    assert_eq!(maze.cells[1][1], Cell::Path);
    assert_eq!(maze.cells[1][5], Cell::Path);
}

#[test]
fn test_from_lines_invalid_char() {
    let lines = lines_of(&["#####", "#S@E#", "#####"]);
    let result = Maze::from_lines(&lines);
    assert!(matches!(
        result,
        Err(MazeError::InvalidCharacter('@', 1, 2))
    ));
}

#[test]
fn test_from_lines_duplicate_start() {
    let lines = lines_of(&["#####", "#SSE#", "#####"]);
    let result = Maze::from_lines(&lines);
    assert!(matches!(
        result,
        Err(MazeError::InvalidCharacter('S', 1, 2))
    ));
}

#[test]
fn test_from_lines_missing_start() {
    let lines = lines_of(&["#####", "#..E#", "#####"]);
    let result = Maze::from_lines(&lines);
    assert!(matches!(result, Err(MazeError::MissingStartOrEnd)));
}

#[test]
fn test_from_lines_missing_end() {
    let lines = lines_of(&["#####", "#S..#", "#####"]);
    let result = Maze::from_lines(&lines);
    assert!(matches!(result, Err(MazeError::MissingStartOrEnd)));
}

#[test]
fn test_from_lines_empty() {
    let lines: Vec<Vec<char>> = Vec::new();
    let result = Maze::from_lines(&lines);
    assert!(matches!(result, Err(MazeError::MissingStartOrEnd)));
}

#[test]
fn test_get_neighbors_corner_and_center() {
    assert_eq!(Maze::get_neighbors(0, 0, 3, 3), vec![(1, 0), (0, 1)]);
    assert_eq!(
        Maze::get_neighbors(1, 1, 3, 3),
        vec![(0, 1), (2, 1), (1, 0), (1, 2)]
    );
}

#[test]
fn test_to_graph_lists_open_neighbors() {
    let cells = vec![
        vec![Cell::Path, Cell::Wall, Cell::Path],
        vec![Cell::Path, Cell::Path, Cell::Path],
        vec![Cell::Wall, Cell::Path, Cell::Path],
    ];
    let maze = Maze { cells, start: (0, 0), end: (2, 2) };
    let graph = maze.to_graph();

    // Walls have no entry; open cells appear in row-major order.
    let keys: Vec<(usize, usize)> = graph.entries.iter().map(|e| e.0).collect();
    assert_eq!(
        keys,
        vec![(0, 0), (0, 2), (1, 0), (1, 1), (1, 2), (2, 1), (2, 2)]
    );
    for (cell, adj) in &graph.entries {
        if *cell == (0, 0) {
            assert_eq!(adj.clone(), vec![((1, 0), 1)]);
        }
        if *cell == (1, 1) {
            assert_eq!(adj.clone(), vec![((2, 1), 1), ((1, 0), 1), ((1, 2), 1)]);
        }
    }
}

#[test]
fn test_to_graph_idempotent() {
    // Converting the same maze twice yields identical adjacency mappings.
    let cells = vec![
        vec![Cell::Path, Cell::Wall, Cell::Path],
        vec![Cell::Path, Cell::Path, Cell::Path],
        vec![Cell::Wall, Cell::Path, Cell::Path],
    ];
    let maze = Maze { cells, start: (0, 0), end: (2, 2) };
    let g1 = maze.to_graph();
    let g2 = maze.to_graph();
    assert_eq!(g1.entries.len(), g2.entries.len());
    for (e1, e2) in g1.entries.iter().zip(g2.entries.iter()) {
        assert_eq!(e1.0, e2.0);
        assert_eq!(e1.1, e2.1);
    }
}

#[test]
fn test_display_maze_with_path() {
    let cells = vec![
        vec![Cell::Path, Cell::Wall, Cell::Path],
        vec![Cell::Path, Cell::Path, Cell::Path],
        vec![Cell::Wall, Cell::Path, Cell::Path],
    ];
    let maze = Maze { cells, start: (0, 0), end: (2, 2) };
    let path = vec![(0, 0), (1, 0), (1, 1), (1, 2), (2, 2)];
    let shown = display_maze_with_path(&maze, &path);
    assert_eq!(shown, "S#.\n@@@\n#.E\n");
}

#[test]
fn test_display_maze_without_path() {
    let cells = vec![
        vec![Cell::Path, Cell::Wall],
        vec![Cell::Path, Cell::Path],
    ];
    let maze = Maze { cells, start: (0, 0), end: (1, 1) };
    let shown = display_maze_with_path(&maze, &Vec::new());
    assert_eq!(shown, ".#\n..\n");
}
