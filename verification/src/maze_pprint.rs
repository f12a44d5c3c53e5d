use vstd::prelude::*;
use vstd::string::StringExecFns;

use crate::cell::Cell;
use crate::maze::Maze;

verus! {

/// The character printed for position `(y, x)`: cells on the path are `@`,
/// except the start and end which keep their `S` and `E` markers; every other
/// position shows its cell, `#` for a wall and `.` for a corridor.
pub open spec fn render_char(m: &Maze, path: Seq<(usize, usize)>, y: int, x: int) -> char {
    if path.contains((y as usize, x as usize)) {
        if (y as usize, x as usize) == m.start {
            'S'
        } else if (y as usize, x as usize) == m.end {
            'E'
        } else {
            '@'
        }
    } else if m.cell_at(y, x) == Cell::Wall {
        '#'
    } else {
        '.'
    }
}

/// The first `x` printed characters of row `y`.
pub open spec fn render_row(m: &Maze, path: Seq<(usize, usize)>, y: int, x: int) -> Seq<char>
    decreases x,
{
    if x <= 0 {
        Seq::empty()
    } else {
        render_row(m, path, y, x - 1).push(render_char(m, path, y, x - 1))
    }
}

/// The first `y` printed rows, each closed by a newline.
pub open spec fn render_rows(m: &Maze, path: Seq<(usize, usize)>, y: int) -> Seq<char>
    decreases y,
{
    if y <= 0 {
        Seq::empty()
    } else {
        render_rows(m, path, y - 1) + render_row(m, path, y - 1, m.cols()).push('\n')
    }
}

/// Whether the path visits `(y, x)`.
fn path_contains(path: &Vec<(usize, usize)>, y: usize, x: usize) -> (b: bool)
    ensures
        b == path@.contains((y, x)),
{
    let mut i: usize = 0;
    while i < path.len()
        invariant
            i <= path@.len(),
            forall|j: int| 0 <= j < i ==> #[trigger] path@[j] != (y, x),
        decreases path@.len() - i,
    {
        let (py, px) = path[i];
        if py == y && px == x {
            proof {
                assert(path@[i as int] == (y, x));
            }
            return true;
        }
        i += 1;
    }
    false
}

/// Draw the maze as a printable grid of characters, one row per line, with
/// the given path overlaid: `S` and `E` mark start and end, `@` the other path
/// cells, `#` walls and `.` corridors.
pub fn display_maze_with_path(maze: &Maze, path: &Vec<(usize, usize)>) -> (r: String)
    requires
        maze.wf(),
    ensures
        r@ == render_rows(maze, path@, maze.rows()),
{
    let rows = maze.cells.len();
    let cols = maze.cells[0].len();
    let mut result = String::new();
    for y in 0..rows
        invariant
            maze.wf(),
            rows == maze.rows(),
            cols == maze.cols(),
            result@ == render_rows(maze, path@, y as int),
    {
        for x in 0..cols
            invariant
                maze.wf(),
                rows == maze.rows(),
                cols == maze.cols(),
                y < rows,
                result@ == render_rows(maze, path@, y as int) + render_row(maze, path@, y as int, x as int),
        {
            let ghost before = result@;
            if path_contains(path, y, x) {
                if y == maze.start.0 && x == maze.start.1 {
                    result.append("S");
                    proof {
                        reveal_strlit("S");
                        assert((y, x) == maze.start);
                    }
                } else if y == maze.end.0 && x == maze.end.1 {
                    result.append("E");
                    proof {
                        reveal_strlit("E");
                        assert((y, x) == maze.end);
                        assert((y, x) != maze.start);
                    }
                } else {
                    result.append("@");
                    proof {
                        reveal_strlit("@");
                        assert((y, x) != maze.start && (y, x) != maze.end);
                    }
                }
            } else {
                if maze.cells[y][x] == Cell::Wall {
                    result.append("#");
                    proof {
                        reveal_strlit("#");
                    }
                } else {
                    result.append(".");
                    proof {
                        reveal_strlit(".");
                    }
                }
            }
            proof {
                assert(result@ =~= before.push(render_char(maze, path@, y as int, x as int)));
                assert(result@ =~= render_rows(maze, path@, y as int)
                    + render_row(maze, path@, y as int, x as int + 1));
            }
        }
        result.append("\n");
        proof {
            reveal_strlit("\n");
            assert(result@ =~= render_rows(maze, path@, y as int + 1));
        }
    }
    result
}

} // verus!
