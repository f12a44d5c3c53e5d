use vstd::prelude::*;

use crate::cell::Cell;

verus! {

/// A rectangular grid of cells together with the designated start and end
/// coordinates. Coordinates are `(row, col)`, row-major.
pub struct Maze {
    pub cells: Vec<Vec<Cell>>,
    pub start: (usize, usize),
    pub end: (usize, usize),
}

#[verifier::external_type_specification]
#[verifier::external_body]
pub struct ExIoError(std::io::Error);

#[derive(Debug)]
pub enum MazeError {
    Io(std::io::Error),
    InvalidCharacter(char, usize, usize),
    MissingStartOrEnd,
}

impl From<std::io::Error> for MazeError {
    fn from(err: std::io::Error) -> (r: Self) {
        MazeError::Io(err)
    }
}

impl vstd::std_specs::convert::FromSpecImpl<std::io::Error> for MazeError {
    open spec fn obeys_from_spec() -> bool {
        true
    }

    open spec fn from_spec(err: std::io::Error) -> Self {
        MazeError::Io(err)
    }
}

/// Two coordinates are orthogonally adjacent: they agree in one component and
/// differ by exactly one in the other (Manhattan distance 1).
pub open spec fn adjacent(a: (usize, usize), b: (usize, usize)) -> bool {
    ||| (a.0 == b.0 && (a.1 + 1 == b.1 || b.1 + 1 == a.1))
    ||| (a.1 == b.1 && (a.0 + 1 == b.0 || b.0 + 1 == a.0))
}

impl Maze {
    pub open spec fn rows(&self) -> int {
        self.cells@.len() as int
    }

    pub open spec fn cols(&self) -> int {
        if self.cells@.len() > 0 {
            self.cells@[0]@.len() as int
        } else {
            0
        }
    }

    /// Every row has the same length.
    pub open spec fn rect(&self) -> bool {
        forall|i: int| 0 <= i < self.rows() ==> (#[trigger] self.cells@[i])@.len() == self.cols()
    }

    pub open spec fn cell_at(&self, r: int, c: int) -> Cell {
        self.cells@[r]@[c]
    }

    pub open spec fn in_bounds(&self, p: (usize, usize)) -> bool {
        p.0 < self.rows() && p.1 < self.cols()
    }

    /// `p` lies inside the grid and is not a wall.
    pub open spec fn open_at(&self, p: (usize, usize)) -> bool {
        self.in_bounds(p) && self.cell_at(p.0 as int, p.1 as int) != Cell::Wall
    }

    /// The structural invariant of a maze: a non-empty rectangular grid whose
    /// start and end coordinates are in-bounds non-wall cells.
    pub open spec fn wf(&self) -> bool {
        &&& self.rows() > 0
        &&& self.cols() > 0
        &&& self.rect()
        &&& self.open_at(self.start)
        &&& self.open_at(self.end)
    }

    /// `p` is a walk through the maze: non-empty, every step on an open cell,
    /// and consecutive steps orthogonally adjacent.
    pub open spec fn is_path(&self, p: Seq<(usize, usize)>) -> bool {
        &&& p.len() >= 1
        &&& forall|i: int| 0 <= i < p.len() ==> self.open_at(#[trigger] p[i])
        &&& forall|i: int| 0 <= i < p.len() - 1 ==> adjacent(#[trigger] p[i], p[i + 1])
    }

    /// `p` is a walk from `a` to `b`.
    pub open spec fn connects(&self, p: Seq<(usize, usize)>, a: (usize, usize), b: (usize, usize)) -> bool {
        self.is_path(p) && p[0] == a && p[p.len() - 1] == b
    }

    /// Some sequence of adjacent open cells leads from `a` to `b`.
    pub open spec fn has_path(&self, a: (usize, usize), b: (usize, usize)) -> bool {
        exists|p: Seq<(usize, usize)>| self.connects(p, a, b)
    }
}

/// The in-bounds orthogonal neighbours of `(row, col)` in a `height` x `width`
/// grid, in north, south, west, east order.
pub open spec fn neighbor_seq(row: usize, col: usize, height: usize, width: usize) -> Seq<(usize, usize)> {
    (if row >= 1 {
        seq![((row - 1) as usize, col)]
    } else {
        Seq::empty()
    }) + (if row + 1 < height {
        seq![((row + 1) as usize, col)]
    } else {
        Seq::empty()
    }) + (if col >= 1 {
        seq![(row, (col - 1) as usize)]
    } else {
        Seq::empty()
    }) + (if col + 1 < width {
        seq![(row, (col + 1) as usize)]
    } else {
        Seq::empty()
    })
}

/// Every element of `neighbor_seq` is in bounds and adjacent to `(row, col)`.
pub proof fn lemma_neighbor_seq_sound(row: usize, col: usize, height: usize, width: usize)
    requires
        row < height,
        col < width,
    ensures
        forall|i: int| 0 <= i < neighbor_seq(row, col, height, width).len() ==> {
            let q = #[trigger] neighbor_seq(row, col, height, width)[i];
            q.0 < height && q.1 < width && adjacent((row, col), q)
        },
{
}

/// Every in-bounds coordinate adjacent to `(row, col)` occurs in `neighbor_seq`.
pub proof fn lemma_neighbor_seq_complete(row: usize, col: usize, height: usize, width: usize, q: (usize, usize))
    requires
        row < height,
        col < width,
        q.0 < height,
        q.1 < width,
        adjacent((row, col), q),
    ensures
        neighbor_seq(row, col, height, width).contains(q),
{
    let s = neighbor_seq(row, col, height, width);
    if q.0 == row {
        if q.1 + 1 == col {
            assert(s[s.len() - 1 - (if col + 1 < width { 1int } else { 0int })] == q);
        } else {
            assert(s[s.len() - 1] == q);
        }
    } else {
        if q.0 + 1 == row {
            assert(s[0] == q);
        } else {
            assert(s[if row >= 1 { 1int } else { 0int }] == q);
        }
    }
}

impl Maze {
    /// The in-bounds orthogonal neighbours of `(row, col)` in a `height` x
    /// `width` grid, in north, south, west, east order.
    pub fn get_neighbors(row: usize, col: usize, height: usize, width: usize) -> (r: Vec<(usize, usize)>)
        requires
            row < height,
            col < width,
        ensures
            r@ == neighbor_seq(row, col, height, width),
    {
        let mut neighbors: Vec<(usize, usize)> = Vec::new();
        if row >= 1 {
            neighbors.push((row - 1, col));
        }
        if row + 1 < height {
            neighbors.push((row + 1, col));
        }
        if col >= 1 {
            neighbors.push((row, col - 1));
        }
        if col + 1 < width {
            neighbors.push((row, col + 1));
        }
        proof {
            assert(neighbors@ =~= neighbor_seq(row, col, height, width));
        }
        neighbors
    }
}

impl Maze {
    /// `p` is a wall cell strictly inside the border.
    pub open spec fn interior_wall(&self, p: (usize, usize)) -> bool {
        &&& 1 <= p.0 < self.rows() - 1
        &&& 1 <= p.1 < self.cols() - 1
        &&& self.cell_at(p.0 as int, p.1 as int) == Cell::Wall
    }

    /// Every wall cell strictly inside the border, in row-major order.
    fn collect_interior_walls(&self) -> (r: Vec<(usize, usize)>)
        requires
            self.wf(),
        ensures
            forall|p: (usize, usize)| #[trigger] r@.contains(p) ==> self.interior_wall(p),
            forall|p: (usize, usize)| #[trigger] self.interior_wall(p) ==> r@.contains(p),
            r@.no_duplicates(),
            r@.len() <= self.rows() * self.cols(),
    {
        let rows = self.cells.len();
        let cols = self.cells[0].len();
        let mut walls: Vec<(usize, usize)> = Vec::new();
        let mut rr: usize = 1;
        while rr < rows - 1
            invariant
                self.wf(),
                rows == self.rows(),
                cols == self.cols(),
                1 <= rr,
                rr <= rows,
                walls@.no_duplicates(),
                forall|p: (usize, usize)| #[trigger] walls@.contains(p)
                    ==> self.interior_wall(p) && p.0 < rr,
                forall|p: (usize, usize)| #[trigger] self.interior_wall(p) && p.0 < rr
                    ==> walls@.contains(p),
                walls@.len() <= (rr - 1) * cols,
            decreases rows - rr,
        {
            let mut cc: usize = 1;
            while cc < cols - 1
                invariant
                    self.wf(),
                    rows == self.rows(),
                    cols == self.cols(),
                    1 <= rr,
                    rr < rows - 1,
                    1 <= cc,
                    cc <= cols,
                    walls@.no_duplicates(),
                    forall|p: (usize, usize)| #[trigger] walls@.contains(p)
                        ==> self.interior_wall(p) && (p.0 < rr || (p.0 == rr && p.1 < cc)),
                    forall|p: (usize, usize)| #[trigger] self.interior_wall(p)
                        && (p.0 < rr || (p.0 == rr && p.1 < cc)) ==> walls@.contains(p),
                    walls@.len() <= (rr - 1) * cols + cc,
                decreases cols - cc,
            {
                if self.cells[rr][cc] == Cell::Wall {
                    let ghost w_old = walls@;
                    walls.push((rr, cc));
                    proof {
                        assert(!w_old.contains((rr, cc))) by {
                            if w_old.contains((rr, cc)) {
                            }
                        }
                        assert forall|i: int, j: int|
                            0 <= i < walls@.len() && 0 <= j < walls@.len() && i != j
                                implies walls@[i] != walls@[j] by {
                            if i < walls@.len() - 1 && j < walls@.len() - 1 {
                            } else {
                                let k = if i < j { i } else { j };
                                assert(walls@[k] == w_old[k]);
                                if w_old[k] == (rr, cc) {
                                    assert(w_old.contains((rr, cc)));
                                }
                            }
                        }
                        assert forall|p: (usize, usize)| #[trigger] walls@.contains(p)
                            implies self.interior_wall(p) && (p.0 < rr || (p.0 == rr && p.1 < cc + 1)) by {
                            let i = choose|i: int| 0 <= i < walls@.len() && walls@[i] == p;
                            if i < walls@.len() - 1 {
                                assert(w_old[i] == p);
                                assert(w_old.contains(p));
                            } else {
                                assert(p == (rr, cc));
                            }
                        }
                        assert forall|p: (usize, usize)| #[trigger] self.interior_wall(p)
                            && (p.0 < rr || (p.0 == rr && p.1 < cc + 1))
                                implies walls@.contains(p) by {
                            if p.0 < rr || (p.0 == rr && p.1 < cc) {
                                assert(w_old.contains(p));
                                let i = choose|i: int| 0 <= i < w_old.len() && w_old[i] == p;
                                assert(walls@[i] == p);
                            } else {
                                assert(p == (rr, cc));
                                assert(walls@[walls@.len() - 1] == p);
                            }
                        }
                    }
                } else {
                    proof {
                        assert forall|p: (usize, usize)| #[trigger] self.interior_wall(p)
                            && (p.0 < rr || (p.0 == rr && p.1 < cc + 1))
                                implies walls@.contains(p) by {
                            assert(self.cell_at(rr as int, cc as int) != Cell::Wall);
                            assert(p != (rr, cc));
                            assert(p.0 < rr || (p.0 == rr && p.1 < cc));
                        }
                    }
                }
                cc += 1;
            }
            rr += 1;
            proof {
                assert forall|p: (usize, usize)| #[trigger] walls@.contains(p)
                    implies self.interior_wall(p) && p.0 < rr by {
                }
                assert forall|p: (usize, usize)| #[trigger] self.interior_wall(p) && p.0 < rr
                    implies walls@.contains(p) by {
                    assert(cc >= cols - 1);
                    if p.0 == rr - 1 {
                        assert(p.1 < cols - 1);
                        assert(p.1 < cc);
                    }
                }
                assert((rr - 2) * cols + cols == (rr - 1) * cols) by (nonlinear_arith);
            }
        }
        proof {
            assert forall|p: (usize, usize)| #[trigger] self.interior_wall(p)
                implies walls@.contains(p) by {
                assert(p.0 < rr);
            }
            assert((rr - 1) * cols <= rows * cols) by (nonlinear_arith)
                requires 1 <= rr <= rows, 0 <= cols;
        }
        walls
    }

    /// Turn a random selection of the interior walls into open cells: some
    /// duplicate-free enumeration `ws` of the interior walls is chosen at
    /// random, and exactly its first `ws.len() * percentage / 100` entries are
    /// carved open. A percentage over 100 is rejected and nothing changes.
    pub fn remove_walls(&mut self, percentage: u32)
        requires
            old(self).wf(),
            old(self).rows() * old(self).cols() * 100 <= usize::MAX,
        ensures
            final(self).wf(),
            final(self).rows() == old(self).rows(),
            final(self).cols() == old(self).cols(),
            final(self).start == old(self).start,
            final(self).end == old(self).end,
            forall|r: int, c: int| 0 <= r < old(self).rows() && 0 <= c < old(self).cols()
                ==> final(self).cell_at(r, c) == old(self).cell_at(r, c)
                    || (old(self).interior_wall((r as usize, c as usize))
                        && final(self).cell_at(r, c) == Cell::Path),
            percentage > 100 ==> *final(self) == *old(self),
            percentage <= 100 ==> exists|ws: Seq<(usize, usize)>| {
                &&& ws.no_duplicates()
                &&& (forall|p: (usize, usize)| ws.contains(p) <==> old(self).interior_wall(p))
                &&& (forall|i: int| 0 <= i < ws.len() * percentage / 100
                    ==> final(self).cell_at((#[trigger] ws[i]).0 as int, ws[i].1 as int) == Cell::Path)
                &&& (forall|r: int, c: int| 0 <= r < old(self).rows() && 0 <= c < old(self).cols()
                    && !ws.take(ws.len() * percentage / 100)
                        .contains((r as usize, c as usize))
                    ==> final(self).cell_at(r, c) == old(self).cell_at(r, c))
            },
    {
        if percentage > 100 {
            return;
        }
        let rows = self.cells.len();
        let cols = self.cells[0].len();
        let mut walls = self.collect_interior_walls();
        let ghost w0 = walls@;
        crate::random::shuffle(&mut walls);
        proof {
            broadcast use vstd::seq_lib::group_to_multiset_ensures;
            w0.lemma_multiset_has_no_duplicates();
            assert forall|p: (usize, usize)| walls@.contains(p) <==> old(self).interior_wall(p) by {
                assert(walls@.contains(p) <==> walls@.to_multiset().count(p) > 0);
                assert(w0.contains(p) <==> w0.to_multiset().count(p) > 0);
                if old(self).interior_wall(p) {
                    assert(w0.contains(p));
                }
                if w0.contains(p) {
                    assert(old(self).interior_wall(p));
                }
            }
            assert forall|p: (usize, usize)| walls@.to_multiset().contains(p)
                implies walls@.to_multiset().count(p) == 1 by {
                assert(w0.to_multiset().contains(p));
            }
            walls@.lemma_multiset_has_no_duplicates_conv();
            let rs = old(self).rows();
            let cs = old(self).cols();
            let wl = walls@.len() as int;
            let pc = percentage as int;
            assert(wl * pc <= rs * cs * 100) by (nonlinear_arith)
                requires
                    wl <= rs * cs,
                    0 <= pc <= 100,
                    0 <= wl,
            ;
        }
        let k = walls.len() * (percentage as usize) / 100;
        proof {
            assert(walls@.len() * percentage / 100 <= walls@.len()) by (nonlinear_arith)
                requires 0 <= percentage <= 100, 0 <= walls@.len(),
            ;
        }
        let ghost orig = *self;
        for i in 0..k
            invariant
                self.wf(),
                self.rows() == orig.rows(),
                self.cols() == orig.cols(),
                self.start == orig.start,
                self.end == orig.end,
                orig == *old(self),
                k <= walls@.len(),
                k == walls@.len() * percentage / 100,
                walls@.no_duplicates(),
                forall|p: (usize, usize)| walls@.contains(p) <==> orig.interior_wall(p),
                forall|j: int| 0 <= j < i
                    ==> self.cell_at((#[trigger] walls@[j]).0 as int, walls@[j].1 as int) == Cell::Path,
                forall|r: int, c: int| 0 <= r < orig.rows() && 0 <= c < orig.cols()
                    && !walls@.take(i as int).contains((r as usize, c as usize))
                    ==> self.cell_at(r, c) == orig.cell_at(r, c),
        {
            let (r, c) = walls[i];
            proof {
                assert(walls@.contains(walls@[i as int]));
                assert(orig.interior_wall((r, c)));
            }
            let ghost before = *self;
            self.cells[r][c] = Cell::Path;
            proof {
                assert(walls@[i as int] == (r, c));
                assert(self.cells@[r as int]@[c as int] == Cell::Path);
                assert(self.cells@.len() == before.cells@.len());
                assert forall|r2: int| 0 <= r2 < self.cells@.len() && r2 != r
                    implies (#[trigger] self.cells@[r2])@ == before.cells@[r2]@ by {}
                assert forall|c2: int| 0 <= c2 < self.cells@[r as int]@.len() && c2 != c
                    implies self.cells@[r as int]@[c2] == before.cells@[r as int]@[c2] by {}
                assert forall|j: int| 0 <= j < i + 1
                    implies self.cell_at((#[trigger] walls@[j]).0 as int, walls@[j].1 as int)
                        == Cell::Path by {
                    if j < i {
                        assert(walls@[j] != walls@[i as int]);
                        assert(walls@.contains(walls@[j]));
                        assert(orig.interior_wall(walls@[j]));
                        assert(self.cells@[r as int]@.len() == before.cells@[r as int]@.len());
                        assert(before.cell_at(walls@[j].0 as int, walls@[j].1 as int) == Cell::Path);
                        if walls@[j].0 == r {
                            assert(self.cells@[r as int]@[walls@[j].1 as int]
                                == before.cells@[r as int]@[walls@[j].1 as int]);
                        } else {
                            assert(self.cells@[walls@[j].0 as int]@ == before.cells@[walls@[j].0 as int]@);
                        }
                    } else {
                        assert(walls@[j] == (r, c));
                        assert(self.cell_at(r as int, c as int) == Cell::Path);
                    }
                }
                assert forall|r2: int, c2: int| 0 <= r2 < orig.rows() && 0 <= c2 < orig.cols()
                    && !walls@.take(i + 1).contains((r2 as usize, c2 as usize))
                    implies self.cell_at(r2, c2) == orig.cell_at(r2, c2) by {
                    assert(walls@.take(i + 1)[i as int] == walls@[i as int]);
                    assert((r2 as usize, c2 as usize) != (r, c));
                    assert forall|p: (usize, usize)| walls@.take(i as int).contains(p)
                        implies walls@.take(i + 1).contains(p) by {
                        let j = choose|j: int| 0 <= j < i && walls@.take(i as int)[j] == p;
                        assert(walls@.take(i + 1)[j] == p);
                    }
                    assert(!walls@.take(i as int).contains((r2 as usize, c2 as usize)));
                }
            }
        }
        proof {
            let ws = walls@;
            assert(ws.no_duplicates()
                && (forall|p: (usize, usize)| ws.contains(p) <==> old(self).interior_wall(p))
                && (forall|i: int| 0 <= i < ws.len() * percentage / 100
                    ==> final(self).cell_at((#[trigger] ws[i]).0 as int, ws[i].1 as int) == Cell::Path)
                && (forall|r: int, c: int| 0 <= r < old(self).rows() && 0 <= c < old(self).cols()
                    && !ws.take(ws.len() * percentage / 100)
                        .contains((r as usize, c as usize))
                    ==> final(self).cell_at(r, c) == old(self).cell_at(r, c)));
            assert forall|r: int, c: int| 0 <= r < old(self).rows() && 0 <= c < old(self).cols()
                implies final(self).cell_at(r, c) == old(self).cell_at(r, c)
                    || (old(self).interior_wall((r as usize, c as usize))
                        && final(self).cell_at(r, c) == Cell::Path) by {
                let ws = walls@;
                let kk = ws.len() * percentage / 100;
                if ws.take(kk).contains((r as usize, c as usize)) {
                    let j = choose|j: int| 0 <= j < kk && ws[j] == (r as usize, c as usize);
                    assert(ws.contains(ws[j]));
                    assert(final(self).cell_at(r, c) == Cell::Path);
                }
            }
        }
    }
}

/// The characters a maze text may use: wall, corridor, start and end marker.
pub open spec fn valid_maze_char(ch: char) -> bool {
    ch == '#' || ch == '.' || ch == 'S' || ch == 'E'
}

/// The cell a maze text character denotes; `S` and `E` are open cells.
pub open spec fn char_cell(ch: char) -> Cell {
    if ch == '#' {
        Cell::Wall
    } else {
        Cell::Path
    }
}

/// The character at text position `(y, x)`.
pub open spec fn char_at(lines: Seq<Vec<char>>, y: int, x: int) -> char {
    lines[y]@[x]
}

/// `(y, x)` is a position of the text grid.
pub open spec fn text_pos(lines: Seq<Vec<char>>, y: int, x: int) -> bool {
    0 <= y < lines.len() && 0 <= x < lines[y]@.len()
}

/// `(y1, x1)` comes strictly before `(y2, x2)` in row-major reading order.
pub open spec fn reads_before(y1: int, x1: int, y2: int, x2: int) -> bool {
    y1 < y2 || (y1 == y2 && x1 < x2)
}

/// The parse rejects position `(y, x)`: its character is not a maze character,
/// or it repeats a start or end marker that appeared earlier in reading order.
pub open spec fn offending(lines: Seq<Vec<char>>, y: int, x: int) -> bool {
    ||| !valid_maze_char(char_at(lines, y, x))
    ||| (char_at(lines, y, x) == 'S' && exists|y2: int, x2: int|
        text_pos(lines, y2, x2) && reads_before(y2, x2, y, x) && char_at(lines, y2, x2) == 'S')
    ||| (char_at(lines, y, x) == 'E' && exists|y2: int, x2: int|
        text_pos(lines, y2, x2) && reads_before(y2, x2, y, x) && char_at(lines, y2, x2) == 'E')
}

impl Maze {
    /// Parse a rectangular text grid: `#` is a wall, `.` a corridor, `S` the
    /// unique start and `E` the unique end, both open. The first position in
    /// reading order with any other character, or with a repeated `S` or `E`,
    /// is reported as `InvalidCharacter`; a grid without both markers is
    /// `MissingStartOrEnd`.
    pub fn from_lines(lines: &Vec<Vec<char>>) -> (r: Result<Maze, MazeError>)
        requires
            forall|i: int| 0 <= i < lines@.len() ==> (#[trigger] lines@[i])@.len() == lines@[0]@.len(),
        ensures
            match r {
                Ok(m) => {
                    &&& m.wf()
                    &&& m.rows() == lines@.len()
                    &&& lines@.len() > 0 && m.cols() == lines@[0]@.len()
                    &&& forall|y: int, x: int| text_pos(lines@, y, x)
                        ==> m.cell_at(y, x) == char_cell(#[trigger] char_at(lines@, y, x))
                    &&& forall|y: int, x: int| text_pos(lines@, y, x)
                        ==> !offending(lines@, y, x)
                    &&& text_pos(lines@, m.start.0 as int, m.start.1 as int)
                    &&& char_at(lines@, m.start.0 as int, m.start.1 as int) == 'S'
                    &&& text_pos(lines@, m.end.0 as int, m.end.1 as int)
                    &&& char_at(lines@, m.end.0 as int, m.end.1 as int) == 'E'
                },
                Err(MazeError::InvalidCharacter(ch, y, x)) => {
                    &&& text_pos(lines@, y as int, x as int)
                    &&& offending(lines@, y as int, x as int)
                    &&& ch == char_at(lines@, y as int, x as int)
                    &&& forall|y2: int, x2: int| text_pos(lines@, y2, x2)
                        && reads_before(y2, x2, y as int, x as int)
                        ==> !offending(lines@, y2, x2)
                },
                Err(MazeError::MissingStartOrEnd) => {
                    &&& forall|y: int, x: int| text_pos(lines@, y, x)
                        ==> !offending(lines@, y, x)
                    &&& (forall|y: int, x: int| text_pos(lines@, y, x)
                            ==> #[trigger] char_at(lines@, y, x) != 'S')
                        || (forall|y: int, x: int| text_pos(lines@, y, x)
                            ==> #[trigger] char_at(lines@, y, x) != 'E')
                },
                Err(MazeError::Io(_)) => false,
            },
    {
        let rows = lines.len();
        let cols = if rows > 0 { lines[0].len() } else { 0 };
        let mut cells: Vec<Vec<Cell>> = Vec::new();
        let mut start_opt: Option<(usize, usize)> = None;
        let mut end_opt: Option<(usize, usize)> = None;

        for y in 0..rows
            invariant
                rows == lines@.len(),
                forall|i: int| 0 <= i < lines@.len()
                    ==> (#[trigger] lines@[i])@.len() == lines@[0]@.len(),
                rows > 0 ==> cols == lines@[0]@.len(),
                cells@.len() == y,
                forall|i: int| 0 <= i < y ==> (#[trigger] cells@[i])@.len() == cols,
                forall|y2: int, x2: int| 0 <= y2 < y && 0 <= x2 < cols
                    ==> cells@[y2]@[x2] == char_cell(#[trigger] char_at(lines@, y2, x2)),
                forall|y2: int, x2: int| text_pos(lines@, y2, x2) && y2 < y
                    ==> !offending(lines@, y2, x2),
                start_opt is None ==> forall|y2: int, x2: int|
                    text_pos(lines@, y2, x2) && y2 < y
                        ==> #[trigger] char_at(lines@, y2, x2) != 'S',
                start_opt matches Some(s) ==> {
                    &&& s.0 < y && s.1 < cols
                    &&& char_at(lines@, s.0 as int, s.1 as int) == 'S'
                },
                end_opt is None ==> forall|y2: int, x2: int|
                    text_pos(lines@, y2, x2) && y2 < y
                        ==> #[trigger] char_at(lines@, y2, x2) != 'E',
                end_opt matches Some(e) ==> {
                    &&& e.0 < y && e.1 < cols
                    &&& char_at(lines@, e.0 as int, e.1 as int) == 'E'
                },
        {
            let mut row: Vec<Cell> = Vec::new();
            for x in 0..cols
                invariant
                    rows == lines@.len(),
                    y < rows,
                    forall|i: int| 0 <= i < lines@.len()
                        ==> (#[trigger] lines@[i])@.len() == lines@[0]@.len(),
                    cols == lines@[0]@.len(),
                    cells@.len() == y,
                    forall|i: int| 0 <= i < y ==> (#[trigger] cells@[i])@.len() == cols,
                    forall|y2: int, x2: int| 0 <= y2 < y && 0 <= x2 < cols
                        ==> cells@[y2]@[x2] == char_cell(#[trigger] char_at(lines@, y2, x2)),
                    row@.len() == x,
                    forall|x2: int| 0 <= x2 < x
                        ==> row@[x2] == char_cell(#[trigger] char_at(lines@, y as int, x2)),
                    forall|y2: int, x2: int| text_pos(lines@, y2, x2)
                        && reads_before(y2, x2, y as int, x as int)
                        ==> !offending(lines@, y2, x2),
                    start_opt is None ==> forall|y2: int, x2: int|
                        text_pos(lines@, y2, x2) && reads_before(y2, x2, y as int, x as int)
                            ==> #[trigger] char_at(lines@, y2, x2) != 'S',
                    start_opt matches Some(s) ==> {
                        &&& text_pos(lines@, s.0 as int, s.1 as int)
                        &&& reads_before(s.0 as int, s.1 as int, y as int, x as int)
                        &&& char_at(lines@, s.0 as int, s.1 as int) == 'S'
                    },
                    end_opt is None ==> forall|y2: int, x2: int|
                        text_pos(lines@, y2, x2) && reads_before(y2, x2, y as int, x as int)
                            ==> #[trigger] char_at(lines@, y2, x2) != 'E',
                    end_opt matches Some(e) ==> {
                        &&& text_pos(lines@, e.0 as int, e.1 as int)
                        &&& reads_before(e.0 as int, e.1 as int, y as int, x as int)
                        &&& char_at(lines@, e.0 as int, e.1 as int) == 'E'
                    },
            {
                let ch = lines[y][x];
                proof {
                    assert(ch == char_at(lines@, y as int, x as int));
                }
                if ch == '#' {
                    row.push(Cell::Wall);
                } else if ch == '.' {
                    row.push(Cell::Path);
                } else if ch == 'S' {
                    if start_opt.is_some() {
                        proof {
                            assert(offending(lines@, y as int, x as int));
                        }
                        return Err(MazeError::InvalidCharacter(ch, y, x));
                    }
                    start_opt = Some((y, x));
                    row.push(Cell::Path);
                } else if ch == 'E' {
                    if end_opt.is_some() {
                        proof {
                            assert(offending(lines@, y as int, x as int));
                        }
                        return Err(MazeError::InvalidCharacter(ch, y, x));
                    }
                    end_opt = Some((y, x));
                    row.push(Cell::Path);
                } else {
                    return Err(MazeError::InvalidCharacter(ch, y, x));
                }
                proof {
                    assert(!offending(lines@, y as int, x as int));
                    assert forall|y2: int, x2: int| text_pos(lines@, y2, x2)
                        && reads_before(y2, x2, y as int, x as int + 1)
                        implies !offending(lines@, y2, x2) by {
                        if !reads_before(y2, x2, y as int, x as int) {
                            assert(y2 == y as int && x2 == x as int);
                        }
                    }
                }
            }
            cells.push(row);
        }

        if rows == 0 {
            return Err(MazeError::MissingStartOrEnd);
        }
        match (start_opt, end_opt) {
            (Some(s), Some(e)) => {
                let m = Maze { cells, start: s, end: e };
                proof {
                    assert(m.cell_at(s.0 as int, s.1 as int) == char_cell('S'));
                    assert(m.cell_at(e.0 as int, e.1 as int) == char_cell('E'));
                    assert(m.open_at(m.start));
                    assert(m.open_at(m.end));
                    assert forall|y2: int, x2: int| text_pos(lines@, y2, x2)
                        implies !offending(lines@, y2, x2) by {
                        assert(reads_before(y2, x2, rows as int, 0));
                    }
                }
                Ok(m)
            },
            _ => Err(MazeError::MissingStartOrEnd),
        }
    }
}

/// The adjacency-list form of a maze: one entry per open cell, in row-major
/// order, pairing the cell with its open orthogonal neighbours and the uniform
/// edge weight of one. A cell without an entry is a wall.
pub struct Graph {
    pub entries: Vec<((usize, usize), Vec<((usize, usize), usize)>)>,
}

/// The cells that the entries of an adjacency list are keyed by, in order.
pub open spec fn graph_keys(entries: Seq<((usize, usize), Vec<((usize, usize), usize)>)>) -> Seq<(usize, usize)> {
    entries.map_values(|e: ((usize, usize), Vec<((usize, usize), usize)>)| e.0)
}

impl Maze {
    /// The open cells among the first `x` of row `y`, in order.
    pub open spec fn open_cells_in_row(&self, y: int, x: int) -> Seq<(usize, usize)>
        decreases x,
    {
        if x <= 0 {
            Seq::empty()
        } else {
            self.open_cells_in_row(y, x - 1) + (if self.cell_at(y, x - 1) != Cell::Wall {
                seq![(y as usize, (x - 1) as usize)]
            } else {
                Seq::empty()
            })
        }
    }

    /// The open cells in the first `y` rows, in row-major order.
    pub open spec fn open_cells_upto(&self, y: int) -> Seq<(usize, usize)>
        decreases y,
    {
        if y <= 0 {
            Seq::empty()
        } else {
            self.open_cells_upto(y - 1) + self.open_cells_in_row(y - 1, self.cols())
        }
    }

    /// All open cells of the maze, in row-major order.
    pub open spec fn open_cells(&self) -> Seq<(usize, usize)> {
        self.open_cells_upto(self.rows())
    }

    /// The weighted adjacency entries built from the first `k` candidate
    /// neighbours, keeping the open ones.
    pub open spec fn adj_upto(&self, nbrs: Seq<(usize, usize)>, k: int) -> Seq<((usize, usize), usize)>
        decreases k,
    {
        if k <= 0 {
            Seq::empty()
        } else {
            self.adj_upto(nbrs, k - 1) + (if self.open_at(nbrs[k - 1]) {
                seq![(nbrs[k - 1], 1usize)]
            } else {
                Seq::empty()
            })
        }
    }

    /// The weighted adjacency list of `p`: its open orthogonal neighbours in
    /// north, south, west, east order, each with weight one.
    pub open spec fn adj_of(&self, p: (usize, usize)) -> Seq<((usize, usize), usize)> {
        let nbrs = neighbor_seq(p.0, p.1, self.rows() as usize, self.cols() as usize);
        self.adj_upto(nbrs, nbrs.len() as int)
    }

    /// Convert the maze to its adjacency-list graph: one entry for every open
    /// cell, in row-major order, listing its open neighbours with weight one.
    /// The result is a pure function of the current cell array.
    pub fn to_graph(&self) -> (g: Graph)
        requires
            self.wf(),
        ensures
            graph_keys(g.entries@) == self.open_cells(),
            forall|i: int| 0 <= i < g.entries@.len()
                ==> (#[trigger] g.entries@[i]).1@ == self.adj_of(g.entries@[i].0),
    {
        let rows = self.cells.len();
        let cols = self.cells[0].len();
        let mut entries: Vec<((usize, usize), Vec<((usize, usize), usize)>)> = Vec::new();
        for y in 0..rows
            invariant
                self.wf(),
                rows == self.rows(),
                cols == self.cols(),
                graph_keys(entries@) == self.open_cells_upto(y as int),
                forall|i: int| 0 <= i < entries@.len()
                    ==> (#[trigger] entries@[i]).1@ == self.adj_of(entries@[i].0),
        {
            for x in 0..cols
                invariant
                    self.wf(),
                    rows == self.rows(),
                    cols == self.cols(),
                    y < rows,
                    graph_keys(entries@)
                        == self.open_cells_upto(y as int) + self.open_cells_in_row(y as int, x as int),
                    forall|i: int| 0 <= i < entries@.len()
                        ==> (#[trigger] entries@[i]).1@ == self.adj_of(entries@[i].0),
            {
                if self.cells[y][x] != Cell::Wall {
                    let neighbors = Maze::get_neighbors(y, x, rows, cols);
                    proof {
                        lemma_neighbor_seq_sound(y, x, rows, cols);
                    }
                    let ghost nseq = neighbors@;
                    let mut adj: Vec<((usize, usize), usize)> = Vec::new();
                    for k in 0..neighbors.len()
                        invariant
                            self.wf(),
                            rows == self.rows(),
                            cols == self.cols(),
                            neighbors@ == nseq,
                            forall|i: int| 0 <= i < nseq.len()
                                ==> (#[trigger] nseq[i]).0 < rows && nseq[i].1 < cols,
                            adj@ == self.adj_upto(nseq, k as int),
                    {
                        let (nr, nc) = neighbors[k];
                        if self.cells[nr][nc] != Cell::Wall {
                            adj.push(((nr, nc), 1));
                        }
                        proof {
                            assert(adj@ =~= self.adj_upto(nseq, k + 1));
                        }
                    }
                    let ghost entries_old = entries@;
                    entries.push(((y, x), adj));
                    proof {
                        assert(adj@ == self.adj_of((y, x)));
                        assert(graph_keys(entries@)
                            =~= graph_keys(entries_old).push((y, x)));
                        assert(graph_keys(entries@)
                            =~= self.open_cells_upto(y as int)
                                + self.open_cells_in_row(y as int, x as int + 1));
                    }
                } else {
                    proof {
                        assert(graph_keys(entries@)
                            =~= self.open_cells_upto(y as int)
                                + self.open_cells_in_row(y as int, x as int + 1));
                    }
                }
            }
            proof {
                assert(graph_keys(entries@) =~= self.open_cells_upto(y as int + 1));
            }
        }
        Graph { entries }
    }
}

/// Converting an unmodified maze to a graph twice yields identical adjacency
/// mappings: the contract of `to_graph` determines the entries completely, so
/// any two results agree entry by entry.
pub proof fn lemma_to_graph_deterministic(m: &Maze, g1: &Graph, g2: &Graph)
    requires
        graph_keys(g1.entries@) == m.open_cells(),
        forall|i: int| 0 <= i < g1.entries@.len()
            ==> (#[trigger] g1.entries@[i]).1@ == m.adj_of(g1.entries@[i].0),
        graph_keys(g2.entries@) == m.open_cells(),
        forall|i: int| 0 <= i < g2.entries@.len()
            ==> (#[trigger] g2.entries@[i]).1@ == m.adj_of(g2.entries@[i].0),
    ensures
        g1.entries@.len() == g2.entries@.len(),
        forall|i: int| 0 <= i < g1.entries@.len() ==> {
            &&& (#[trigger] g1.entries@[i]).0 == g2.entries@[i].0
            &&& g1.entries@[i].1@ == g2.entries@[i].1@
        },
{
    assert(graph_keys(g1.entries@).len() == g1.entries@.len());
    assert(graph_keys(g2.entries@).len() == g2.entries@.len());
    assert forall|i: int| 0 <= i < g1.entries@.len() implies {
        &&& (#[trigger] g1.entries@[i]).0 == g2.entries@[i].0
        &&& g1.entries@[i].1@ == g2.entries@[i].1@
    } by {
        assert(graph_keys(g1.entries@)[i] == g1.entries@[i].0);
        assert(graph_keys(g2.entries@)[i] == g2.entries@[i].0);
    }
}

/// If a set of cells contains `p[0]` and is closed under stepping to adjacent
/// open cells, it contains every cell of the walk `p` - in particular its end.
pub proof fn lemma_closed_set_covers_path(m: &Maze, s: Set<(usize, usize)>, p: Seq<(usize, usize)>)
    requires
        m.is_path(p),
        s.contains(p[0]),
        forall|a: (usize, usize), b: (usize, usize)|
            s.contains(a) && m.open_at(b) && #[trigger] adjacent(a, b) ==> s.contains(b),
    ensures
        s.contains(p[p.len() - 1]),
    decreases p.len(),
{
    if p.len() > 1 {
        assert(adjacent(p[0], p[1]));
        assert(s.contains(p[1]));
        let q = p.subrange(1, p.len() as int);
        assert(m.is_path(q));
        lemma_closed_set_covers_path(m, s, q);
        assert(q[q.len() - 1] == p[p.len() - 1]);
    }
}

} // verus!
