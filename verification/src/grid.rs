use vstd::prelude::*;

use crate::cell::Cell;

verus! {

/// The table has `rows` rows of `cols` entries each.
pub open spec fn table_wf<T>(t: Seq<Vec<T>>, rows: int, cols: int) -> bool {
    &&& t.len() == rows
    &&& forall|i: int| 0 <= i < rows ==> (#[trigger] t[i])@.len() == cols
}

/// A fresh `rows` x `cols` table with every entry equal to `val`.
pub fn filled_table<T: Copy>(val: T, rows: usize, cols: usize) -> (t: Vec<Vec<T>>)
    ensures
        table_wf(t@, rows as int, cols as int),
        forall|i: int, j: int| 0 <= i < rows && 0 <= j < cols ==> #[trigger] t@[i]@[j] == val,
{
    let mut t: Vec<Vec<T>> = Vec::new();
    for i in 0..rows
        invariant
            t@.len() == i,
            forall|k: int| 0 <= k < i ==> (#[trigger] t@[k])@.len() == cols,
            forall|k: int, j: int| 0 <= k < i && 0 <= j < cols ==> #[trigger] t@[k]@[j] == val,
    {
        let mut row: Vec<T> = Vec::new();
        for j in 0..cols
            invariant
                row@.len() == j,
                forall|k: int| 0 <= k < j ==> #[trigger] row@[k] == val,
        {
            row.push(val);
        }
        t.push(row);
    }
    t
}

/// Number of `false` entries among the first `j` of the row.
pub open spec fn unmarked_in_row(r: Seq<bool>, j: int) -> nat
    decreases j,
{
    if j <= 0 {
        0
    } else {
        unmarked_in_row(r, j - 1) + (if r[j - 1] { 0nat } else { 1nat })
    }
}

/// Number of `false` entries in the first `i` rows of the table.
pub open spec fn unmarked(t: Seq<Vec<bool>>, i: int) -> nat
    decreases i,
{
    if i <= 0 {
        0
    } else {
        unmarked(t, i - 1) + unmarked_in_row(t[i - 1]@, t[i - 1]@.len() as int)
    }
}

proof fn lemma_row_mark(r1: Seq<bool>, r2: Seq<bool>, c: int, j: int)
    requires
        0 <= c < r1.len(),
        !r1[c],
        r2 == r1.update(c, true),
        j <= r1.len(),
    ensures
        unmarked_in_row(r1, j) == unmarked_in_row(r2, j) + (if c < j { 1nat } else { 0nat }),
    decreases j,
{
    if j > 0 {
        lemma_row_mark(r1, r2, c, j - 1);
    }
}

/// Setting one `false` entry to `true` lowers the count of `false` entries by
/// exactly one.
pub proof fn lemma_mark(t1: Seq<Vec<bool>>, t2: Seq<Vec<bool>>, r: int, c: int, i: int)
    requires
        0 <= r < t1.len(),
        t2.len() == t1.len(),
        0 <= c < t1[r]@.len(),
        !t1[r]@[c],
        t2[r]@ == t1[r]@.update(c, true),
        forall|k: int| 0 <= k < t1.len() && k != r ==> (#[trigger] t2[k])@ == t1[k]@,
        i <= t1.len(),
    ensures
        unmarked(t1, i) == unmarked(t2, i) + (if r < i { 1nat } else { 0nat }),
    decreases i,
{
    if i > 0 {
        lemma_mark(t1, t2, r, c, i - 1);
        if i - 1 == r {
            lemma_row_mark(t1[r]@, t2[r]@, c, t1[r]@.len() as int);
        }
    }
}

/// `v` capped at `cap`.
pub open spec fn capped(v: usize, cap: nat) -> nat {
    if v as nat <= cap {
        v as nat
    } else {
        cap
    }
}

/// Sum of the capped values among the first `j` of the row.
pub open spec fn pot_in_row(r: Seq<usize>, cap: nat, j: int) -> nat
    decreases j,
{
    if j <= 0 {
        0
    } else {
        pot_in_row(r, cap, j - 1) + capped(r[j - 1], cap)
    }
}

/// Sum of the capped values in the first `i` rows of the table.
pub open spec fn pot(t: Seq<Vec<usize>>, cap: nat, i: int) -> nat
    decreases i,
{
    if i <= 0 {
        0
    } else {
        pot(t, cap, i - 1) + pot_in_row(t[i - 1]@, cap, t[i - 1]@.len() as int)
    }
}

proof fn lemma_row_pot_lower(r1: Seq<usize>, r2: Seq<usize>, cap: nat, c: int, v: usize, j: int)
    requires
        0 <= c < r1.len(),
        r2 == r1.update(c, v),
        capped(v, cap) < capped(r1[c], cap),
        j <= r1.len(),
    ensures
        pot_in_row(r2, cap, j) + (if c < j { capped(r1[c], cap) - capped(v, cap) } else { 0int })
            == pot_in_row(r1, cap, j),
    decreases j,
{
    if j > 0 {
        lemma_row_pot_lower(r1, r2, cap, c, v, j - 1);
    }
}

/// Lowering one capped entry strictly lowers the capped sum.
pub proof fn lemma_pot_lower(t1: Seq<Vec<usize>>, t2: Seq<Vec<usize>>, cap: nat, r: int, c: int, v: usize, i: int)
    requires
        0 <= r < t1.len(),
        t2.len() == t1.len(),
        0 <= c < t1[r]@.len(),
        t2[r]@ == t1[r]@.update(c, v),
        capped(v, cap) < capped(t1[r]@[c], cap),
        forall|k: int| 0 <= k < t1.len() && k != r ==> (#[trigger] t2[k])@ == t1[k]@,
        i <= t1.len(),
    ensures
        pot(t2, cap, i) + (if r < i { capped(t1[r]@[c], cap) - capped(v, cap) } else { 0int })
            == pot(t1, cap, i),
    decreases i,
{
    if i > 0 {
        lemma_pot_lower(t1, t2, cap, r, c, v, i - 1);
        if i - 1 == r {
            lemma_row_pot_lower(t1[r]@, t2[r]@, cap, c, v, t1[r]@.len() as int);
        }
    }
}

/// Number of `usize::MAX` entries among the first `j` of the row.
pub open spec fn unset_in_row(r: Seq<usize>, j: int) -> nat
    decreases j,
{
    if j <= 0 {
        0
    } else {
        unset_in_row(r, j - 1) + (if r[j - 1] == usize::MAX { 1nat } else { 0nat })
    }
}

/// Number of `usize::MAX` entries in the first `i` rows of the table.
pub open spec fn unset(t: Seq<Vec<usize>>, i: int) -> nat
    decreases i,
{
    if i <= 0 {
        0
    } else {
        unset(t, i - 1) + unset_in_row(t[i - 1]@, t[i - 1]@.len() as int)
    }
}

proof fn lemma_row_set(r1: Seq<usize>, r2: Seq<usize>, c: int, v: usize, j: int)
    requires
        0 <= c < r1.len(),
        r1[c] == usize::MAX,
        v != usize::MAX,
        r2 == r1.update(c, v),
        j <= r1.len(),
    ensures
        unset_in_row(r1, j) == unset_in_row(r2, j) + (if c < j { 1nat } else { 0nat }),
    decreases j,
{
    if j > 0 {
        lemma_row_set(r1, r2, c, v, j - 1);
    }
}

/// Overwriting one `usize::MAX` entry with a real value lowers the count of
/// `usize::MAX` entries by exactly one.
pub proof fn lemma_set(t1: Seq<Vec<usize>>, t2: Seq<Vec<usize>>, r: int, c: int, v: usize, i: int)
    requires
        0 <= r < t1.len(),
        t2.len() == t1.len(),
        0 <= c < t1[r]@.len(),
        t1[r]@[c] == usize::MAX,
        v != usize::MAX,
        t2[r]@ == t1[r]@.update(c, v),
        forall|k: int| 0 <= k < t1.len() && k != r ==> (#[trigger] t2[k])@ == t1[k]@,
        i <= t1.len(),
    ensures
        unset(t1, i) == unset(t2, i) + (if r < i { 1nat } else { 0nat }),
    decreases i,
{
    if i > 0 {
        lemma_set(t1, t2, r, c, v, i - 1);
        if i - 1 == r {
            lemma_row_set(t1[r]@, t2[r]@, c, v, t1[r]@.len() as int);
        }
    }
}

proof fn lemma_row_set_keep(r1: Seq<usize>, r2: Seq<usize>, c: int, v: usize, j: int)
    requires
        0 <= c < r1.len(),
        r1[c] != usize::MAX,
        v != usize::MAX,
        r2 == r1.update(c, v),
        j <= r1.len(),
    ensures
        unset_in_row(r1, j) == unset_in_row(r2, j),
    decreases j,
{
    if j > 0 {
        lemma_row_set_keep(r1, r2, c, v, j - 1);
    }
}

/// Overwriting a real entry with another real value keeps the count of
/// `usize::MAX` entries unchanged.
pub proof fn lemma_set_keep(t1: Seq<Vec<usize>>, t2: Seq<Vec<usize>>, r: int, c: int, v: usize, i: int)
    requires
        0 <= r < t1.len(),
        t2.len() == t1.len(),
        0 <= c < t1[r]@.len(),
        t1[r]@[c] != usize::MAX,
        v != usize::MAX,
        t2[r]@ == t1[r]@.update(c, v),
        forall|k: int| 0 <= k < t1.len() && k != r ==> (#[trigger] t2[k])@ == t1[k]@,
        i <= t1.len(),
    ensures
        unset(t1, i) == unset(t2, i),
    decreases i,
{
    if i > 0 {
        lemma_set_keep(t1, t2, r, c, v, i - 1);
        if i - 1 == r {
            lemma_row_set_keep(t1[r]@, t2[r]@, c, v, t1[r]@.len() as int);
        }
    }
}

/// A row-major flat index stays below the grid size.
pub proof fn lemma_flat_index(r: int, c: int, h: int, w: int)
    requires
        0 <= r < h,
        0 <= c < w,
    ensures
        0 <= r * w + c < h * w,
{
    assert(0 <= r * w + c < h * w) by (nonlinear_arith)
        requires 0 <= r < h, 0 <= c < w,
    ;
}

/// Number of wall cells among the first `j` of the row.
pub open spec fn walls_in_row(r: Seq<Cell>, j: int) -> nat
    decreases j,
{
    if j <= 0 {
        0
    } else {
        walls_in_row(r, j - 1) + (if r[j - 1] == Cell::Wall { 1nat } else { 0nat })
    }
}

/// Number of wall cells in the first `i` rows of the grid.
pub open spec fn wall_count(g: Seq<Vec<Cell>>, i: int) -> nat
    decreases i,
{
    if i <= 0 {
        0
    } else {
        wall_count(g, i - 1) + walls_in_row(g[i - 1]@, g[i - 1]@.len() as int)
    }
}

proof fn lemma_row_carve(r1: Seq<Cell>, r2: Seq<Cell>, c: int, j: int)
    requires
        0 <= c < r1.len(),
        r2 == r1.update(c, Cell::Path),
        j <= r1.len(),
    ensures
        walls_in_row(r2, j) + (if c < j && r1[c] == Cell::Wall { 1nat } else { 0nat })
            == walls_in_row(r1, j),
    decreases j,
{
    if j > 0 {
        lemma_row_carve(r1, r2, c, j - 1);
    }
}

/// Carving one wall cell open lowers the number of walls by exactly one;
/// carving an already open cell leaves it unchanged.
pub proof fn lemma_carve(g1: Seq<Vec<Cell>>, g2: Seq<Vec<Cell>>, r: int, c: int, i: int)
    requires
        0 <= r < g1.len(),
        g2.len() == g1.len(),
        0 <= c < g1[r]@.len(),
        g2[r]@ == g1[r]@.update(c, Cell::Path),
        forall|k: int| 0 <= k < g1.len() && k != r ==> (#[trigger] g2[k])@ == g1[k]@,
        i <= g1.len(),
    ensures
        wall_count(g2, i) + (if r < i && g1[r]@[c] == Cell::Wall { 1nat } else { 0nat })
            == wall_count(g1, i),
    decreases i,
{
    if i > 0 {
        lemma_carve(g1, g2, r, c, i - 1);
        if i - 1 == r {
            lemma_row_carve(g1[r]@, g2[r]@, c, g1[r]@.len() as int);
        }
    }
}

proof fn lemma_row_all_unset(r: Seq<usize>, j: int)
    requires
        0 <= j <= r.len(),
        forall|k: int| 0 <= k < r.len() ==> r[k] == usize::MAX,
    ensures
        unset_in_row(r, j) == j,
    decreases j,
{
    if j > 0 {
        lemma_row_all_unset(r, j - 1);
    }
}

/// In a table whose entries are all `usize::MAX`, the count of `usize::MAX`
/// entries is the full size of the table.
pub proof fn lemma_all_unset(t: Seq<Vec<usize>>, rows: int, cols: int, i: int)
    requires
        table_wf(t, rows, cols),
        0 <= i <= rows,
        0 <= cols,
        forall|k: int, j: int| 0 <= k < rows && 0 <= j < cols ==> #[trigger] t[k]@[j] == usize::MAX,
    ensures
        unset(t, i) == i * cols,
    decreases i,
{
    if i > 0 {
        lemma_all_unset(t, rows, cols, i - 1);
        assert(forall|j: int| 0 <= j < t[i - 1]@.len() ==> #[trigger] t[i - 1]@[j] == usize::MAX);
        lemma_row_all_unset(t[i - 1]@, cols);
        assert(unset_in_row(t[i - 1]@, cols) == cols);
        assert(i * cols == (i - 1) * cols + cols) by (nonlinear_arith);
    } else {
        assert(i * cols == 0) by (nonlinear_arith)
            requires i == 0;
    }
}

} // verus!
