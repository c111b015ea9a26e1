//! Counting specs over a grid's cells: how many cells are visited and how
//! many passages are open.  An open passage between two grid-adjacent
//! cells is counted once, from its canonical side: the south or east wall
//! of the cell with the smaller row or column index.

use vstd::prelude::*;
use crate::grid::{Cell, Direction, cell_at, wall_at, in_bounds};

verus! {

/// How many of the first `n` cells (in row-major order) are visited.
pub open spec fn visited_count_upto(cells: Seq<Cell>, n: int) -> int
    decreases n,
{
    if n <= 0 {
        0
    } else {
        visited_count_upto(cells, n - 1) + if cells[n - 1].visited {
            1int
        } else {
            0int
        }
    }
}

/// How many cells of the grid are visited.
pub open spec fn visited_count(cells: Seq<Cell>) -> int {
    visited_count_upto(cells, cells.len() as int)
}

/// The open passages counted from cell `(r, c)`: its open south wall when
/// a southern neighbor exists, plus its open east wall when an eastern
/// neighbor exists.
pub open spec fn cell_open_edges(cells: Seq<Cell>, w: usize, h: usize, r: int, c: int) -> int {
    (if r + 1 < h && !wall_at(cells, w, r, c, Direction::South) {
        1int
    } else {
        0int
    }) + (if c + 1 < w && !wall_at(cells, w, r, c, Direction::East) {
        1int
    } else {
        0int
    })
}

/// The open passages counted from the first `c` cells of row `r`.
pub open spec fn row_open_edges(cells: Seq<Cell>, w: usize, h: usize, r: int, c: int) -> int
    decreases c,
{
    if c <= 0 {
        0
    } else {
        row_open_edges(cells, w, h, r, c - 1) + cell_open_edges(cells, w, h, r, c - 1)
    }
}

/// The open passages counted from the first `r` full rows.
pub open spec fn open_edges_upto(cells: Seq<Cell>, w: usize, h: usize, r: int) -> int
    decreases r,
{
    if r <= 0 {
        0
    } else {
        open_edges_upto(cells, w, h, r - 1) + row_open_edges(cells, w, h, r - 1, w as int)
    }
}

/// How many passages of the grid are open, each counted once.
pub open spec fn open_edge_count(cells: Seq<Cell>, w: usize, h: usize) -> int {
    open_edges_upto(cells, w, h, h as int)
}

/// The visited count of a prefix lies between 0 and the prefix length.
pub proof fn lemma_visited_count_upto_bounds(cells: Seq<Cell>, n: int)
    requires
        0 <= n,
    ensures
        0 <= visited_count_upto(cells, n) <= n,
    decreases n,
{
    if n > 0 {
        lemma_visited_count_upto_bounds(cells, n - 1);
    }
}

/// Two cell sequences that agree on the visited flag of every cell below
/// `n` have the same visited prefix count.
pub proof fn lemma_visited_count_upto_agree(c1: Seq<Cell>, c2: Seq<Cell>, n: int)
    requires
        forall|k: int| 0 <= k < n ==> c1[k].visited == c2[k].visited,
    ensures
        visited_count_upto(c1, n) == visited_count_upto(c2, n),
    decreases n,
{
    if n > 0 {
        lemma_visited_count_upto_agree(c1, c2, n - 1);
    }
}

/// Marking one unvisited cell visited raises the visited prefix count by
/// one once the prefix covers that cell.
pub proof fn lemma_visited_count_upto_set(c1: Seq<Cell>, c2: Seq<Cell>, j: int, n: int)
    requires
        0 <= j,
        forall|k: int| 0 <= k < n && k != j ==> c1[k].visited == c2[k].visited,
        !c1[j].visited,
        c2[j].visited,
    ensures
        visited_count_upto(c2, n) == visited_count_upto(c1, n) + if j < n {
            1int
        } else {
            0int
        },
    decreases n,
{
    if n > 0 {
        lemma_visited_count_upto_set(c1, c2, j, n - 1);
    }
}

/// A prefix with an unvisited cell in it falls short of a full count.
pub proof fn lemma_visited_count_upto_missing(cells: Seq<Cell>, j: int, n: int)
    requires
        0 <= j < n,
        !cells[j].visited,
    ensures
        visited_count_upto(cells, n) < n,
    decreases n,
{
    if j == n - 1 {
        lemma_visited_count_upto_bounds(cells, n - 1);
    } else {
        lemma_visited_count_upto_missing(cells, j, n - 1);
    }
}

/// A prefix of all-visited cells has a full visited count.
pub proof fn lemma_visited_count_upto_full(cells: Seq<Cell>, n: int)
    requires
        0 <= n,
        forall|k: int| 0 <= k < n ==> cells[k].visited,
    ensures
        visited_count_upto(cells, n) == n,
    decreases n,
{
    if n > 0 {
        lemma_visited_count_upto_full(cells, n - 1);
    }
}

/// A prefix without visited cells has visited count zero.
pub proof fn lemma_visited_count_upto_none(cells: Seq<Cell>, n: int)
    requires
        forall|k: int| 0 <= k < n ==> !cells[k].visited,
    ensures
        visited_count_upto(cells, n) == 0,
    decreases n,
{
    if n > 0 {
        lemma_visited_count_upto_none(cells, n - 1);
    }
}

/// Two cell sequences that agree on every cell of row `r` below column `c`
/// count the same open passages there.
pub proof fn lemma_row_open_edges_agree(
    c1: Seq<Cell>,
    c2: Seq<Cell>,
    w: usize,
    h: usize,
    r: int,
    c: int,
)
    requires
        forall|col: int| 0 <= col < c ==> cell_at(c1, w, r, col) == cell_at(c2, w, r, col),
    ensures
        row_open_edges(c1, w, h, r, c) == row_open_edges(c2, w, h, r, c),
    decreases c,
{
    if c > 0 {
        lemma_row_open_edges_agree(c1, c2, w, h, r, c - 1);
    }
}

/// When the two sequences differ in row `r` only at column `c0`, the row
/// count differs exactly by that cell's contribution.
pub proof fn lemma_row_open_edges_diff(
    c1: Seq<Cell>,
    c2: Seq<Cell>,
    w: usize,
    h: usize,
    r: int,
    c0: int,
    c: int,
)
    requires
        0 <= c0,
        forall|col: int| 0 <= col < c && col != c0 ==> cell_at(c1, w, r, col) == cell_at(
            c2,
            w,
            r,
            col,
        ),
    ensures
        row_open_edges(c2, w, h, r, c) == row_open_edges(c1, w, h, r, c) + if c0 < c {
            cell_open_edges(c2, w, h, r, c0) - cell_open_edges(c1, w, h, r, c0)
        } else {
            0int
        },
    decreases c,
{
    if c > 0 {
        lemma_row_open_edges_diff(c1, c2, w, h, r, c0, c - 1);
    }
}

/// When the two sequences differ only at cell `(r0, c0)`, the total open
/// passage count differs exactly by that cell's contribution.
pub proof fn lemma_open_edges_upto_diff(
    c1: Seq<Cell>,
    c2: Seq<Cell>,
    w: usize,
    h: usize,
    r0: int,
    c0: int,
    r: int,
)
    requires
        0 <= r0,
        0 <= c0 < w,
        forall|r2: int, col: int|
            0 <= r2 < r && 0 <= col < w && !(r2 == r0 && col == c0) ==> cell_at(c1, w, r2, col)
                == cell_at(c2, w, r2, col),
    ensures
        open_edges_upto(c2, w, h, r) == open_edges_upto(c1, w, h, r) + if r0 < r {
            cell_open_edges(c2, w, h, r0, c0) - cell_open_edges(c1, w, h, r0, c0)
        } else {
            0int
        },
    decreases r,
{
    if r > 0 {
        lemma_open_edges_upto_diff(c1, c2, w, h, r0, c0, r - 1);
        if r - 1 == r0 {
            lemma_row_open_edges_diff(c1, c2, w, h, r - 1, c0, w as int);
        } else {
            lemma_row_open_edges_agree(c1, c2, w, h, r - 1, w as int);
        }
    }
}

/// A sequence that differs from another at a single cell shifts the open
/// passage count by exactly that cell's contribution.
pub proof fn lemma_open_edge_count_single_cell(
    c1: Seq<Cell>,
    c2: Seq<Cell>,
    w: usize,
    h: usize,
    r0: int,
    c0: int,
)
    requires
        in_bounds(w, h, r0, c0),
        forall|r2: int, col: int|
            in_bounds(w, h, r2, col) && !(r2 == r0 && col == c0) ==> cell_at(c1, w, r2, col)
                == cell_at(c2, w, r2, col),
    ensures
        open_edge_count(c2, w, h) == open_edge_count(c1, w, h) + cell_open_edges(c2, w, h, r0, c0)
            - cell_open_edges(c1, w, h, r0, c0),
{
    lemma_open_edges_upto_diff(c1, c2, w, h, r0, c0, h as int);
}

/// A grid whose south and east walls are all present has no open passage.
pub proof fn lemma_open_edge_count_closed(cells: Seq<Cell>, w: usize, h: usize)
    requires
        forall|r2: int, col: int|
            #![trigger cell_at(cells, w, r2, col)]
            in_bounds(w, h, r2, col) ==> cell_at(cells, w, r2, col).south && cell_at(
                cells,
                w,
                r2,
                col,
            ).east,
    ensures
        open_edge_count(cells, w, h) == 0,
{
    lemma_open_edges_upto_closed(cells, w, h, h as int);
}

/// Row-prefix version of [`lemma_open_edge_count_closed`].
pub proof fn lemma_open_edges_upto_closed(cells: Seq<Cell>, w: usize, h: usize, r: int)
    requires
        r <= h,
        forall|r2: int, col: int|
            #![trigger cell_at(cells, w, r2, col)]
            in_bounds(w, h, r2, col) ==> cell_at(cells, w, r2, col).south && cell_at(
                cells,
                w,
                r2,
                col,
            ).east,
    ensures
        open_edges_upto(cells, w, h, r) == 0,
    decreases r,
{
    if r > 0 {
        lemma_open_edges_upto_closed(cells, w, h, r - 1);
        lemma_row_open_edges_closed(cells, w, h, r - 1, w as int);
    }
}

/// Row version of [`lemma_open_edge_count_closed`].
pub proof fn lemma_row_open_edges_closed(cells: Seq<Cell>, w: usize, h: usize, r: int, c: int)
    requires
        0 <= r < h,
        c <= w,
        forall|r2: int, col: int|
            #![trigger cell_at(cells, w, r2, col)]
            in_bounds(w, h, r2, col) ==> cell_at(cells, w, r2, col).south && cell_at(
                cells,
                w,
                r2,
                col,
            ).east,
    ensures
        row_open_edges(cells, w, h, r, c) == 0,
    decreases c,
{
    if c > 0 {
        lemma_row_open_edges_closed(cells, w, h, r, c - 1);
    }
}

} // verus!
