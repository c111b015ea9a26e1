//! The maze data model: directions, cells and the grid, together with the
//! spec-level predicates (well-formedness, wall symmetry, closed boundary)
//! that the generator establishes and the level builder relies on.

use vstd::prelude::*;

verus! {

/// One of the four compass directions a cell wall can face.
///
/// North is toward smaller row indices, South toward larger ones;
/// West is toward smaller column indices, East toward larger ones.
#[derive(Clone, Copy, PartialEq, Eq, Structural, Debug)]
pub enum Direction {
    North,
    South,
    West,
    East,
}

impl Direction {
    /// The geometric opposite: the direction of the facing wall on a neighbor.
    pub open spec fn spec_opposite(self) -> Direction {
        match self {
            Direction::North => Direction::South,
            Direction::South => Direction::North,
            Direction::West => Direction::East,
            Direction::East => Direction::West,
        }
    }

    /// Returns the geometric opposite direction.
    #[verifier::when_used_as_spec(spec_opposite)]
    pub fn opposite(self) -> (r: Direction)
        ensures
            r == self.spec_opposite(),
    {
        match self {
            Direction::North => Direction::South,
            Direction::South => Direction::North,
            Direction::West => Direction::East,
            Direction::East => Direction::West,
        }
    }
}

/// One grid location: a generation-time `visited` marker and four wall
/// flags. `true` means the wall is present and solid; `false` means the
/// wall has been removed and the passage is open.
#[derive(Clone, Copy, PartialEq, Eq, Structural, Debug)]
pub struct Cell {
    pub visited: bool,
    pub north: bool,
    pub south: bool,
    pub west: bool,
    pub east: bool,
}

impl Cell {
    /// The wall flag of this cell facing `d`.
    pub open spec fn spec_wall(self, d: Direction) -> bool {
        match d {
            Direction::North => self.north,
            Direction::South => self.south,
            Direction::West => self.west,
            Direction::East => self.east,
        }
    }

    /// A fresh cell: unvisited, all four walls present.
    pub fn new() -> (c: Cell)
        ensures
            c == initial_cell(),
    {
        Cell { visited: false, north: true, south: true, west: true, east: true }
    }

    /// Reads the wall flag facing `d`.
    #[verifier::when_used_as_spec(spec_wall)]
    pub fn wall(self, d: Direction) -> (r: bool)
        ensures
            r == self.spec_wall(d),
    {
        match d {
            Direction::North => self.north,
            Direction::South => self.south,
            Direction::West => self.west,
            Direction::East => self.east,
        }
    }
}

/// The state every cell starts in: unvisited, all four walls present.
pub open spec fn initial_cell() -> Cell {
    Cell { visited: false, north: true, south: true, west: true, east: true }
}

/// Row index of the grid-adjacent cell in direction `d`.
pub open spec fn neighbor_row(r: int, d: Direction) -> int {
    match d {
        Direction::North => r - 1,
        Direction::South => r + 1,
        Direction::West => r,
        Direction::East => r,
    }
}

/// Column index of the grid-adjacent cell in direction `d`.
pub open spec fn neighbor_col(c: int, d: Direction) -> int {
    match d {
        Direction::North => c,
        Direction::South => c,
        Direction::West => c - 1,
        Direction::East => c + 1,
    }
}

/// Whether `(r, c)` is a cell of a `w × h` grid.
pub open spec fn in_bounds(w: usize, h: usize, r: int, c: int) -> bool {
    0 <= r < h && 0 <= c < w
}

/// Whether the cell in direction `d` from `(r, c)` lies inside the grid.
pub open spec fn has_neighbor(w: usize, h: usize, r: int, c: int, d: Direction) -> bool {
    in_bounds(w, h, neighbor_row(r, d), neighbor_col(c, d))
}

/// The cell of a row-major cell sequence at row `r`, column `c`.
pub open spec fn cell_at(cells: Seq<Cell>, w: usize, r: int, c: int) -> Cell {
    cells[r * w + c]
}

/// The wall flag at `(r, c)` facing `d`.
pub open spec fn wall_at(cells: Seq<Cell>, w: usize, r: int, c: int, d: Direction) -> bool {
    cell_at(cells, w, r, c).spec_wall(d)
}

/// The visited marker at `(r, c)`.
pub open spec fn visited_at(cells: Seq<Cell>, w: usize, r: int, c: int) -> bool {
    cell_at(cells, w, r, c).visited
}

/// A row-major cell sequence of the right length for a `w × h` grid.
pub open spec fn cells_wellformed(cells: Seq<Cell>, w: usize, h: usize) -> bool {
    1 <= w && 1 <= h && cells.len() == w * h
}

/// Wall symmetry: two grid-adjacent cells agree about the wall between
/// them, so every passage is open from both sides or from neither.
pub open spec fn symmetric(cells: Seq<Cell>, w: usize, h: usize) -> bool {
    forall|r: int, c: int, d: Direction|
        in_bounds(w, h, r, c) && has_neighbor(w, h, r, c, d) ==> #[trigger] wall_at(
            cells,
            w,
            r,
            c,
            d,
        ) == wall_at(cells, w, neighbor_row(r, d), neighbor_col(c, d), d.spec_opposite())
}

/// Boundary containment: a wall facing out of the grid is never removed,
/// so no open passage leads to a cell outside the grid.
pub open spec fn boundary_closed(cells: Seq<Cell>, w: usize, h: usize) -> bool {
    forall|r: int, c: int, d: Direction|
        in_bounds(w, h, r, c) && !has_neighbor(w, h, r, c, d) ==> #[trigger] wall_at(
            cells,
            w,
            r,
            c,
            d,
        )
}

/// The cell sequence of a fresh `w × h` grid: every cell unvisited with
/// all four walls present.
pub open spec fn initial_cells(w: usize, h: usize) -> Seq<Cell> {
    Seq::new((w * h) as nat, |i: int| initial_cell())
}

/// `cell` with its wall facing `d` removed.
pub open spec fn cell_with_wall_open(cell: Cell, d: Direction) -> Cell {
    match d {
        Direction::North => Cell { north: false, ..cell },
        Direction::South => Cell { south: false, ..cell },
        Direction::West => Cell { west: false, ..cell },
        Direction::East => Cell { east: false, ..cell },
    }
}

/// `cells` with the wall of `(r, c)` facing `d` removed (one side only).
pub open spec fn open_one_wall(cells: Seq<Cell>, w: usize, r: int, c: int, d: Direction) -> Seq<
    Cell,
> {
    cells.update(r * w + c, cell_with_wall_open(cell_at(cells, w, r, c), d))
}

/// `cells` with the passage from `(r, c)` in direction `d` opened on both
/// sides: the wall facing `d` on `(r, c)` and the facing wall on the
/// neighbor are both removed.
pub open spec fn open_passage_spec(cells: Seq<Cell>, w: usize, r: int, c: int, d: Direction) -> Seq<
    Cell,
> {
    open_one_wall(
        open_one_wall(cells, w, r, c, d),
        w,
        neighbor_row(r, d),
        neighbor_col(c, d),
        d.spec_opposite(),
    )
}

/// `cells` with the cell `(r, c)` marked visited.
pub open spec fn mark_visited_spec(cells: Seq<Cell>, w: usize, r: int, c: int) -> Seq<Cell> {
    cells.update(r * w + c, Cell { visited: true, ..cell_at(cells, w, r, c) })
}

/// The row-major position of `(r, c)` lies inside a `w × h` cell sequence.
pub proof fn lemma_index_in_range(w: usize, h: usize, r: int, c: int)
    requires
        in_bounds(w, h, r, c),
    ensures
        0 <= r * w + c < w * h,
{
    assert(0 <= r * w + c < w * h) by (nonlinear_arith)
        requires
            0 <= r < h,
            0 <= c < w,
    ;
}

/// Distinct cells have distinct row-major positions.
pub proof fn lemma_index_injective(w: usize, h: usize, r1: int, c1: int, r2: int, c2: int)
    requires
        in_bounds(w, h, r1, c1),
        in_bounds(w, h, r2, c2),
        r1 * w + c1 == r2 * w + c2,
    ensures
        r1 == r2 && c1 == c2,
{
    assert(r1 == r2 && c1 == c2) by (nonlinear_arith)
        requires
            0 <= r1 < h,
            0 <= c1 < w,
            0 <= r2 < h,
            0 <= c2 < w,
            r1 * w + c1 == r2 * w + c2,
    ;
}

/// What [`mark_visited_spec`] does cell by cell: the marked cell keeps its
/// walls and becomes visited, every other cell is untouched.
pub proof fn lemma_mark_visited_cells(cells: Seq<Cell>, w: usize, h: usize, r: int, c: int)
    requires
        cells_wellformed(cells, w, h),
        in_bounds(w, h, r, c),
    ensures
        mark_visited_spec(cells, w, r, c).len() == cells.len(),
        cell_at(mark_visited_spec(cells, w, r, c), w, r, c) == (Cell {
            visited: true,
            ..cell_at(cells, w, r, c)
        }),
        forall|r2: int, c2: int|
            in_bounds(w, h, r2, c2) && !(r2 == r && c2 == c) ==> cell_at(
                mark_visited_spec(cells, w, r, c),
                w,
                r2,
                c2,
            ) == cell_at(cells, w, r2, c2),
{
    lemma_index_in_range(w, h, r, c);
    assert forall|r2: int, c2: int|
        in_bounds(w, h, r2, c2) && !(r2 == r && c2 == c) implies cell_at(
        mark_visited_spec(cells, w, r, c),
        w,
        r2,
        c2,
    ) == cell_at(cells, w, r2, c2) by {
        lemma_index_in_range(w, h, r2, c2);
        if r2 * w + c2 == r * w + c {
            lemma_index_injective(w, h, r, c, r2, c2);
        }
    }
}

/// What [`open_one_wall`] does cell by cell: the named cell loses exactly
/// the wall facing `d`, every other cell is untouched.
pub proof fn lemma_open_one_wall_cells(cells: Seq<Cell>, w: usize, h: usize, r: int, c: int, d: Direction)
    requires
        cells_wellformed(cells, w, h),
        in_bounds(w, h, r, c),
    ensures
        open_one_wall(cells, w, r, c, d).len() == cells.len(),
        cell_at(open_one_wall(cells, w, r, c, d), w, r, c) == cell_with_wall_open(
            cell_at(cells, w, r, c),
            d,
        ),
        forall|r2: int, c2: int|
            in_bounds(w, h, r2, c2) && !(r2 == r && c2 == c) ==> cell_at(
                open_one_wall(cells, w, r, c, d),
                w,
                r2,
                c2,
            ) == cell_at(cells, w, r2, c2),
{
    lemma_index_in_range(w, h, r, c);
    assert forall|r2: int, c2: int|
        in_bounds(w, h, r2, c2) && !(r2 == r && c2 == c) implies cell_at(
        open_one_wall(cells, w, r, c, d),
        w,
        r2,
        c2,
    ) == cell_at(cells, w, r2, c2) by {
        lemma_index_in_range(w, h, r2, c2);
        if r2 * w + c2 == r * w + c {
            lemma_index_injective(w, h, r, c, r2, c2);
        }
    }
}

/// A cell and its neighbor in direction `d` are distinct cells.
pub proof fn lemma_neighbor_distinct(r: int, c: int, d: Direction)
    ensures
        !(neighbor_row(r, d) == r && neighbor_col(c, d) == c),
{
}

/// A potential grid neighbor of a cell, as reported by
/// [`Grid::check_neighbors`]: its coordinates and the direction that leads
/// to it from the cell that was asked.
#[derive(Clone, Copy, PartialEq, Eq, Structural, Debug)]
pub struct Neighbor {
    pub row: usize,
    pub col: usize,
    pub dir: Direction,
}

/// The (at most one-element) neighbor list entry contributed by direction
/// `d`: present when the neighbor exists and is still unvisited.
pub open spec fn neighbor_seg(
    cells: Seq<Cell>,
    w: usize,
    h: usize,
    r: int,
    c: int,
    d: Direction,
) -> Seq<Neighbor> {
    if has_neighbor(w, h, r, c, d) && !visited_at(
        cells,
        w,
        neighbor_row(r, d),
        neighbor_col(c, d),
    ) {
        seq![
            Neighbor {
                row: neighbor_row(r, d) as usize,
                col: neighbor_col(c, d) as usize,
                dir: d,
            },
        ]
    } else {
        Seq::empty()
    }
}

/// The unvisited in-bounds neighbors of `(r, c)`, in the fixed direction
/// order North, South, West, East.
pub open spec fn spec_neighbors(cells: Seq<Cell>, w: usize, h: usize, r: int, c: int) -> Seq<
    Neighbor,
> {
    neighbor_seg(cells, w, h, r, c, Direction::North) + neighbor_seg(
        cells,
        w,
        h,
        r,
        c,
        Direction::South,
    ) + neighbor_seg(cells, w, h, r, c, Direction::West) + neighbor_seg(
        cells,
        w,
        h,
        r,
        c,
        Direction::East,
    )
}

/// The maze: a `width × height` grid of cells stored in row-major order
/// (`cells[r * width + c]` is the cell at row `r`, column `c`).
#[derive(Debug, PartialEq, Eq)]
pub struct Grid {
    pub width: usize,
    pub height: usize,
    pub cells: Vec<Cell>,
}

impl Grid {
    /// The grid has positive dimensions and exactly one cell per position.
    pub open spec fn wf(self) -> bool {
        cells_wellformed(self.cells@, self.width, self.height)
    }

    /// The cell at row `r`, column `c`.
    pub open spec fn spec_cell(self, r: int, c: int) -> Cell {
        cell_at(self.cells@, self.width, r, c)
    }

    /// A fresh `width × height` grid: every cell unvisited, every wall
    /// present.
    pub fn new(width: usize, height: usize) -> (g: Grid)
        requires
            1 <= width,
            1 <= height,
            width * height <= usize::MAX,
        ensures
            g.wf(),
            g.width == width,
            g.height == height,
            g.cells@ == initial_cells(width, height),
    {
        let total: usize = width * height;
        let mut cells: Vec<Cell> = Vec::new();
        let mut i: usize = 0;
        while i < total
            invariant
                i <= total,
                total == width * height,
                cells@.len() == i,
                forall|k: int| 0 <= k < i ==> cells@[k] == initial_cell(),
            decreases total - i,
        {
            cells.push(Cell::new());
            i = i + 1;
        }
        let g = Grid { width, height, cells };
        proof {
            assert(g.cells@ =~= initial_cells(width, height));
        }
        g
    }

    /// Reads the cell at row `r`, column `c`.
    pub fn cell(&self, r: usize, c: usize) -> (cell: Cell)
        requires
            self.wf(),
            in_bounds(self.width, self.height, r as int, c as int),
        ensures
            cell == self.spec_cell(r as int, c as int),
    {
        proof {
            assert(self.cells@.len() == self.cells.len());
            lemma_index_in_range(self.width, self.height, r as int, c as int);
        }
        self.cells[r * self.width + c]
    }

    /// Marks the cell at `(r, c)` visited, leaving all walls unchanged.
    pub(crate) fn set_visited(&mut self, r: usize, c: usize)
        requires
            old(self).wf(),
            in_bounds(old(self).width, old(self).height, r as int, c as int),
        ensures
            final(self).width == old(self).width,
            final(self).height == old(self).height,
            final(self).cells@ == mark_visited_spec(old(self).cells@, old(self).width, r as int, c as int),
    {
        proof {
            assert(self.cells@.len() == self.cells.len());
            lemma_index_in_range(self.width, self.height, r as int, c as int);
        }
        let i: usize = r * self.width + c;
        let cell = self.cells[i];
        self.cells[i] = Cell { visited: true, ..cell };
    }

    /// Opens the passage from `(r, c)` toward `d`: removes the wall facing
    /// `d` on `(r, c)` and the facing wall on the neighbor, so the passage
    /// is open from both sides.
    pub(crate) fn open_passage(&mut self, r: usize, c: usize, d: Direction)
        requires
            old(self).wf(),
            in_bounds(old(self).width, old(self).height, r as int, c as int),
            has_neighbor(old(self).width, old(self).height, r as int, c as int, d),
        ensures
            final(self).width == old(self).width,
            final(self).height == old(self).height,
            final(self).cells@ == open_passage_spec(old(self).cells@, old(self).width, r as int, c as int, d),
    {
        proof {
            assert(self.cells@.len() == self.cells.len());
            lemma_index_in_range(self.width, self.height, r as int, c as int);
            lemma_index_in_range(
                self.width,
                self.height,
                neighbor_row(r as int, d),
                neighbor_col(c as int, d),
            );
        }
        let i: usize = r * self.width + c;
        let cell = self.cells[i];
        match d {
            Direction::North => {
                self.cells[i] = Cell { north: false, ..cell };
                let j: usize = (r - 1) * self.width + c;
                let nb = self.cells[j];
                self.cells[j] = Cell { south: false, ..nb };
            },
            Direction::South => {
                self.cells[i] = Cell { south: false, ..cell };
                let j: usize = (r + 1) * self.width + c;
                let nb = self.cells[j];
                self.cells[j] = Cell { north: false, ..nb };
            },
            Direction::West => {
                self.cells[i] = Cell { west: false, ..cell };
                let j: usize = r * self.width + (c - 1);
                let nb = self.cells[j];
                self.cells[j] = Cell { east: false, ..nb };
            },
            Direction::East => {
                self.cells[i] = Cell { east: false, ..cell };
                let j: usize = r * self.width + (c + 1);
                let nb = self.cells[j];
                self.cells[j] = Cell { west: false, ..nb };
            },
        }
    }

    /// The unvisited in-bounds neighbors of `(row, col)`, in the fixed
    /// direction order North, South, West, East, each carrying its
    /// coordinates and the direction that leads to it.
    pub fn check_neighbors(&self, row: usize, col: usize) -> (result: Vec<Neighbor>)
        requires
            self.wf(),
            in_bounds(self.width, self.height, row as int, col as int),
        ensures
            result@ == spec_neighbors(self.cells@, self.width, self.height, row as int, col as int),
    {
        let mut result: Vec<Neighbor> = Vec::new();
        if row >= 1 {
            let nb = self.cell(row - 1, col);
            if !nb.visited {
                result.push(Neighbor { row: row - 1, col, dir: Direction::North });
            }
        }
        proof {
            assert(result@ =~= neighbor_seg(
                self.cells@,
                self.width,
                self.height,
                row as int,
                col as int,
                Direction::North,
            ));
        }
        if row + 1 < self.height {
            let nb = self.cell(row + 1, col);
            if !nb.visited {
                result.push(Neighbor { row: row + 1, col, dir: Direction::South });
            }
        }
        proof {
            assert(result@ =~= neighbor_seg(
                self.cells@,
                self.width,
                self.height,
                row as int,
                col as int,
                Direction::North,
            ) + neighbor_seg(
                self.cells@,
                self.width,
                self.height,
                row as int,
                col as int,
                Direction::South,
            ));
        }
        if col >= 1 {
            let nb = self.cell(row, col - 1);
            if !nb.visited {
                result.push(Neighbor { row, col: col - 1, dir: Direction::West });
            }
        }
        proof {
            assert(result@ =~= neighbor_seg(
                self.cells@,
                self.width,
                self.height,
                row as int,
                col as int,
                Direction::North,
            ) + neighbor_seg(
                self.cells@,
                self.width,
                self.height,
                row as int,
                col as int,
                Direction::South,
            ) + neighbor_seg(
                self.cells@,
                self.width,
                self.height,
                row as int,
                col as int,
                Direction::West,
            ));
        }
        if col + 1 < self.width {
            let nb = self.cell(row, col + 1);
            if !nb.visited {
                result.push(Neighbor { row, col: col + 1, dir: Direction::East });
            }
        }
        proof {
            assert(result@ =~= spec_neighbors(
                self.cells@,
                self.width,
                self.height,
                row as int,
                col as int,
            ));
        }
        result
    }
}

} // verus!
