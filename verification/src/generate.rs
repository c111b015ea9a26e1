//! The maze generator: a randomized iterative depth-first walk that
//! removes walls along a spanning tree of the grid, producing a perfect
//! maze.

use vstd::prelude::*;
use crate::grid::{
    Cell, Direction, Grid, cell_at, cell_with_wall_open, cells_wellformed,
    boundary_closed, has_neighbor, in_bounds, initial_cell, initial_cells, lemma_index_in_range,
    lemma_mark_visited_cells, lemma_neighbor_distinct, lemma_open_one_wall_cells, mark_visited_spec,
    neighbor_col, neighbor_row, neighbor_seg, open_one_wall, open_passage_spec, spec_neighbors,
    symmetric, visited_at, wall_at,
};
use crate::count::{
    lemma_open_edge_count_closed, lemma_open_edge_count_single_cell, lemma_visited_count_upto_agree,
    lemma_visited_count_upto_bounds, lemma_visited_count_upto_full, lemma_visited_count_upto_none,
    lemma_visited_count_upto_set, cell_open_edges, open_edge_count, visited_count,
};
use crate::rng::{RandomSource, pick_index, rest_of};
use crate::reach::{
    lemma_reachable_monotone, lemma_reachable_refl, lemma_reachable_step, passage_open, reachable,
    tree_certificate,
};

verus! {

/// A configuration the generator rejects.
#[derive(Clone, Copy, PartialEq, Eq, Structural, Debug)]
pub enum ConfigError {
    /// `width` or `height` was zero: such a grid has no starting cell for
    /// the randomized walk.
    ZeroDimension,
}

/// Every entry of the backtracking stack lies inside the grid.
pub open spec fn stack_in_bounds(w: usize, h: usize, stack: Seq<(usize, usize)>) -> bool {
    forall|i: int|
        #![trigger stack[i]]
        0 <= i < stack.len() ==> in_bounds(w, h, stack[i].0 as int, stack[i].1 as int)
}

/// Every entry of the backtracking stack is a visited cell.
pub open spec fn stack_visited(cells: Seq<Cell>, w: usize, stack: Seq<(usize, usize)>) -> bool {
    forall|i: int|
        #![trigger stack[i]]
        0 <= i < stack.len() ==> visited_at(cells, w, stack[i].0 as int, stack[i].1 as int)
}

/// Every in-bounds neighbor of `(r, c)` is visited.
pub open spec fn all_neighbors_visited(cells: Seq<Cell>, w: usize, h: usize, r: int, c: int) -> bool {
    forall|d: Direction|
        #[trigger] has_neighbor(w, h, r, c, d) ==> visited_at(
            cells,
            w,
            neighbor_row(r, d),
            neighbor_col(c, d),
        )
}

/// The depth-first walk's working invariant: every visited cell either
/// still sits on the backtracking stack or has run out of unvisited
/// neighbors.
pub open spec fn dfs_invariant(cells: Seq<Cell>, w: usize, h: usize, stack: Seq<(usize, usize)>) -> bool {
    forall|r: int, c: int|
        in_bounds(w, h, r, c) && #[trigger] visited_at(cells, w, r, c) ==> stack.contains(
            ((r as usize), (c as usize)),
        ) || all_neighbors_visited(cells, w, h, r, c)
}

/// Every unvisited cell is still in its initial state: all four walls
/// present.
pub open spec fn unvisited_fresh(cells: Seq<Cell>, w: usize, h: usize) -> bool {
    forall|r: int, c: int|
        in_bounds(w, h, r, c) && !(#[trigger] visited_at(cells, w, r, c)) ==> cell_at(
            cells,
            w,
            r,
            c,
        ) == initial_cell()
}

/// A walk state the mathematical replay can step from: a well-formed
/// cell sequence and a stack of in-bounds entries.
pub open spec fn walk_state_ok(
    cells: Seq<Cell>,
    w: usize,
    h: usize,
    stack: Seq<(usize, usize)>,
) -> bool {
    cells_wellformed(cells, w, h) && stack_in_bounds(w, h, stack)
}

/// The randomized walk, replayed mathematically from an arbitrary state:
/// peek the top of the stack; backtrack when it has no unvisited
/// neighbor, otherwise carve toward the neighbor the next raw value
/// picks.  Returns the finished cells and the unconsumed raw values.
pub open spec fn walk_from(
    cells: Seq<Cell>,
    w: usize,
    h: usize,
    stack: Seq<(usize, usize)>,
    raws: Seq<u64>,
) -> (Seq<Cell>, Seq<u64>)
    decreases cells.len() - visited_count(cells), stack.len(),
        when walk_state_ok(cells, w, h, stack)
    via walk_from_decreases
{
    if stack.len() == 0 {
        (cells, raws)
    } else {
        let top = stack.last();
        let r = top.0 as int;
        let c = top.1 as int;
        let nbs = spec_neighbors(cells, w, h, r, c);
        if nbs.len() == 0 {
            walk_from(cells, w, h, stack.drop_last(), raws)
        } else {
            let nb = nbs[pick_index(raws, nbs.len() as int)];
            let cells2 = mark_visited_spec(
                open_passage_spec(cells, w, r, c, nb.dir),
                w,
                nb.row as int,
                nb.col as int,
            );
            walk_from(cells2, w, h, stack.push((nb.row, nb.col)), rest_of(raws))
        }
    }
}

/// Carving toward an unvisited neighbor visits exactly one more cell and
/// keeps the cell sequence's length.
proof fn lemma_carve_visited_count(
    cells: Seq<Cell>,
    w: usize,
    h: usize,
    r: int,
    c: int,
    d: Direction,
)
    requires
        cells_wellformed(cells, w, h),
        in_bounds(w, h, r, c),
        has_neighbor(w, h, r, c, d),
        !visited_at(cells, w, neighbor_row(r, d), neighbor_col(c, d)),
    ensures
        ({
            let nr = neighbor_row(r, d);
            let nc = neighbor_col(c, d);
            let cells2 = mark_visited_spec(open_passage_spec(cells, w, r, c, d), w, nr, nc);
            &&& cells2.len() == cells.len()
            &&& visited_count(cells2) == visited_count(cells) + 1
        }),
{
    let nr = neighbor_row(r, d);
    let nc = neighbor_col(c, d);
    let n = cells.len() as int;
    lemma_neighbor_distinct(r, c, d);
    lemma_index_in_range(w, h, r, c);
    lemma_index_in_range(w, h, nr, nc);
    let mid = open_one_wall(cells, w, r, c, d);
    let opened = open_one_wall(mid, w, nr, nc, d.spec_opposite());
    assert(opened == open_passage_spec(cells, w, r, c, d));
    let cells2 = mark_visited_spec(opened, w, nr, nc);
    assert forall|k: int| 0 <= k < n implies opened[k].visited == cells[k].visited by {
        if k != r * w + c {
            assert(mid[k] == cells[k]);
        }
        if k != nr * w + nc {
            assert(opened[k] == mid[k]);
        }
    }
    lemma_visited_count_upto_agree(cells, opened, n);
    lemma_visited_count_upto_set(opened, cells2, nr * w + nc, n);
}

#[via_fn]
proof fn walk_from_decreases(
    cells: Seq<Cell>,
    w: usize,
    h: usize,
    stack: Seq<(usize, usize)>,
    raws: Seq<u64>,
) {
    if stack.len() != 0 {
        let top = stack.last();
        let r = top.0 as int;
        let c = top.1 as int;
        assert(stack[stack.len() - 1] == top);
        assert(in_bounds(w, h, r, c));
        let nbs = spec_neighbors(cells, w, h, r, c);
        lemma_visited_count_upto_bounds(cells, cells.len() as int);
        if nbs.len() != 0 {
            let k = pick_index(raws, nbs.len() as int);
            vstd::arithmetic::div_mod::lemma_mod_division_less_than_divisor(
                if raws.len() > 0 {
                    raws[0] as int
                } else {
                    0
                },
                nbs.len() as int,
            );
            assert(0 <= k < nbs.len());
            lemma_spec_neighbors_entries(cells, w, h, r, c);
            let nb = nbs[k];
            assert(nb.row as int == neighbor_row(r, nb.dir) && nb.col as int == neighbor_col(
                c,
                nb.dir,
            ));
            lemma_index_in_range(w, h, nb.row as int, nb.col as int);
            crate::count::lemma_visited_count_upto_missing(
                cells,
                nb.row * w + nb.col,
                cells.len() as int,
            );
            lemma_carve_visited_count(cells, w, h, r, c, nb.dir);
        }
    }
}

/// The whole generation run as a mathematical function: the walk started
/// on a fresh `w × h` grid with the origin visited and pushed, fed by the
/// raw value sequence `raws`.
pub open spec fn spec_generate(w: usize, h: usize, raws: Seq<u64>) -> (Seq<Cell>, Seq<u64>) {
    walk_from(
        mark_visited_spec(initial_cells(w, h), w, 0, 0),
        w,
        h,
        seq![((0usize), (0usize))],
        raws,
    )
}

/// A cell whose unvisited-neighbor list is empty has every in-bounds
/// neighbor visited.
proof fn lemma_no_unvisited_neighbors(cells: Seq<Cell>, w: usize, h: usize, r: int, c: int)
    requires
        in_bounds(w, h, r, c),
        spec_neighbors(cells, w, h, r, c).len() == 0,
    ensures
        all_neighbors_visited(cells, w, h, r, c),
{
    assert(spec_neighbors(cells, w, h, r, c).len() == neighbor_seg(
        cells,
        w,
        h,
        r,
        c,
        Direction::North,
    ).len() + neighbor_seg(cells, w, h, r, c, Direction::South).len() + neighbor_seg(
        cells,
        w,
        h,
        r,
        c,
        Direction::West,
    ).len() + neighbor_seg(cells, w, h, r, c, Direction::East).len());
    assert forall|d: Direction| #[trigger] has_neighbor(w, h, r, c, d) implies visited_at(
        cells,
        w,
        neighbor_row(r, d),
        neighbor_col(c, d),
    ) by {
        assert(neighbor_seg(cells, w, h, r, c, d).len() == 0);
    }
}

/// Each entry of the unvisited-neighbor list really is an unvisited
/// in-bounds neighbor, reached by the direction it carries.
proof fn lemma_spec_neighbors_entries(cells: Seq<Cell>, w: usize, h: usize, r: int, c: int)
    requires
        in_bounds(w, h, r, c),
    ensures
        forall|i: int|
            0 <= i < spec_neighbors(cells, w, h, r, c).len() ==> {
                let nb = #[trigger] spec_neighbors(cells, w, h, r, c)[i];
                &&& has_neighbor(w, h, r, c, nb.dir)
                &&& nb.row as int == neighbor_row(r, nb.dir)
                &&& nb.col as int == neighbor_col(c, nb.dir)
                &&& !visited_at(cells, w, nb.row as int, nb.col as int)
            },
{
    let sn = neighbor_seg(cells, w, h, r, c, Direction::North);
    let ss = neighbor_seg(cells, w, h, r, c, Direction::South);
    let sw = neighbor_seg(cells, w, h, r, c, Direction::West);
    let se = neighbor_seg(cells, w, h, r, c, Direction::East);
    assert forall|i: int| 0 <= i < spec_neighbors(cells, w, h, r, c).len() implies {
        let nb = #[trigger] spec_neighbors(cells, w, h, r, c)[i];
        &&& has_neighbor(w, h, r, c, nb.dir)
        &&& nb.row as int == neighbor_row(r, nb.dir)
        &&& nb.col as int == neighbor_col(c, nb.dir)
        &&& !visited_at(cells, w, nb.row as int, nb.col as int)
    } by {
        let nb = spec_neighbors(cells, w, h, r, c)[i];
        if i < sn.len() {
            assert(nb == sn[i]);
        } else if i < sn.len() + ss.len() {
            assert(nb == ss[i - sn.len()]);
        } else if i < sn.len() + ss.len() + sw.len() {
            assert(nb == sw[i - sn.len() - ss.len()]);
        } else {
            assert(nb == se[i - sn.len() - ss.len() - sw.len()]);
        }
    }
}

/// Carving one passage: opening the wall pair toward an unvisited
/// neighbor and marking that neighbor visited keeps every structural
/// invariant, opens exactly one more passage, and visits exactly one more
/// cell.
proof fn lemma_carve_step(cells: Seq<Cell>, w: usize, h: usize, r: usize, c: usize, d: Direction)
    requires
        cells_wellformed(cells, w, h),
        in_bounds(w, h, r as int, c as int),
        has_neighbor(w, h, r as int, c as int, d),
        visited_at(cells, w, r as int, c as int),
        !visited_at(cells, w, neighbor_row(r as int, d), neighbor_col(c as int, d)),
        symmetric(cells, w, h),
        boundary_closed(cells, w, h),
        unvisited_fresh(cells, w, h),
    ensures
        ({
            let nr = neighbor_row(r as int, d);
            let nc = neighbor_col(c as int, d);
            let cells3 = mark_visited_spec(
                open_passage_spec(cells, w, r as int, c as int, d),
                w,
                nr,
                nc,
            );
            &&& cells3.len() == cells.len()
            &&& symmetric(cells3, w, h)
            &&& boundary_closed(cells3, w, h)
            &&& unvisited_fresh(cells3, w, h)
            &&& open_edge_count(cells3, w, h) == open_edge_count(cells, w, h) + 1
            &&& visited_count(cells3) == visited_count(cells) + 1
            &&& visited_at(cells3, w, nr, nc)
            &&& !wall_at(cells3, w, r as int, c as int, d)
            &&& forall|r2: int, c2: int|
                in_bounds(w, h, r2, c2) && #[trigger] visited_at(cells, w, r2, c2)
                    ==> visited_at(cells3, w, r2, c2)
            &&& forall|r2: int, c2: int|
                in_bounds(w, h, r2, c2) && #[trigger] visited_at(cells3, w, r2, c2)
                    ==> visited_at(cells, w, r2, c2) || (r2 == nr && c2 == nc)
            &&& forall|r2: int, c2: int, d2: Direction|
                in_bounds(w, h, r2, c2) && !(#[trigger] wall_at(cells, w, r2, c2, d2))
                    ==> !wall_at(cells3, w, r2, c2, d2)
        }),
{
    let ri = r as int;
    let ci = c as int;
    let nr = neighbor_row(ri, d);
    let nc = neighbor_col(ci, d);
    let n = cells.len() as int;
    lemma_neighbor_distinct(ri, ci, d);
    lemma_index_in_range(w, h, ri, ci);
    lemma_index_in_range(w, h, nr, nc);
    let mid = open_one_wall(cells, w, ri, ci, d);
    lemma_open_one_wall_cells(cells, w, h, ri, ci, d);
    let cells2 = open_one_wall(mid, w, nr, nc, d.spec_opposite());
    lemma_open_one_wall_cells(mid, w, h, nr, nc, d.spec_opposite());
    assert(cells2 == open_passage_spec(cells, w, ri, ci, d));
    let cells3 = mark_visited_spec(cells2, w, nr, nc);
    lemma_mark_visited_cells(cells2, w, h, nr, nc);

    // the neighbor is fresh, so the wall pair being opened was present
    assert(cell_at(cells, w, nr, nc) == initial_cell());
    assert(wall_at(cells, w, ri, ci, d) == wall_at(
        cells,
        w,
        nr,
        nc,
        d.spec_opposite(),
    ));

    // one more open passage, counted from its canonical side
    lemma_open_edge_count_single_cell(cells, mid, w, h, ri, ci);
    lemma_open_edge_count_single_cell(mid, cells2, w, h, nr, nc);
    lemma_open_edge_count_single_cell(cells2, cells3, w, h, nr, nc);
    assert(cell_open_edges(cells3, w, h, nr, nc) == cell_open_edges(cells2, w, h, nr, nc));
    assert(open_edge_count(cells3, w, h) == open_edge_count(cells, w, h) + 1);

    // one more visited cell
    assert forall|k: int| 0 <= k < n implies cells2[k].visited == cells[k].visited by {
        if k != ri * w + ci {
            assert(mid[k] == cells[k]);
        }
        if k != nr * w + nc {
            assert(cells2[k] == mid[k]);
        }
    }
    lemma_visited_count_upto_agree(cells, cells2, n);
    lemma_visited_count_upto_set(cells2, cells3, nr * w + nc, n);

    // wall symmetry is preserved: the pair was opened on both sides
    assert forall|r2: int, c2: int, d2: Direction|
        in_bounds(w, h, r2, c2) && has_neighbor(w, h, r2, c2, d2) implies #[trigger] wall_at(
        cells3,
        w,
        r2,
        c2,
        d2,
    ) == wall_at(cells3, w, neighbor_row(r2, d2), neighbor_col(c2, d2), d2.spec_opposite()) by {
        let m1 = neighbor_row(r2, d2);
        let m2 = neighbor_col(c2, d2);
        assert(wall_at(cells, w, r2, c2, d2) == wall_at(cells, w, m1, m2, d2.spec_opposite()));
        lemma_neighbor_distinct(r2, c2, d2);
    }

    // the boundary stays closed: both opened walls face an in-bounds cell
    assert forall|r2: int, c2: int, d2: Direction|
        in_bounds(w, h, r2, c2) && !has_neighbor(w, h, r2, c2, d2) implies #[trigger] wall_at(
        cells3,
        w,
        r2,
        c2,
        d2,
    ) by {
        assert(wall_at(cells, w, r2, c2, d2));
    }

    // unvisited cells are still fresh: both touched cells end up visited
    assert forall|r2: int, c2: int|
        in_bounds(w, h, r2, c2) && !(#[trigger] visited_at(cells3, w, r2, c2)) implies cell_at(
        cells3,
        w,
        r2,
        c2,
    ) == initial_cell() by {
        if r2 == ri && c2 == ci {
            assert(cell_at(cells3, w, r2, c2).visited == cell_at(cells, w, ri, ci).visited);
        } else if r2 == nr && c2 == nc {
            assert(visited_at(cells3, w, nr, nc));
        } else {
            assert(cell_at(cells3, w, r2, c2) == cell_at(cells, w, r2, c2));
            assert(!visited_at(cells, w, r2, c2));
            assert(cell_at(cells, w, r2, c2) == initial_cell());
        }
    }
}

/// Carving one passage extends a tree certificate: the newly visited
/// neighbor hangs one level below the cell it was reached from, and no
/// older passage is disturbed.
proof fn lemma_carve_certificate(
    cells: Seq<Cell>,
    w: usize,
    h: usize,
    r: usize,
    c: usize,
    d: Direction,
    depth0: Map<(int, int), int>,
    parent0: Map<(int, int), (int, int)>,
)
    requires
        cells_wellformed(cells, w, h),
        in_bounds(w, h, r as int, c as int),
        has_neighbor(w, h, r as int, c as int, d),
        visited_at(cells, w, r as int, c as int),
        !visited_at(cells, w, neighbor_row(r as int, d), neighbor_col(c as int, d)),
        symmetric(cells, w, h),
        boundary_closed(cells, w, h),
        unvisited_fresh(cells, w, h),
        tree_certificate(cells, w, h, depth0, parent0),
    ensures
        ({
            let cur = ((r as int), (c as int));
            let nbp = (neighbor_row(r as int, d), neighbor_col(c as int, d));
            let cells3 = mark_visited_spec(
                open_passage_spec(cells, w, r as int, c as int, d),
                w,
                nbp.0,
                nbp.1,
            );
            tree_certificate(
                cells3,
                w,
                h,
                depth0.insert(nbp, depth0[cur] + 1),
                parent0.insert(nbp, cur),
            )
        }),
{
    let ri = r as int;
    let ci = c as int;
    let cur = (ri, ci);
    let nbp = (neighbor_row(ri, d), neighbor_col(ci, d));
    let depth1 = depth0.insert(nbp, depth0[cur] + 1);
    let parent1 = parent0.insert(nbp, cur);
    lemma_carve_step(cells, w, h, r, c, d);
    lemma_neighbor_distinct(ri, ci, d);
    let mid = open_one_wall(cells, w, ri, ci, d);
    lemma_open_one_wall_cells(cells, w, h, ri, ci, d);
    let cells2 = open_one_wall(mid, w, nbp.0, nbp.1, d.spec_opposite());
    lemma_open_one_wall_cells(mid, w, h, nbp.0, nbp.1, d.spec_opposite());
    assert(cells2 == open_passage_spec(cells, w, ri, ci, d));
    let cells3 = mark_visited_spec(cells2, w, nbp.0, nbp.1);
    lemma_mark_visited_cells(cells2, w, h, nbp.0, nbp.1);
    assert(cell_at(cells, w, nbp.0, nbp.1) == initial_cell());
    assert forall|a: (int, int), b: (int, int)| #[trigger] passage_open(
        cells3,
        w,
        h,
        a,
        b,
    ) implies (depth1[b] == depth1[a] + 1 && parent1[b] == a) || (depth1[a] == depth1[b] + 1
        && parent1[a] == b) by {
        let d2 = choose|d2: Direction|
            in_bounds(w, h, a.0, a.1) && in_bounds(w, h, b.0, b.1) && b.0 == neighbor_row(a.0, d2)
                && b.1 == neighbor_col(a.1, d2) && !(#[trigger] wall_at(cells3, w, a.0, a.1, d2));
        lemma_neighbor_distinct(a.0, a.1, d2);
        if a == cur && b == nbp {
            assert(depth1[nbp] == depth1[cur] + 1 && parent1[nbp] == cur);
        } else if a == nbp && b == cur {
            assert(depth1[nbp] == depth1[cur] + 1 && parent1[nbp] == cur);
        } else if a == nbp {
            // the neighbor's only open wall faces the cell that reached it
            assert(cell_at(cells3, w, a.0, a.1) == (Cell {
                visited: true,
                ..cell_with_wall_open(initial_cell(), d.spec_opposite())
            }));
            assert(d2 == d.spec_opposite());
            assert(b == cur);
            assert(false);
        } else if b == nbp {
            // by symmetry the wall from `a` into the neighbor mirrors the
            // neighbor's only open wall, which faces `cur`
            assert(wall_at(cells3, w, a.0, a.1, d2) == wall_at(
                cells3,
                w,
                b.0,
                b.1,
                d2.spec_opposite(),
            ));
            assert(cell_at(cells3, w, b.0, b.1) == (Cell {
                visited: true,
                ..cell_with_wall_open(initial_cell(), d.spec_opposite())
            }));
            assert(d2.spec_opposite() == d.spec_opposite());
            assert(d2 == d);
            assert(a == cur);
            assert(false);
        } else {
            // an older passage: its wall is unchanged, its endpoints were
            // already visited, so the old certificate entry still applies
            if a == cur {
                assert(cell_at(cells3, w, a.0, a.1) == cell_with_wall_open(
                    cell_at(cells, w, a.0, a.1),
                    d,
                ));
                if d2 == d {
                    assert(b == nbp);
                    assert(false);
                }
                assert(wall_at(cells, w, a.0, a.1, d2) == wall_at(cells3, w, a.0, a.1, d2));
            } else {
                assert(cell_at(cells3, w, a.0, a.1) == cell_at(cells, w, a.0, a.1));
            }
            assert(!wall_at(cells, w, a.0, a.1, d2));
            assert(passage_open(cells, w, h, a, b));
            assert(depth1[a] == depth0[a] && depth1[b] == depth0[b]);
            assert(parent1[a] == parent0[a] && parent1[b] == parent0[b]);
        }
    }
}

/// A grid whose visited region is closed under adjacency and contains the
/// origin is visited everywhere.
proof fn lemma_visited_cell(cells: Seq<Cell>, w: usize, h: usize, r: int, c: int)
    requires
        cells_wellformed(cells, w, h),
        visited_at(cells, w, 0, 0),
        forall|r2: int, c2: int|
            in_bounds(w, h, r2, c2) && #[trigger] visited_at(cells, w, r2, c2)
                ==> all_neighbors_visited(cells, w, h, r2, c2),
        in_bounds(w, h, r, c),
    ensures
        visited_at(cells, w, r, c),
    decreases r, c,
{
    if c == 0 {
        if r > 0 {
            lemma_visited_cell(cells, w, h, r - 1, 0);
            assert(has_neighbor(w, h, r - 1, 0, Direction::South));
            assert(visited_at(
                cells,
                w,
                neighbor_row(r - 1, Direction::South),
                neighbor_col(0, Direction::South),
            ));
        }
    } else {
        lemma_visited_cell(cells, w, h, r, c - 1);
        assert(has_neighbor(w, h, r, c - 1, Direction::East));
        assert(visited_at(
            cells,
            w,
            neighbor_row(r, Direction::East),
            neighbor_col(c - 1, Direction::East),
        ));
    }
}

/// A grid that is visited everywhere has a full visited count.
proof fn lemma_all_visited_count(cells: Seq<Cell>, w: usize, h: usize)
    requires
        cells_wellformed(cells, w, h),
        forall|r2: int, c2: int|
            in_bounds(w, h, r2, c2) ==> #[trigger] visited_at(cells, w, r2, c2),
    ensures
        visited_count(cells) == w * h,
{
    let n = cells.len() as int;
    let wi = w as int;
    assert forall|k: int| 0 <= k < n implies cells[k].visited by {
        let r = k / wi;
        let c = k % wi;
        vstd::arithmetic::div_mod::lemma_fundamental_div_mod(k, wi);
        vstd::arithmetic::div_mod::lemma_mod_division_less_than_divisor(k, wi);
        vstd::arithmetic::div_mod::lemma_div_pos_is_pos(k, wi);
        assert(k == wi * r + c);
        assert(0 <= c < wi);
        assert(0 <= r);
        assert(r < h) by (nonlinear_arith)
            requires
                k == wi * r + c,
                0 <= c,
                k < wi * h,
                0 <= r,
                1 <= wi,
        ;
        assert(in_bounds(w, h, r, c));
        assert(visited_at(cells, w, r, c));
        assert(cell_at(cells, w, r, c) == cells[r * wi + c]);
        assert(r * wi == wi * r) by (nonlinear_arith);
        assert(r * wi + c == k);
        assert(cells[k].visited);
    }
    lemma_visited_count_upto_full(cells, n);
}

/// The state the walk starts from: a fresh grid with only the origin
/// visited.
proof fn lemma_initial_state(w: usize, h: usize)
    requires
        1 <= w,
        1 <= h,
    ensures
        ({
            let cells = mark_visited_spec(initial_cells(w, h), w, 0, 0);
            &&& cells.len() == w * h
            &&& visited_at(cells, w, 0, 0)
            &&& symmetric(cells, w, h)
            &&& boundary_closed(cells, w, h)
            &&& unvisited_fresh(cells, w, h)
            &&& open_edge_count(cells, w, h) == 0
            &&& visited_count(cells) == 1
            &&& forall|r: int, c: int|
                in_bounds(w, h, r, c) && #[trigger] visited_at(cells, w, r, c) ==> r == 0 && c
                    == 0
            &&& forall|r: int, c: int, d: Direction|
                in_bounds(w, h, r, c) ==> #[trigger] wall_at(cells, w, r, c, d)
        }),
{
    let base = initial_cells(w, h);
    let cells = mark_visited_spec(base, w, 0, 0);
    let n = (w * h) as int;
    assert(base.len() == w * h);
    assert forall|r: int, c: int| in_bounds(w, h, r, c) implies #[trigger] cell_at(base, w, r, c)
        == initial_cell() by {
        lemma_index_in_range(w, h, r, c);
    }
    lemma_mark_visited_cells(base, w, h, 0, 0);
    assert forall|r: int, c: int|
        in_bounds(w, h, r, c) && !(r == 0 && c == 0) implies #[trigger] cell_at(cells, w, r, c)
        == initial_cell() by {
    }
    assert(cell_at(cells, w, 0, 0) == (Cell { visited: true, ..initial_cell() }));
    assert forall|r: int, c: int, d: Direction| in_bounds(w, h, r, c) implies #[trigger] wall_at(
        cells,
        w,
        r,
        c,
        d,
    ) by {
        if r == 0 && c == 0 {
            assert(cell_at(cells, w, r, c).spec_wall(d) == initial_cell().spec_wall(d));
        } else {
            assert(cell_at(cells, w, r, c) == initial_cell());
        }
    }
    assert(symmetric(cells, w, h));
    assert(boundary_closed(cells, w, h));
    assert forall|r2: int, col: int|
        in_bounds(w, h, r2, col) implies #[trigger] cell_at(cells, w, r2, col).south && cell_at(
        cells,
        w,
        r2,
        col,
    ).east by {
        assert(wall_at(cells, w, r2, col, Direction::South));
        assert(wall_at(cells, w, r2, col, Direction::East));
    }
    lemma_open_edge_count_closed(cells, w, h);
    assert(n >= 1) by (nonlinear_arith)
        requires
            1 <= w,
            1 <= h,
            n == w * h,
    ;
    assert forall|k: int| 0 <= k < n implies !base[k].visited by {
    }
    lemma_visited_count_upto_none(base, n);
    lemma_visited_count_upto_set(base, cells, 0, n);
    assert forall|r: int, c: int|
        in_bounds(w, h, r, c) && #[trigger] visited_at(cells, w, r, c) implies r == 0 && c == 0 by {
        if !(r == 0 && c == 0) {
            assert(cell_at(cells, w, r, c) == initial_cell());
        }
    }
}

/// Generates a `width × height` perfect maze by randomized iterative
/// depth-first search, drawing its choices from `source`.
///
/// On success every cell is visited and reachable from the origin
/// through open passages, the walls are symmetric, the boundary stays
/// closed, and exactly `width * height - 1` passages are open, with a
/// tree certificate ruling out cycles: the open-passage graph is a
/// spanning tree of the grid.  With a scripted source the walls are a
/// pure function of the value sequence — rerunning it gives a
/// bit-identical grid.  A zero dimension is rejected.
#[verifier::rlimit(60)]
pub fn generate(width: usize, height: usize, source: &mut RandomSource) -> (result: Result<
    Grid,
    ConfigError,
>)
    requires
        width * height <= usize::MAX,
    ensures
        result is Err <==> (width == 0 || height == 0),
        result matches Err(e) ==> e == ConfigError::ZeroDimension,
        result matches Ok(g) ==> {
            &&& g.wf()
            &&& g.width == width
            &&& g.height == height
            &&& forall|r: int, c: int|
                in_bounds(width, height, r, c) ==> #[trigger] visited_at(g.cells@, width, r, c)
            &&& symmetric(g.cells@, width, height)
            &&& boundary_closed(g.cells@, width, height)
            &&& open_edge_count(g.cells@, width, height) == width * height - 1
            &&& forall|r: int, c: int|
                in_bounds(width, height, r, c) ==> #[trigger] reachable(
                    g.cells@,
                    width,
                    height,
                    (0int, 0int),
                    (r, c),
                )
            &&& (old(source).is_scripted() ==> final(source).is_scripted()
                && g.cells@ == spec_generate(width, height, old(source).remaining()).0
                && final(source).remaining() == spec_generate(width, height, old(source).remaining()).1)
            &&& exists|dm: Map<(int, int), int>, pm: Map<(int, int), (int, int)>|
                tree_certificate(g.cells@, width, height, dm, pm)
        },
        !old(source).is_scripted() ==> !final(source).is_scripted(),
        result is Err ==> *final(source) == *old(source),
{
    if width == 0 || height == 0 {
        return Err(ConfigError::ZeroDimension);
    }
    let mut grid = Grid::new(width, height);
    grid.set_visited(0, 0);
    let mut stack: Vec<(usize, usize)> = Vec::new();
    stack.push((0, 0));
    let ghost init_raws = source.remaining();
    let ghost was_scripted = source.is_scripted();
    let ghost mut tree_depth: Map<(int, int), int> = Map::<(int, int), int>::empty().insert(
        (0int, 0int),
        0,
    );
    let ghost mut tree_parent: Map<(int, int), (int, int)> = Map::<
        (int, int),
        (int, int),
    >::empty();
    proof {
        assert(init_raws == old(source).remaining());
        assert(was_scripted == old(source).is_scripted());
        assert(stack@ =~= seq![((0usize), (0usize))]);
        assert(grid.cells@ == mark_visited_spec(initial_cells(width, height), width, 0, 0));
        lemma_initial_state(width, height);
        lemma_reachable_refl(grid.cells@, width, height, (0int, 0int));
        assert forall|a: (int, int), b: (int, int)| !(#[trigger] passage_open(
            grid.cells@,
            width,
            height,
            a,
            b,
        )) by {
            if passage_open(grid.cells@, width, height, a, b) {
                let d = choose|d: Direction|
                    in_bounds(width, height, a.0, a.1) && in_bounds(width, height, b.0, b.1)
                        && b.0 == neighbor_row(a.0, d) && b.1 == neighbor_col(a.1, d) && !(
                    #[trigger] wall_at(grid.cells@, width, a.0, a.1, d));
                assert(wall_at(grid.cells@, width, a.0, a.1, d));
            }
        }
        assert(tree_certificate(grid.cells@, width, height, tree_depth, tree_parent));
        assert(stack@[0] == ((0usize), (0usize)));
        assert forall|r2: int, c2: int|
            in_bounds(width, height, r2, c2) && #[trigger] visited_at(
                grid.cells@,
                width,
                r2,
                c2,
            ) implies stack@.contains(((r2 as usize), (c2 as usize))) || all_neighbors_visited(
            grid.cells@,
            width,
            height,
            r2,
            c2,
        ) by {
            assert(r2 == 0 && c2 == 0);
            assert(stack@[0] == ((r2 as usize), (c2 as usize)));
        }
    }
    while stack.len() > 0
        invariant
            1 <= width,
            1 <= height,
            grid.width == width,
            grid.height == height,
            grid.wf(),
            stack_in_bounds(width, height, stack@),
            stack_visited(grid.cells@, width, stack@),
            visited_at(grid.cells@, width, 0, 0),
            symmetric(grid.cells@, width, height),
            boundary_closed(grid.cells@, width, height),
            unvisited_fresh(grid.cells@, width, height),
            dfs_invariant(grid.cells@, width, height, stack@),
            forall|r2: int, c2: int|
                in_bounds(width, height, r2, c2) && #[trigger] visited_at(
                    grid.cells@,
                    width,
                    r2,
                    c2,
                ) ==> reachable(grid.cells@, width, height, (0int, 0int), (r2, c2)),
            open_edge_count(grid.cells@, width, height) == visited_count(grid.cells@) - 1,
            1 <= visited_count(grid.cells@) <= width * height,
            was_scripted == source.is_scripted(),
            was_scripted ==> walk_from(grid.cells@, width, height, stack@, source.remaining())
                == spec_generate(width, height, init_raws),
            tree_certificate(grid.cells@, width, height, tree_depth, tree_parent),
        decreases width * height - visited_count(grid.cells@), stack@.len(),
    {
        let top = stack[stack.len() - 1];
        let r = top.0;
        let c = top.1;
        proof {
            assert(stack@[stack@.len() - 1] == top);
        }
        let neighbors = grid.check_neighbors(r, c);
        if neighbors.len() == 0 {
            let ghost stack_before = stack@;
            let _popped = stack.pop();
            proof {
                assert(stack@ == stack_before.drop_last());
                lemma_no_unvisited_neighbors(
                    grid.cells@,
                    width,
                    height,
                    r as int,
                    c as int,
                );
                assert forall|r2: int, c2: int|
                    in_bounds(width, height, r2, c2) && #[trigger] visited_at(
                        grid.cells@,
                        width,
                        r2,
                        c2,
                    ) implies stack@.contains(((r2 as usize), (c2 as usize)))
                    || all_neighbors_visited(grid.cells@, width, height, r2, c2) by {
                    if stack_before.contains(((r2 as usize), (c2 as usize)))
                        && !all_neighbors_visited(grid.cells@, width, height, r2, c2) {
                        let i = choose|i: int|
                            0 <= i < stack_before.len() && stack_before[i] == (
                            (r2 as usize),
                            (c2 as usize),
                            );
                        if i < stack_before.len() - 1 {
                            assert(stack@[i] == ((r2 as usize), (c2 as usize)));
                            assert(stack@.contains(((r2 as usize), (c2 as usize))));
                        } else {
                            assert(((r2 as usize), (c2 as usize)) == top);
                        }
                    }
                }
                if was_scripted {
                    assert(walk_from(
                        grid.cells@,
                        width,
                        height,
                        stack_before,
                        source.remaining(),
                    ) == walk_from(grid.cells@, width, height, stack@, source.remaining()));
                }
            }
        } else {
            let ghost raws_before = source.remaining();
            let k = source.next_index(neighbors.len());
            let nb = neighbors[k];
            let ghost cells_before = grid.cells@;
            let ghost stack_before = stack@;
            proof {
                lemma_spec_neighbors_entries(grid.cells@, width, height, r as int, c as int);
                assert(neighbors@[k as int] == nb);
                lemma_carve_step(grid.cells@, width, height, r, c, nb.dir);
            }
            grid.open_passage(r, c, nb.dir);
            proof {
                assert(grid.cells@ == open_passage_spec(
                    cells_before,
                    width,
                    r as int,
                    c as int,
                    nb.dir,
                ));
                lemma_index_in_range(width, height, r as int, c as int);
                lemma_index_in_range(
                    width,
                    height,
                    neighbor_row(r as int, nb.dir),
                    neighbor_col(c as int, nb.dir),
                );
                assert(open_one_wall(cells_before, width, r as int, c as int, nb.dir).len()
                    == cells_before.len());
                assert(grid.cells@.len() == cells_before.len());
                assert(grid.wf());
            }
            grid.set_visited(nb.row, nb.col);
            stack.push((nb.row, nb.col));
            proof {
                let cells3 = grid.cells@;
                assert(cells3 == mark_visited_spec(
                    open_passage_spec(cells_before, width, r as int, c as int, nb.dir),
                    width,
                    neighbor_row(r as int, nb.dir),
                    neighbor_col(c as int, nb.dir),
                ));
                lemma_visited_count_upto_bounds(cells3, cells3.len() as int);
                assert(stack@ == stack_before.push((nb.row, nb.col)));
                assert forall|i: int| #![trigger stack@[i]] 0 <= i < stack@.len() implies visited_at(
                    cells3,
                    width,
                    stack@[i].0 as int,
                    stack@[i].1 as int,
                ) by {
                    if i < stack@.len() - 1 {
                        assert(stack@[i] == stack_before[i]);
                    } else {
                        assert(stack@[i] == (nb.row, nb.col));
                    }
                }
                assert forall|r2: int, c2: int|
                    in_bounds(width, height, r2, c2) && #[trigger] visited_at(
                        cells3,
                        width,
                        r2,
                        c2,
                    ) implies stack@.contains(((r2 as usize), (c2 as usize)))
                    || all_neighbors_visited(cells3, width, height, r2, c2) by {
                    if r2 == nb.row as int && c2 == nb.col as int {
                        assert(stack@[stack@.len() - 1] == ((r2 as usize), (c2 as usize)));
                        assert(stack@.contains(((r2 as usize), (c2 as usize))));
                    } else {
                        assert(visited_at(cells_before, width, r2, c2));
                        if stack_before.contains(((r2 as usize), (c2 as usize))) {
                            let i = choose|i: int|
                                0 <= i < stack_before.len() && stack_before[i] == (
                                (r2 as usize),
                                (c2 as usize),
                                );
                            assert(stack@[i] == ((r2 as usize), (c2 as usize)));
                            assert(stack@.contains(((r2 as usize), (c2 as usize))));
                        } else {
                            assert(all_neighbors_visited(cells_before, width, height, r2, c2));
                            assert forall|d2: Direction| #[trigger] has_neighbor(
                                width,
                                height,
                                r2,
                                c2,
                                d2,
                            ) implies visited_at(
                                cells3,
                                width,
                                neighbor_row(r2, d2),
                                neighbor_col(c2, d2),
                            ) by {
                                assert(visited_at(
                                    cells_before,
                                    width,
                                    neighbor_row(r2, d2),
                                    neighbor_col(c2, d2),
                                ));
                            }
                        }
                    }
                }
                assert forall|r2: int, c2: int|
                    in_bounds(width, height, r2, c2) && #[trigger] visited_at(
                        cells3,
                        width,
                        r2,
                        c2,
                    ) implies reachable(cells3, width, height, (0int, 0int), (r2, c2)) by {
                    if r2 == neighbor_row(r as int, nb.dir) && c2 == neighbor_col(
                        c as int,
                        nb.dir,
                    ) {
                        assert(visited_at(cells_before, width, r as int, c as int));
                        assert(reachable(
                            cells_before,
                            width,
                            height,
                            (0int, 0int),
                            (r as int, c as int),
                        ));
                        lemma_reachable_monotone(
                            cells_before,
                            cells3,
                            width,
                            height,
                            (0int, 0int),
                            (r as int, c as int),
                        );
                        assert(!wall_at(cells3, width, r as int, c as int, nb.dir));
                        assert(passage_open(
                            cells3,
                            width,
                            height,
                            (r as int, c as int),
                            (r2, c2),
                        ));
                        lemma_reachable_step(
                            cells3,
                            width,
                            height,
                            (0int, 0int),
                            (r as int, c as int),
                            (r2, c2),
                        );
                    } else {
                        assert(visited_at(cells_before, width, r2, c2));
                        lemma_reachable_monotone(
                            cells_before,
                            cells3,
                            width,
                            height,
                            (0int, 0int),
                            (r2, c2),
                        );
                    }
                }
                if was_scripted {
                    assert(k as int == pick_index(raws_before, neighbors@.len() as int));
                    assert(source.remaining() == rest_of(raws_before));
                    assert(stack_before.last() == top);
                    assert(walk_from(cells_before, width, height, stack_before, raws_before)
                        == walk_from(cells3, width, height, stack@, source.remaining()));
                }
                lemma_carve_certificate(
                    cells_before,
                    width,
                    height,
                    r,
                    c,
                    nb.dir,
                    tree_depth,
                    tree_parent,
                );
                tree_depth = tree_depth.insert(
                    (neighbor_row(r as int, nb.dir), neighbor_col(c as int, nb.dir)),
                    tree_depth[((r as int), (c as int))] + 1,
                );
                tree_parent = tree_parent.insert(
                    (neighbor_row(r as int, nb.dir), neighbor_col(c as int, nb.dir)),
                    ((r as int), (c as int)),
                );
                assert(tree_certificate(cells3, width, height, tree_depth, tree_parent));
            }
        }
    }
    proof {
        assert forall|r2: int, c2: int|
            in_bounds(width, height, r2, c2) && #[trigger] visited_at(
                grid.cells@,
                width,
                r2,
                c2,
            ) implies all_neighbors_visited(grid.cells@, width, height, r2, c2) by {
            assert(!stack@.contains(((r2 as usize), (c2 as usize))));
        }
        assert forall|r2: int, c2: int| in_bounds(width, height, r2, c2) implies #[trigger] visited_at(
            grid.cells@,
            width,
            r2,
            c2,
        ) by {
            lemma_visited_cell(grid.cells@, width, height, r2, c2);
        }
        lemma_all_visited_count(grid.cells@, width, height);
        assert forall|r2: int, c2: int| in_bounds(width, height, r2, c2) implies #[trigger] reachable(
            grid.cells@,
            width,
            height,
            (0int, 0int),
            (r2, c2),
        ) by {
            assert(visited_at(grid.cells@, width, r2, c2));
        }
        if was_scripted {
            assert(walk_from(grid.cells@, width, height, stack@, source.remaining()) == (
                grid.cells@,
                source.remaining(),
            ));
            assert(grid.cells@ == spec_generate(width, height, old(source).remaining()).0);
            assert(source.remaining() == spec_generate(width, height, old(source).remaining()).1);
        }
        assert(tree_certificate(grid.cells@, width, height, tree_depth, tree_parent));
    }
    Ok(grid)
}

} // verus!
