//! Reachability through open passages: paths over grid cells that only
//! cross removed walls, and the lemmas the generator needs to show every
//! cell of a finished maze can be reached from the origin.

use vstd::prelude::*;
use crate::grid::{
    Cell, Direction, in_bounds, lemma_neighbor_distinct, neighbor_col, neighbor_row, symmetric,
    wall_at,
};

verus! {

/// Cells `a` and `b` are grid-adjacent and the wall between them, seen
/// from `a`, is removed.
pub open spec fn passage_open(
    cells: Seq<Cell>,
    w: usize,
    h: usize,
    a: (int, int),
    b: (int, int),
) -> bool {
    exists|d: Direction|
        in_bounds(w, h, a.0, a.1) && in_bounds(w, h, b.0, b.1) && b.0 == neighbor_row(a.0, d)
            && b.1 == neighbor_col(a.1, d) && !(#[trigger] wall_at(cells, w, a.0, a.1, d))
}

/// A walk through the maze: at least one cell, starting in bounds, each
/// step crossing an open passage.
pub open spec fn is_open_path(cells: Seq<Cell>, w: usize, h: usize, p: Seq<(int, int)>) -> bool {
    &&& p.len() >= 1
    &&& in_bounds(w, h, p[0].0, p[0].1)
    &&& forall|i: int|
        0 <= i < p.len() - 1 ==> passage_open(cells, w, h, #[trigger] p[i], p[i + 1])
}

/// Cell `b` can be reached from cell `a` through open passages alone.
pub open spec fn reachable(cells: Seq<Cell>, w: usize, h: usize, a: (int, int), b: (int, int)) -> bool {
    exists|p: Seq<(int, int)>|
        #[trigger] is_open_path(cells, w, h, p) && p.first() == a && p.last() == b
}

/// Two walk steps cross the same passage, in either direction.
pub open spec fn same_edge(a1: (int, int), b1: (int, int), a2: (int, int), b2: (int, int)) -> bool {
    (a1 == a2 && b1 == b2) || (a1 == b2 && b1 == a2)
}

/// A witness that the open-passage graph is a forest rooted at the
/// origin: every open passage joins a cell to its unique tree parent,
/// one level up.
pub open spec fn tree_certificate(
    cells: Seq<Cell>,
    w: usize,
    h: usize,
    depth: Map<(int, int), int>,
    parent: Map<(int, int), (int, int)>,
) -> bool {
    forall|a: (int, int), b: (int, int)|
        #[trigger] passage_open(cells, w, h, a, b) ==> (depth[b] == depth[a] + 1 && parent[b] == a)
            || (depth[a] == depth[b] + 1 && parent[a] == b)
}

/// Every closed walk through open passages crosses some passage twice:
/// with a tree certificate in hand, the open-passage graph is acyclic.
pub proof fn lemma_tree_no_cycle(
    cells: Seq<Cell>,
    w: usize,
    h: usize,
    depth: Map<(int, int), int>,
    parent: Map<(int, int), (int, int)>,
    p: Seq<(int, int)>,
)
    requires
        tree_certificate(cells, w, h, depth, parent),
        is_open_path(cells, w, h, p),
        p.len() >= 2,
        p.first() == p.last(),
    ensures
        exists|i: int, j: int|
            0 <= i < j < p.len() - 1 && #[trigger] same_edge(p[i], p[i + 1], p[j], p[j + 1]),
{
    if p.len() == 2 {
        assert(passage_open(cells, w, h, p[0], p[1]));
        let d = choose|d: Direction|
            in_bounds(w, h, p[0].0, p[0].1) && in_bounds(w, h, p[1].0, p[1].1) && p[1].0
                == neighbor_row(p[0].0, d) && p[1].1 == neighbor_col(p[0].1, d) && !(
            #[trigger] wall_at(cells, w, p[0].0, p[0].1, d));
        lemma_neighbor_distinct(p[0].0, p[0].1, d);
        assert(p[1] != p[0]);
        assert(false);
    } else {
        let last: int = p.len() - 1;
        let m = lemma_max_depth_index(depth, p, last);
        if m >= 1 {
            assert(passage_open(cells, w, h, p[m - 1], p[m]));
            assert(depth[p[m - 1]] <= depth[p[m]]);
            assert(depth[p[m]] == depth[p[m - 1]] + 1 && parent[p[m]] == p[m - 1]);
            assert(passage_open(cells, w, h, p[m], p[m + 1]));
            if m + 1 < last {
                assert(depth[p[m + 1]] <= depth[p[m]]);
            } else {
                assert(p[m + 1] == p[0]);
                assert(depth[p[0]] <= depth[p[m]]);
            }
            assert(depth[p[m]] == depth[p[m + 1]] + 1 && parent[p[m]] == p[m + 1]);
            assert(p[m - 1] == p[m + 1]);
            assert(same_edge(p[m - 1], p[m], p[m], p[m + 1]));
        } else {
            assert(passage_open(cells, w, h, p[0], p[1]));
            assert(depth[p[1]] <= depth[p[0]]);
            assert(depth[p[0]] == depth[p[1]] + 1 && parent[p[0]] == p[1]);
            assert(passage_open(cells, w, h, p[last - 1], p[last]));
            assert(p[last] == p[0]);
            assert(depth[p[last - 1]] <= depth[p[0]]);
            assert(depth[p[0]] == depth[p[last - 1]] + 1 && parent[p[0]] == p[last - 1]);
            assert(p[1] == p[last - 1]);
            assert(0 < last - 1);
            assert(same_edge(p[0], p[1], p[last - 1], p[last]));
        }
    }
}

/// Acyclicity of a finished maze: the generator guarantees a tree
/// certificate exists, and under any such certificate a closed walk
/// through open passages must cross some passage twice — the maze has no
/// cycle, so it is a perfect maze.
pub proof fn lemma_maze_acyclic(cells: Seq<Cell>, w: usize, h: usize, p: Seq<(int, int)>)
    requires
        exists|dm: Map<(int, int), int>, pm: Map<(int, int), (int, int)>|
            tree_certificate(cells, w, h, dm, pm),
        is_open_path(cells, w, h, p),
        p.len() >= 2,
        p.first() == p.last(),
    ensures
        exists|i: int, j: int|
            0 <= i < j < p.len() - 1 && #[trigger] same_edge(p[i], p[i + 1], p[j], p[j + 1]),
{
    let (dm, pm) = choose|dm: Map<(int, int), int>, pm: Map<(int, int), (int, int)>|
        tree_certificate(cells, w, h, dm, pm);
    lemma_tree_no_cycle(cells, w, h, dm, pm, p);
}

/// An index of maximal depth among the first `n` positions of a walk.
proof fn lemma_max_depth_index(depth: Map<(int, int), int>, p: Seq<(int, int)>, n: int) -> (m: int)
    requires
        1 <= n <= p.len(),
    ensures
        0 <= m < n,
        forall|i: int| 0 <= i < n ==> depth[#[trigger] p[i]] <= depth[p[m]],
    decreases n,
{
    if n == 1 {
        0
    } else {
        let m0 = lemma_max_depth_index(depth, p, n - 1);
        if depth[p[n - 1]] > depth[p[m0]] {
            n - 1
        } else {
            m0
        }
    }
}

/// Every in-bounds cell reaches itself.
pub proof fn lemma_reachable_refl(cells: Seq<Cell>, w: usize, h: usize, a: (int, int))
    requires
        in_bounds(w, h, a.0, a.1),
    ensures
        reachable(cells, w, h, a, a),
{
    let p = seq![a];
    assert(is_open_path(cells, w, h, p));
    assert(p.first() == a && p.last() == a);
}

/// A reachable cell's open-passage neighbor is reachable too.
pub proof fn lemma_reachable_step(
    cells: Seq<Cell>,
    w: usize,
    h: usize,
    a: (int, int),
    b: (int, int),
    b2: (int, int),
)
    requires
        reachable(cells, w, h, a, b),
        passage_open(cells, w, h, b, b2),
    ensures
        reachable(cells, w, h, a, b2),
{
    let p = choose|p: Seq<(int, int)>|
        #[trigger] is_open_path(cells, w, h, p) && p.first() == a && p.last() == b;
    let q = p.push(b2);
    assert forall|i: int| 0 <= i < q.len() - 1 implies passage_open(cells, w, h, #[trigger] q[i], q[i + 1]) by {
        if i < p.len() - 1 {
            assert(q[i] == p[i]);
            assert(q[i + 1] == p[i + 1]);
            assert(passage_open(cells, w, h, p[i], p[i + 1]));
        } else {
            assert(q[i] == b);
            assert(q[i + 1] == b2);
        }
    }
    assert(is_open_path(cells, w, h, q));
    assert(q.first() == a && q.last() == b2);
}

/// Opening further walls never closes a passage, so reachability is kept
/// by any change that only removes walls.
pub proof fn lemma_reachable_monotone(
    c1: Seq<Cell>,
    c2: Seq<Cell>,
    w: usize,
    h: usize,
    a: (int, int),
    b: (int, int),
)
    requires
        reachable(c1, w, h, a, b),
        forall|r: int, c: int, d: Direction|
            in_bounds(w, h, r, c) && !(#[trigger] wall_at(c1, w, r, c, d)) ==> !wall_at(
                c2,
                w,
                r,
                c,
                d,
            ),
    ensures
        reachable(c2, w, h, a, b),
{
    let p = choose|p: Seq<(int, int)>|
        #[trigger] is_open_path(c1, w, h, p) && p.first() == a && p.last() == b;
    assert forall|i: int| 0 <= i < p.len() - 1 implies passage_open(c2, w, h, #[trigger] p[i], p[i + 1]) by {
        assert(passage_open(c1, w, h, p[i], p[i + 1]));
        let d = choose|d: Direction|
            in_bounds(w, h, p[i].0, p[i].1) && in_bounds(w, h, p[i + 1].0, p[i + 1].1) && p[i
                + 1].0 == neighbor_row(p[i].0, d) && p[i + 1].1 == neighbor_col(p[i].1, d) && !(
            #[trigger] wall_at(c1, w, p[i].0, p[i].1, d));
        assert(!wall_at(c2, w, p[i].0, p[i].1, d));
    }
    assert(is_open_path(c2, w, h, p));
}

/// In a wall-symmetric grid every open passage can be walked both ways.
pub proof fn lemma_passage_symmetric(
    cells: Seq<Cell>,
    w: usize,
    h: usize,
    a: (int, int),
    b: (int, int),
)
    requires
        symmetric(cells, w, h),
        passage_open(cells, w, h, a, b),
    ensures
        passage_open(cells, w, h, b, a),
{
    let d = choose|d: Direction|
        in_bounds(w, h, a.0, a.1) && in_bounds(w, h, b.0, b.1) && b.0 == neighbor_row(a.0, d)
            && b.1 == neighbor_col(a.1, d) && !(#[trigger] wall_at(cells, w, a.0, a.1, d));
    assert(wall_at(cells, w, a.0, a.1, d) == wall_at(
        cells,
        w,
        neighbor_row(a.0, d),
        neighbor_col(a.1, d),
        d.spec_opposite(),
    ));
    assert(a.0 == neighbor_row(b.0, d.spec_opposite()) && a.1 == neighbor_col(
        b.1,
        d.spec_opposite(),
    ));
    assert(!wall_at(cells, w, b.0, b.1, d.spec_opposite()));
}

/// In a wall-symmetric grid reachability runs backwards as well.
pub proof fn lemma_reachable_symmetric(
    cells: Seq<Cell>,
    w: usize,
    h: usize,
    a: (int, int),
    b: (int, int),
)
    requires
        symmetric(cells, w, h),
        reachable(cells, w, h, a, b),
    ensures
        reachable(cells, w, h, b, a),
{
    let p = choose|p: Seq<(int, int)>|
        #[trigger] is_open_path(cells, w, h, p) && p.first() == a && p.last() == b;
    lemma_reverse_path(cells, w, h, p, p.len() as int - 1);
}

/// Connectivity of a finished maze: in a wall-symmetric grid whose every
/// cell is reachable from the origin, every cell is reachable from every
/// other through open passages alone.
pub proof fn lemma_maze_connected(
    cells: Seq<Cell>,
    w: usize,
    h: usize,
    a: (int, int),
    b: (int, int),
)
    requires
        symmetric(cells, w, h),
        forall|r: int, c: int|
            in_bounds(w, h, r, c) ==> #[trigger] reachable(cells, w, h, (0int, 0int), (r, c)),
        in_bounds(w, h, a.0, a.1),
        in_bounds(w, h, b.0, b.1),
    ensures
        reachable(cells, w, h, a, b),
{
    assert(reachable(cells, w, h, (0int, 0int), (a.0, a.1)));
    assert(reachable(cells, w, h, (0int, 0int), (b.0, b.1)));
    lemma_reachable_symmetric(cells, w, h, (0int, 0int), (a.0, a.1));
    assert(a == (a.0, a.1) && b == (b.0, b.1));
    lemma_reachable_trans(cells, w, h, a, (0int, 0int), b);
}

/// The prefix of an open path, walked backwards from position `i`,
/// reaches the path's start.
proof fn lemma_reverse_path(cells: Seq<Cell>, w: usize, h: usize, p: Seq<(int, int)>, i: int)
    requires
        symmetric(cells, w, h),
        is_open_path(cells, w, h, p),
        0 <= i < p.len(),
    ensures
        reachable(cells, w, h, p[i], p[0]),
    decreases i,
{
    if i == 0 {
        assert(in_bounds(w, h, p[0].0, p[0].1));
        lemma_reachable_refl(cells, w, h, p[0]);
    } else {
        assert(passage_open(cells, w, h, p[i - 1], p[i]));
        lemma_passage_symmetric(cells, w, h, p[i - 1], p[i]);
        assert(in_bounds(w, h, p[i].0, p[i].1));
        lemma_reachable_refl(cells, w, h, p[i]);
        lemma_reachable_step(cells, w, h, p[i], p[i], p[i - 1]);
        lemma_reverse_path(cells, w, h, p, i - 1);
        lemma_reachable_trans(cells, w, h, p[i], p[i - 1], p[0]);
    }
}

/// Reachability chains: a walk to `b` followed by a walk to `c2` reaches
/// `c2`.
pub proof fn lemma_reachable_trans(
    cells: Seq<Cell>,
    w: usize,
    h: usize,
    a: (int, int),
    b: (int, int),
    c2: (int, int),
)
    requires
        reachable(cells, w, h, a, b),
        reachable(cells, w, h, b, c2),
    ensures
        reachable(cells, w, h, a, c2),
{
    let q = choose|q: Seq<(int, int)>|
        #[trigger] is_open_path(cells, w, h, q) && q.first() == b && q.last() == c2;
    lemma_walk_along_path(cells, w, h, a, q, q.len() as int - 1);
}

/// Walking an open path step by step keeps every visited position
/// reachable from `a`, provided the path's start is.
proof fn lemma_walk_along_path(
    cells: Seq<Cell>,
    w: usize,
    h: usize,
    a: (int, int),
    q: Seq<(int, int)>,
    i: int,
)
    requires
        is_open_path(cells, w, h, q),
        reachable(cells, w, h, a, q[0]),
        0 <= i < q.len(),
    ensures
        reachable(cells, w, h, a, q[i]),
    decreases i,
{
    if i > 0 {
        lemma_walk_along_path(cells, w, h, a, q, i - 1);
        assert(passage_open(cells, w, h, q[i - 1], q[i]));
        lemma_reachable_step(cells, w, h, a, q[i - 1], q[i]);
    }
}

} // verus!
