//! The state of a maze while it grows from its first cell, and the facts that
//! carry that state from one growth step to the next.

use vstd::prelude::*;
use crate::graph::{
    is_forest_witness, is_simple_path, is_walk, lemma_connected, lemma_simple_path_unique,
};
use crate::mazegen::linked;
use crate::mazegen::{
    acyclic, all_connected, bit_count, bit_set, boundary_closed, cell_at, is_fresh, is_perfect,
    walls_symmetric, cell_index, in_grid, lemma_index_bounds, lemma_index_injective,
    masks_in_range, neighbor, opposite, passage_count, passage_graph, passage_open, sum_over,
    total_open_bits, visited_count, MazeCell2,
};

verus! {

pub open spec fn pos(p: (usize, usize)) -> (int, int) {
    (p.0 as int, p.1 as int)
}

/// The neighbor of `c` toward `d` lies in the grid and has joined the maze.
pub open spec fn visited_toward(w: int, h: int, cells: Seq<MazeCell2>, c: (int, int), d: u8) -> bool {
    in_grid(w, h, neighbor(c, d)) && cell_at(cells, h, neighbor(c, d)).visited()
}

pub open spec fn has_visited_neighbor(w: int, h: int, cells: Seq<MazeCell2>, c: (int, int)) -> bool {
    ||| visited_toward(w, h, cells, c, 0)
    ||| visited_toward(w, h, cells, c, 1)
    ||| visited_toward(w, h, cells, c, 2)
    ||| visited_toward(w, h, cells, c, 3)
}

pub open spec fn adjacent(a: (int, int), b: (int, int)) -> bool {
    b == neighbor(a, 0) || b == neighbor(a, 1) || b == neighbor(a, 2) || b == neighbor(a, 3)
}

/// What holds of the cells at every moment of growth: passages are opened on
/// both sides and only between visited cells, and a listed cell is unvisited.
pub open spec fn cells_ok(w: int, h: int, cells: Seq<MazeCell2>) -> bool {
    &&& w > 0
    &&& h > 0
    &&& cells.len() == w * h
    &&& masks_in_range(w, h, cells)
    &&& forall|c: (int, int), d: u8|
        in_grid(w, h, c) && d < 4 && #[trigger] passage_open(cells, h, c, d) ==> in_grid(
            w,
            h,
            neighbor(c, d),
        ) && passage_open(cells, h, neighbor(c, d), opposite(d))
    &&& forall|c: (int, int)|
        in_grid(w, h, c) && !(#[trigger] cell_at(cells, h, c)).visited() ==> cell_at(
            cells,
            h,
            c,
        ).mask() == 0
    &&& forall|c: (int, int)|
        in_grid(w, h, c) && (#[trigger] cell_at(cells, h, c)).listed() ==> !cell_at(
            cells,
            h,
            c,
        ).visited()
}

/// The frontier list holds each listed cell exactly once, and nothing else.
pub open spec fn frontier_ok(w: int, h: int, cells: Seq<MazeCell2>, f: Seq<(usize, usize)>) -> bool {
    &&& f.no_duplicates()
    &&& forall|j: int|
        0 <= j < f.len() ==> in_grid(w, h, pos(#[trigger] f[j])) && cell_at(
            cells,
            h,
            pos(f[j]),
        ).listed()
    &&& forall|c: (int, int)|
        in_grid(w, h, c) && (#[trigger] cell_at(cells, h, c)).listed() ==> exists|j: int|
            0 <= j < f.len() && pos(#[trigger] f[j]) == c
}

/// Every in-grid neighbor of a visited cell is visited or listed.
pub open spec fn closure_ok(w: int, h: int, cells: Seq<MazeCell2>) -> bool {
    forall|c: (int, int), d: u8|
        #![trigger cell_at(cells, h, neighbor(c, d))]
        in_grid(w, h, c) && d < 4 && cell_at(cells, h, c).visited() && in_grid(
            w,
            h,
            neighbor(c, d),
        ) ==> cell_at(cells, h, neighbor(c, d)).visited() || cell_at(
            cells,
            h,
            neighbor(c, d),
        ).listed()
}

/// Every listed cell has a visited neighbor, or lies next to `cur`.
pub open spec fn attached(w: int, h: int, cells: Seq<MazeCell2>, cur: (int, int)) -> bool {
    forall|c: (int, int)|
        in_grid(w, h, c) && (#[trigger] cell_at(cells, h, c)).listed() ==> has_visited_neighbor(
            w,
            h,
            cells,
            c,
        ) || adjacent(cur, c)
}

/// The visited cells with their parent links form a tree rooted at `root`
/// whose edges are exactly the open passages; `k` passages are open.
pub open spec fn tree_ok(
    w: int,
    h: int,
    cells: Seq<MazeCell2>,
    par: Map<(int, int), (int, int)>,
    rank: Map<(int, int), nat>,
    root: (int, int),
    k: nat,
) -> bool {
    &&& is_forest_witness(passage_graph(w, h, cells), par, rank)
    &&& in_grid(w, h, root)
    &&& cell_at(cells, h, root).visited()
    &&& !par.contains_key(root)
    &&& forall|c: (int, int)|
        in_grid(w, h, c) && (#[trigger] cell_at(cells, h, c)).visited() ==> rank.contains_key(c)
            && (c == root || par.contains_key(c))
    &&& forall|u: (int, int)| #[trigger]
        par.contains_key(u) ==> in_grid(w, h, u) && cell_at(cells, h, u).visited() && in_grid(
            w,
            h,
            par[u],
        ) && cell_at(cells, h, par[u]).visited()
    &&& forall|u: (int, int)| #[trigger] rank.contains_key(u) ==> rank[u] <= k
    &&& passage_count(cells) == k
    &&& total_open_bits(cells) == 2 * k
    &&& visited_count(cells) == k + 1
}

pub proof fn lemma_bits(m: u8, d: u8)
    requires
        d < 4,
    ensures
        forall|e: u8| e < 4 ==> (bit_set(m | (1u8 << d), e) <==> (bit_set(m, e) || e == d)),
        m < 16 ==> (m | (1u8 << d)) < 16,
        forall|e: u8| e < 8 ==> !bit_set(0u8, e),
{
    assert(forall|e: u8|
        e < 4 ==> ((((m | (1u8 << d)) >> e) & 1u8 == 1u8) <==> (((m >> e) & 1u8 == 1u8) || e
            == d))) by (bit_vector)
        requires
            d < 4,
    ;
    assert(m < 16 ==> (m | (1u8 << d)) < 16) by (bit_vector)
        requires
            d < 4,
    ;
    assert(forall|e: u8| e < 8 ==> !((0u8 >> e) & 1u8 == 1u8)) by (bit_vector);
}

pub proof fn lemma_neighbor_back(c: (int, int), d: u8)
    requires
        d < 4,
    ensures
        neighbor(neighbor(c, d), opposite(d)) == c,
        opposite(opposite(d)) == d,
        opposite(d) < 4,
        neighbor(c, d) != c,
{
}

/// Writing one cell changes the cell at that place and no other.
pub proof fn lemma_frame(w: int, h: int, cells: Seq<MazeCell2>, c0: (int, int), v: MazeCell2)
    requires
        cells.len() == w * h,
        in_grid(w, h, c0),
    ensures
        cells.update(cell_index(h, c0), v).len() == cells.len(),
        forall|c: (int, int)|
            in_grid(w, h, c) ==> #[trigger] cell_at(cells.update(cell_index(h, c0), v), h, c) == if c
                == c0 {
                v
            } else {
                cell_at(cells, h, c)
            },
{
    lemma_index_bounds(w, h, c0);
    assert forall|c: (int, int)| in_grid(w, h, c) implies #[trigger] cell_at(
        cells.update(cell_index(h, c0), v),
        h,
        c,
    ) == if c == c0 {
        v
    } else {
        cell_at(cells, h, c)
    } by {
        lemma_index_bounds(w, h, c);
        if c != c0 {
            if cell_index(h, c) == cell_index(h, c0) {
                lemma_index_injective(w, h, c, c0);
            }
        }
    }
}

pub proof fn lemma_sum_update(
    cells: Seq<MazeCell2>,
    i: int,
    v: MazeCell2,
    f: spec_fn(MazeCell2) -> nat,
)
    requires
        0 <= i < cells.len(),
    ensures
        sum_over(cells.update(i, v), f) + f(cells[i]) == sum_over(cells, f) + f(v),
    decreases cells.len(),
{
    let s2 = cells.update(i, v);
    if i == cells.len() - 1 {
        assert(s2.drop_last() =~= cells.drop_last());
    } else {
        lemma_sum_update(cells.drop_last(), i, v, f);
        assert(s2.drop_last() =~= cells.drop_last().update(i, v));
    }
}

pub proof fn lemma_sum_zero(cells: Seq<MazeCell2>, f: spec_fn(MazeCell2) -> nat)
    requires
        forall|i: int| 0 <= i < cells.len() ==> f(#[trigger] cells[i]) == 0,
    ensures
        sum_over(cells, f) == 0,
    decreases cells.len(),
{
    if cells.len() > 0 {
        lemma_sum_zero(cells.drop_last(), f);
    }
}

pub proof fn lemma_sum_ones(cells: Seq<MazeCell2>, f: spec_fn(MazeCell2) -> nat)
    requires
        forall|i: int| 0 <= i < cells.len() ==> f(#[trigger] cells[i]) == 1,
    ensures
        sum_over(cells, f) == cells.len(),
    decreases cells.len(),
{
    if cells.len() > 0 {
        lemma_sum_ones(cells.drop_last(), f);
    }
}

/// Changing a cell's listed flag changes neither the passages nor the counts.
pub proof fn lemma_same_shape(w: int, h: int, cells: Seq<MazeCell2>, c0: (int, int), v: MazeCell2)
    requires
        cells.len() == w * h,
        in_grid(w, h, c0),
        v.mask() == cell_at(cells, h, c0).mask(),
        v.visited() == cell_at(cells, h, c0).visited(),
    ensures
        passage_graph(w, h, cells.update(cell_index(h, c0), v)) == passage_graph(w, h, cells),
        passage_count(cells.update(cell_index(h, c0), v)) == passage_count(cells),
        total_open_bits(cells.update(cell_index(h, c0), v)) == total_open_bits(cells),
        visited_count(cells.update(cell_index(h, c0), v)) == visited_count(cells),
{
    let i = cell_index(h, c0);
    let s2 = cells.update(i, v);
    lemma_index_bounds(w, h, c0);
    lemma_frame(w, h, cells, c0, v);
    lemma_sum_update(cells, i, v, |c: MazeCell2| bit_count(c.mask()));
    lemma_sum_update(
        cells,
        i,
        v,
        |c: MazeCell2|
            (if bit_set(c.mask(), 0) { 1nat } else { 0nat }) + (if bit_set(c.mask(), 2) {
                1nat
            } else {
                0nat
            }),
    );
    lemma_sum_update(cells, i, v, |c: MazeCell2| if c.visited() { 1nat } else { 0nat });
    assert forall|a: (int, int), e: u8| in_grid(w, h, a) implies passage_open(s2, h, a, e)
        == passage_open(cells, h, a, e) by {
        assert(cell_at(s2, h, a).mask() == cell_at(cells, h, a).mask());
    }
    assert(passage_graph(w, h, s2) =~= passage_graph(w, h, cells));
}


/// What one growth step requires of the state and of the two written cells:
/// `cur`, taken from the frontier at `ri`, opens toward its visited neighbor
/// in direction `d`, and that neighbor opens back.
pub open spec fn attach_step(
    w: int,
    h: int,
    cells: Seq<MazeCell2>,
    cells2: Seq<MazeCell2>,
    f: Seq<(usize, usize)>,
    ri: int,
    cur: (int, int),
    d: u8,
    cv: MazeCell2,
    nv: MazeCell2,
) -> bool {
    &&& cells_ok(w, h, cells)
    &&& frontier_ok(w, h, cells, f)
    &&& closure_ok(w, h, cells)
    &&& attached(w, h, cells, cur)
    &&& 0 <= ri < f.len()
    &&& pos(f[ri]) == cur
    &&& forall|e: u8|
        e < 4 && in_grid(w, h, neighbor(cur, e)) ==> #[trigger] cell_at(
            cells,
            h,
            neighbor(cur, e),
        ).visited() || cell_at(cells, h, neighbor(cur, e)).listed()
    &&& d < 4
    &&& visited_toward(w, h, cells, cur, d)
    &&& cv.mask() == cell_at(cells, h, cur).mask() | (1u8 << d)
    &&& cv.visited()
    &&& !cv.listed()
    &&& nv.mask() == cell_at(cells, h, neighbor(cur, d)).mask() | (1u8 << opposite(d))
    &&& nv.visited()
    &&& !nv.listed()
    &&& cells2 == cells.update(cell_index(h, cur), cv).update(cell_index(h, neighbor(cur, d)), nv)
}

proof fn lemma_attach_frame(
    w: int,
    h: int,
    cells: Seq<MazeCell2>,
    cells2: Seq<MazeCell2>,
    f: Seq<(usize, usize)>,
    ri: int,
    cur: (int, int),
    d: u8,
    cv: MazeCell2,
    nv: MazeCell2,
)
    requires
        attach_step(w, h, cells, cells2, f, ri, cur, d, cv, nv),
    ensures
        in_grid(w, h, cur),
        cur != neighbor(cur, d),
        cell_at(cells, h, cur).mask() == 0,
        !cell_at(cells, h, cur).visited(),
        cell_at(cells, h, cur).listed(),
        !cell_at(cells, h, neighbor(cur, d)).listed(),
        !passage_open(cells, h, neighbor(cur, d), opposite(d)),
        neighbor(neighbor(cur, d), opposite(d)) == cur,
        cells2.len() == cells.len(),
        forall|c: (int, int)|
            in_grid(w, h, c) ==> #[trigger] cell_at(cells2, h, c) == if c == cur {
                cv
            } else if c == neighbor(cur, d) {
                nv
            } else {
                cell_at(cells, h, c)
            },
        forall|c: (int, int), e: u8|
            in_grid(w, h, c) && e < 4 ==> (#[trigger] passage_open(cells2, h, c, e) <==> (
            passage_open(cells, h, c, e) || (c == cur && e == d) || (c == neighbor(cur, d) && e
                == opposite(d)))),
        cv.mask() < 16,
        nv.mask() < 16,
{
    let n = neighbor(cur, d);
    let od = opposite(d);
    lemma_neighbor_back(cur, d);
    assert(in_grid(w, h, pos(f[ri])));
    assert(cell_at(cells, h, cur).listed());
    assert(!cell_at(cells, h, cur).visited());
    assert(cell_at(cells, h, cur).mask() == 0);
    assert(cell_at(cells, h, n).visited());
    assert(!cell_at(cells, h, n).listed());
    let mid = cells.update(cell_index(h, cur), cv);
    lemma_frame(w, h, cells, cur, cv);
    lemma_frame(w, h, mid, n, nv);
    assert(cell_at(mid, h, n) == cell_at(cells, h, n));
    lemma_bits(cell_at(cells, h, cur).mask(), d);
    lemma_bits(cell_at(cells, h, n).mask(), od);
    if passage_open(cells, h, n, od) {
        assert(passage_open(cells, h, neighbor(n, od), opposite(od)));
    }
    assert forall|c: (int, int), e: u8| in_grid(w, h, c) && e < 4 implies (
    #[trigger] passage_open(cells2, h, c, e) <==> (passage_open(cells, h, c, e) || (c == cur && e
        == d) || (c == n && e == od))) by {
        if c == cur {
            assert(cell_at(cells2, h, c) == cv);
            assert(!bit_set(cell_at(cells, h, cur).mask(), e));
        } else if c == n {
            assert(cell_at(cells2, h, c) == nv);
        } else {
            assert(cell_at(cells2, h, c) == cell_at(cells, h, c));
        }
    }
    assert(masks_in_range(w, h, cells));
    assert(cell_at(cells, h, n).mask() < 16);
}

/// A growth step keeps the cells, the frontier, the closure and the
/// attachment of listed cells in order.
pub proof fn lemma_attach_cells(
    w: int,
    h: int,
    cells: Seq<MazeCell2>,
    cells2: Seq<MazeCell2>,
    f: Seq<(usize, usize)>,
    ri: int,
    cur: (int, int),
    d: u8,
    cv: MazeCell2,
    nv: MazeCell2,
    root: (int, int),
)
    requires
        attach_step(w, h, cells, cells2, f, ri, cur, d, cv, nv),
    ensures
        cells_ok(w, h, cells2),
        frontier_ok(w, h, cells2, f.update(ri, f.last()).drop_last()),
        closure_ok(w, h, cells2),
        attached(w, h, cells2, root),
{
    lemma_attach_frame(w, h, cells, cells2, f, ri, cur, d, cv, nv);
    let n = neighbor(cur, d);
    let od = opposite(d);
    // cells
    assert forall|c: (int, int)| in_grid(w, h, c) implies #[trigger] cell_at(cells2, h, c).mask()
        < 16 by {
        if c != cur && c != n {
            assert(cell_at(cells, h, c).mask() < 16);
        }
    }
    assert forall|c: (int, int), e: u8|
        in_grid(w, h, c) && e < 4 && #[trigger] passage_open(cells2, h, c, e) implies in_grid(
            w,
            h,
            neighbor(c, e),
        ) && passage_open(cells2, h, neighbor(c, e), opposite(e)) by {
        lemma_neighbor_back(c, e);
        if passage_open(cells, h, c, e) {
            assert(in_grid(w, h, neighbor(c, e)));
            assert(passage_open(cells, h, neighbor(c, e), opposite(e)));
        } else if c == cur && e == d {
        } else {
            lemma_neighbor_back(cur, d);
        }
    }
    assert forall|c: (int, int)|
        in_grid(w, h, c) && !(#[trigger] cell_at(cells2, h, c)).visited() implies cell_at(
        cells2,
        h,
        c,
    ).mask() == 0 by {
        assert(cell_at(cells, h, c) == cell_at(cells2, h, c));
    }
    assert forall|c: (int, int)|
        in_grid(w, h, c) && (#[trigger] cell_at(cells2, h, c)).listed() implies !cell_at(
        cells2,
        h,
        c,
    ).visited() by {
        assert(cell_at(cells, h, c) == cell_at(cells2, h, c));
    }
    // frontier
    let f2 = f.update(ri, f.last()).drop_last();
    let last = f.len() - 1;
    assert forall|j: int| 0 <= j < f.len() && j != ri implies pos(#[trigger] f[j]) != cur by {
        if pos(f[j]) == cur {
            assert(f[j] == f[ri]);
        }
    }
    assert forall|j: int| 0 <= j < f2.len() implies in_grid(w, h, pos(#[trigger] f2[j]))
        && cell_at(cells2, h, pos(f2[j])).listed() by {
        let src = if j == ri {
            last
        } else {
            j
        };
        assert(f2[j] == f[src]);
        assert(in_grid(w, h, pos(f[src])) && cell_at(cells, h, pos(f[src])).listed());
        assert(pos(f[src]) != cur);
    }
    assert forall|j1: int, j2: int|
        0 <= j1 < f2.len() && 0 <= j2 < f2.len() && j1 != j2 implies f2[j1] != f2[j2] by {
        let s1 = if j1 == ri {
            last
        } else {
            j1
        };
        let s2 = if j2 == ri {
            last
        } else {
            j2
        };
        assert(f2[j1] == f[s1] && f2[j2] == f[s2]);
    }
    assert forall|c: (int, int)|
        in_grid(w, h, c) && (#[trigger] cell_at(cells2, h, c)).listed() implies exists|j: int|
        0 <= j < f2.len() && pos(#[trigger] f2[j]) == c by {
        assert(c != cur && c != n);
        assert(cell_at(cells, h, c).listed());
        let j = choose|j: int| 0 <= j < f.len() && pos(#[trigger] f[j]) == c;
        assert(j != ri);
        if j == last {
            assert(pos(f2[ri]) == c);
        } else {
            assert(pos(f2[j]) == c);
        }
    }
    // closure
    assert forall|c: (int, int), e: u8|
        #![trigger cell_at(cells2, h, neighbor(c, e))]
        in_grid(w, h, c) && e < 4 && cell_at(cells2, h, c).visited() && in_grid(
            w,
            h,
            neighbor(c, e),
        ) implies cell_at(cells2, h, neighbor(c, e)).visited() || cell_at(
        cells2,
        h,
        neighbor(c, e),
    ).listed() by {
        let m = neighbor(c, e);
        lemma_neighbor_back(c, e);
        if c == cur {
            assert(cell_at(cells, h, neighbor(cur, e)).visited() || cell_at(
                cells,
                h,
                neighbor(cur, e),
            ).listed());
        } else {
            assert(cell_at(cells, h, c).visited());
            assert(cell_at(cells, h, neighbor(c, e)).visited() || cell_at(
                cells,
                h,
                neighbor(c, e),
            ).listed());
        }
        if m != cur && m != n {
            assert(cell_at(cells2, h, m) == cell_at(cells, h, m));
        }
    }
    // attachment
    assert forall|c: (int, int)|
        in_grid(w, h, c) && (#[trigger] cell_at(cells2, h, c)).listed() implies has_visited_neighbor(
        w,
        h,
        cells2,
        c,
    ) || adjacent(root, c) by {
        assert(cell_at(cells, h, c) == cell_at(cells2, h, c));
        assert(has_visited_neighbor(w, h, cells, c) || adjacent(cur, c));
        assert forall|e: u8| e < 4 && #[trigger] visited_toward(w, h, cells, c, e) implies visited_toward(
            w,
            h,
            cells2,
            c,
            e,
        ) by {
            let m = neighbor(c, e);
            if m != cur && m != n {
                assert(cell_at(cells2, h, m) == cell_at(cells, h, m));
            }
        }
        if !has_visited_neighbor(w, h, cells, c) {
            let e: u8 = if c == neighbor(cur, 0) {
                0
            } else if c == neighbor(cur, 1) {
                1
            } else if c == neighbor(cur, 2) {
                2
            } else {
                3
            };
            lemma_neighbor_back(cur, e);
            assert(visited_toward(w, h, cells2, c, opposite(e)));
        }
    }
}


/// A growth step adds `cur` to the tree as a child of the neighbor it opened
/// toward, with the next rank, and one passage to the count.
pub proof fn lemma_attach_tree(
    w: int,
    h: int,
    cells: Seq<MazeCell2>,
    cells2: Seq<MazeCell2>,
    f: Seq<(usize, usize)>,
    ri: int,
    cur: (int, int),
    d: u8,
    cv: MazeCell2,
    nv: MazeCell2,
    par: Map<(int, int), (int, int)>,
    rank: Map<(int, int), nat>,
    root: (int, int),
    k: nat,
)
    requires
        attach_step(w, h, cells, cells2, f, ri, cur, d, cv, nv),
        tree_ok(w, h, cells, par, rank, root, k),
    ensures
        tree_ok(
            w,
            h,
            cells2,
            par.insert(cur, neighbor(cur, d)),
            rank.insert(cur, (k + 1) as nat),
            root,
            (k + 1) as nat,
        ),
{
    lemma_attach_frame(w, h, cells, cells2, f, ri, cur, d, cv, nv);
    let n = neighbor(cur, d);
    let od = opposite(d);
    let par2 = par.insert(cur, n);
    let rank2 = rank.insert(cur, (k + 1) as nat);
    let g = passage_graph(w, h, cells);
    let g2 = passage_graph(w, h, cells2);
    assert(!par.contains_key(cur));
    assert(rank.contains_key(n));
    assert(cur != root);
    // the new passage graph
    assert forall|a: (int, int), b: (int, int)|
        #[trigger] g2(a, b) <==> (g(a, b) || (a == cur && b == n) || (a == n && b == cur)) by {
        lemma_neighbor_back(cur, d);
        if in_grid(w, h, a) {
            assert(passage_open(cells2, h, a, 0) == (passage_open(cells, h, a, 0) || (a == cur && 0
                == d) || (a == n && 0 == od)));
            assert(passage_open(cells2, h, a, 1) == (passage_open(cells, h, a, 1) || (a == cur && 1
                == d) || (a == n && 1 == od)));
            assert(passage_open(cells2, h, a, 2) == (passage_open(cells, h, a, 2) || (a == cur && 2
                == d) || (a == n && 2 == od)));
            assert(passage_open(cells2, h, a, 3) == (passage_open(cells, h, a, 3) || (a == cur && 3
                == d) || (a == n && 3 == od)));
        }
    }
    assert forall|a: (int, int), b: (int, int)|
        #[trigger] g2(a, b) <==> ((par2.contains_key(a) && par2[a] == b) || (par2.contains_key(b)
            && par2[b] == a)) by {
        assert(g(a, b) <==> ((par.contains_key(a) && par[a] == b) || (par.contains_key(b) && par[b]
            == a)));
        if par.contains_key(a) && par[a] == cur {
            assert(cell_at(cells, h, par[a]).visited());
        }
        if par.contains_key(b) && par[b] == cur {
            assert(cell_at(cells, h, par[b]).visited());
        }
    }
    assert forall|u: (int, int)| #[trigger] par2.contains_key(u) implies rank2.contains_key(u)
        && rank2.contains_key(par2[u]) && rank2[par2[u]] < rank2[u] by {
        if u != cur {
            assert(par.contains_key(u));
            assert(cell_at(cells, h, par[u]).visited());
            assert(rank[par[u]] < rank[u]);
        } else {
            assert(rank[n] <= k);
        }
    }
    assert(is_forest_witness(g2, par2, rank2));
    assert forall|c: (int, int)|
        in_grid(w, h, c) && (#[trigger] cell_at(cells2, h, c)).visited() implies rank2.contains_key(c)
        && (c == root || par2.contains_key(c)) by {
        if c != cur {
            assert(cell_at(cells, h, c).visited());
        }
    }
    assert forall|u: (int, int)| #[trigger] par2.contains_key(u) implies in_grid(w, h, u) && cell_at(
        cells2,
        h,
        u,
    ).visited() && in_grid(w, h, par2[u]) && cell_at(cells2, h, par2[u]).visited() by {
        if u != cur {
            assert(par.contains_key(u));
        }
    }
    assert forall|u: (int, int)| #[trigger] rank2.contains_key(u) implies rank2[u] <= k + 1 by {
        if u != cur {
            assert(rank.contains_key(u));
        }
    }
    // the counts
    let mid = cells.update(cell_index(h, cur), cv);
    lemma_index_bounds(w, h, cur);
    lemma_index_bounds(w, h, n);
    lemma_frame(w, h, cells, cur, cv);
    assert(mid[cell_index(h, n)] == cell_at(cells, h, n));
    assert(cells[cell_index(h, cur)] == cell_at(cells, h, cur));
    let om = cell_at(cells, h, n).mask();
    lemma_bits(cell_at(cells, h, cur).mask(), d);
    lemma_bits(om, od);
    let pc = |c: MazeCell2|
        (if bit_set(c.mask(), 0) { 1nat } else { 0nat }) + (if bit_set(c.mask(), 2) {
            1nat
        } else {
            0nat
        });
    let bc = |c: MazeCell2| bit_count(c.mask());
    let vc = |c: MazeCell2| if c.visited() { 1nat } else { 0nat };
    lemma_sum_update(cells, cell_index(h, cur), cv, pc);
    lemma_sum_update(mid, cell_index(h, n), nv, pc);
    lemma_sum_update(cells, cell_index(h, cur), cv, bc);
    lemma_sum_update(mid, cell_index(h, n), nv, bc);
    lemma_sum_update(cells, cell_index(h, cur), cv, vc);
    lemma_sum_update(mid, cell_index(h, n), nv, vc);
    assert(!bit_set(om, od));
    assert(bit_count(cv.mask()) == 1);
    assert(bit_count(nv.mask()) == bit_count(om) + 1);
    assert(pc(cv) + pc(nv) == pc(cells[cell_index(h, cur)]) + pc(mid[cell_index(h, n)]) + 1);
}


/// Tree facts survive any change that keeps every mask and visited flag.
pub proof fn lemma_tree_frame(
    w: int,
    h: int,
    cells: Seq<MazeCell2>,
    cells2: Seq<MazeCell2>,
    par: Map<(int, int), (int, int)>,
    rank: Map<(int, int), nat>,
    root: (int, int),
    k: nat,
)
    requires
        tree_ok(w, h, cells, par, rank, root, k),
        forall|c: (int, int)|
            in_grid(w, h, c) ==> (#[trigger] cell_at(cells2, h, c)).visited() == cell_at(
                cells,
                h,
                c,
            ).visited(),
        passage_graph(w, h, cells2) == passage_graph(w, h, cells),
        passage_count(cells2) == passage_count(cells),
        total_open_bits(cells2) == total_open_bits(cells),
        visited_count(cells2) == visited_count(cells),
    ensures
        tree_ok(w, h, cells2, par, rank, root, k),
{
    assert(cell_at(cells2, h, root).visited());
    assert forall|c: (int, int)|
        in_grid(w, h, c) && (#[trigger] cell_at(cells2, h, c)).visited() implies rank.contains_key(c)
        && (c == root || par.contains_key(c)) by {
        assert(cell_at(cells, h, c).visited());
    }
    assert forall|u: (int, int)| #[trigger] par.contains_key(u) implies in_grid(w, h, u) && cell_at(
        cells2,
        h,
        u,
    ).visited() && in_grid(w, h, par[u]) && cell_at(cells2, h, par[u]).visited() by {
        assert(cell_at(cells, h, u).visited());
        assert(cell_at(cells, h, par[u]).visited());
    }
}

/// When the root is visited, a cell next to it has a visited neighbor.
pub proof fn lemma_attached_any(
    w: int,
    h: int,
    cells: Seq<MazeCell2>,
    root: (int, int),
    cur: (int, int),
)
    requires
        attached(w, h, cells, root),
        in_grid(w, h, root),
        cell_at(cells, h, root).visited(),
    ensures
        attached(w, h, cells, cur),
        forall|c: (int, int)|
            in_grid(w, h, c) && (#[trigger] cell_at(cells, h, c)).listed() ==> has_visited_neighbor(
                w,
                h,
                cells,
                c,
            ),
{
    assert forall|c: (int, int)|
        in_grid(w, h, c) && (#[trigger] cell_at(cells, h, c)).listed() implies has_visited_neighbor(
        w,
        h,
        cells,
        c,
    ) by {
        if !has_visited_neighbor(w, h, cells, c) {
            assert(adjacent(root, c));
            let e: u8 = if c == neighbor(root, 0) {
                0
            } else if c == neighbor(root, 1) {
                1
            } else if c == neighbor(root, 2) {
                2
            } else {
                3
            };
            lemma_neighbor_back(root, e);
            assert(visited_toward(w, h, cells, c, opposite(e)));
        }
    }
}

/// The state right after the first cell is visited in a fresh grid.
pub proof fn lemma_start(
    w: int,
    h: int,
    cells0: Seq<MazeCell2>,
    cells: Seq<MazeCell2>,
    root: (int, int),
    cv: MazeCell2,
)
    requires
        w > 0,
        h > 0,
        cells0.len() == w * h,
        forall|i: int| 0 <= i < cells0.len() ==> is_fresh(#[trigger] cells0[i]),
        in_grid(w, h, root),
        cv.mask() == 0,
        cv.visited(),
        !cv.listed(),
        cells == cells0.update(cell_index(h, root), cv),
    ensures
        cells_ok(w, h, cells),
        frontier_ok(w, h, cells, Seq::<(usize, usize)>::empty()),
        attached(w, h, cells, root),
        tree_ok(w, h, cells, Map::empty(), map![root => 0nat], root, 0),
        forall|c: (int, int)|
            in_grid(w, h, c) && (#[trigger] cell_at(cells, h, c)).visited() ==> c == root,
{
    lemma_frame(w, h, cells0, root, cv);
    lemma_bits(0u8, 0);
    assert forall|c: (int, int)| in_grid(w, h, c) implies is_fresh(#[trigger] cell_at(cells0, h, c)) by {
        lemma_index_bounds(w, h, c);
    }
    assert forall|c: (int, int)| in_grid(w, h, c) implies (#[trigger] cell_at(cells, h, c)).mask()
        == 0 && !cell_at(cells, h, c).listed() && (cell_at(cells, h, c).visited() ==> c == root) by {
        assert(is_fresh(cell_at(cells0, h, c)));
    }
    assert forall|c: (int, int), e: u8| in_grid(w, h, c) && e < 4 implies !#[trigger] passage_open(
        cells,
        h,
        c,
        e,
    ) by {
        assert(cell_at(cells, h, c).mask() == 0);
    }
    let g = passage_graph(w, h, cells);
    let par = Map::<(int, int), (int, int)>::empty();
    let rank = map![root => 0nat];
    assert forall|a: (int, int), b: (int, int)|
        #[trigger] g(a, b) <==> ((par.contains_key(a) && par[a] == b) || (par.contains_key(b) && par[b]
            == a)) by {
        if in_grid(w, h, a) {
            assert(!passage_open(cells, h, a, 0));
            assert(!passage_open(cells, h, a, 1));
            assert(!passage_open(cells, h, a, 2));
            assert(!passage_open(cells, h, a, 3));
        }
    }
    let pc = |c: MazeCell2|
        (if bit_set(c.mask(), 0) { 1nat } else { 0nat }) + (if bit_set(c.mask(), 2) {
            1nat
        } else {
            0nat
        });
    let bc = |c: MazeCell2| bit_count(c.mask());
    let vc = |c: MazeCell2| if c.visited() { 1nat } else { 0nat };
    lemma_sum_zero(cells0, pc);
    lemma_sum_zero(cells0, bc);
    lemma_sum_zero(cells0, vc);
    lemma_index_bounds(w, h, root);
    lemma_sum_update(cells0, cell_index(h, root), cv, pc);
    lemma_sum_update(cells0, cell_index(h, root), cv, bc);
    lemma_sum_update(cells0, cell_index(h, root), cv, vc);
}

proof fn lemma_reach_row(w: int, h: int, cells: Seq<MazeCell2>, root: (int, int), x: int)
    requires
        closure_ok(w, h, cells),
        forall|c: (int, int)| in_grid(w, h, c) ==> !(#[trigger] cell_at(cells, h, c)).listed(),
        in_grid(w, h, root),
        cell_at(cells, h, root).visited(),
        0 <= x < w,
    ensures
        cell_at(cells, h, (x, root.1)).visited(),
    decreases if x > root.0 {
        x - root.0
    } else {
        root.0 - x
    },
{
    if x > root.0 {
        lemma_reach_row(w, h, cells, root, x - 1);
        assert(cell_at(cells, h, neighbor((x - 1, root.1), 0)).visited() || cell_at(
            cells,
            h,
            neighbor((x - 1, root.1), 0),
        ).listed());
    } else if x < root.0 {
        lemma_reach_row(w, h, cells, root, x + 1);
        assert(cell_at(cells, h, neighbor((x + 1, root.1), 1)).visited() || cell_at(
            cells,
            h,
            neighbor((x + 1, root.1), 1),
        ).listed());
    }
}

proof fn lemma_reach(w: int, h: int, cells: Seq<MazeCell2>, root: (int, int), c: (int, int))
    requires
        closure_ok(w, h, cells),
        forall|c: (int, int)| in_grid(w, h, c) ==> !(#[trigger] cell_at(cells, h, c)).listed(),
        in_grid(w, h, root),
        cell_at(cells, h, root).visited(),
        in_grid(w, h, c),
    ensures
        cell_at(cells, h, c).visited(),
    decreases if c.1 > root.1 {
        c.1 - root.1
    } else {
        root.1 - c.1
    },
{
    if c.1 == root.1 {
        lemma_reach_row(w, h, cells, root, c.0);
    } else if c.1 > root.1 {
        lemma_reach(w, h, cells, root, (c.0, c.1 - 1));
        assert(cell_at(cells, h, neighbor((c.0, c.1 - 1), 2)).visited() || cell_at(
            cells,
            h,
            neighbor((c.0, c.1 - 1), 2),
        ).listed());
    } else {
        lemma_reach(w, h, cells, root, (c.0, c.1 + 1));
        assert(cell_at(cells, h, neighbor((c.0, c.1 + 1), 3)).visited() || cell_at(
            cells,
            h,
            neighbor((c.0, c.1 + 1), 3),
        ).listed());
    }
}

proof fn lemma_index_onto(w: int, h: int, i: int) -> (c: (int, int))
    requires
        w > 0,
        h > 0,
        0 <= i < w * h,
    ensures
        in_grid(w, h, c),
        cell_index(h, c) == i,
{
    let x = i / h;
    let y = i % h;
    vstd::arithmetic::div_mod::lemma_fundamental_div_mod(i, h);
    assert(0 <= y < h);
    assert(0 <= x < w) by (nonlinear_arith)
        requires
            i == h * x + y,
            0 <= y < h,
            0 <= i < w * h,
            h > 0,
    ;
    assert(x * h + y == i) by (nonlinear_arith)
        requires
            i == h * x + y,
    ;
    (x, y)
}

pub proof fn lemma_sum_at_most_len(cells: Seq<MazeCell2>, f: spec_fn(MazeCell2) -> nat)
    requires
        forall|i: int| 0 <= i < cells.len() ==> f(#[trigger] cells[i]) <= 1,
    ensures
        sum_over(cells, f) <= cells.len(),
    decreases cells.len(),
{
    if cells.len() > 0 {
        lemma_sum_at_most_len(cells.drop_last(), f);
    }
}

/// Growth with an empty frontier has produced a perfect maze.
pub proof fn lemma_finish(
    w: int,
    h: int,
    cells: Seq<MazeCell2>,
    par: Map<(int, int), (int, int)>,
    rank: Map<(int, int), nat>,
    root: (int, int),
    k: nat,
)
    requires
        cells_ok(w, h, cells),
        frontier_ok(w, h, cells, Seq::<(usize, usize)>::empty()),
        closure_ok(w, h, cells),
        tree_ok(w, h, cells, par, rank, root, k),
    ensures
        is_perfect(w, h, cells),
{
    let g = passage_graph(w, h, cells);
    assert forall|c: (int, int)| in_grid(w, h, c) implies !(#[trigger] cell_at(cells, h, c)).listed() by {
        if cell_at(cells, h, c).listed() {
            let j = choose|j: int| 0 <= j < 0 && pos(#[trigger] Seq::<(usize, usize)>::empty()[j]) == c;
        }
    }
    assert forall|c: (int, int)| in_grid(w, h, c) implies (#[trigger] cell_at(cells, h, c)).visited() by {
        lemma_reach(w, h, cells, root, c);
    }
    let vc = |c: MazeCell2| if c.visited() { 1nat } else { 0nat };
    assert forall|i: int| 0 <= i < cells.len() implies vc(#[trigger] cells[i]) == 1 by {
        let c = lemma_index_onto(w, h, i);
        assert(cell_at(cells, h, c).visited());
    }
    lemma_sum_ones(cells, vc);
    assert forall|c: (int, int), d: u8| in_grid(w, h, c) && d < 4 implies (
    #[trigger] passage_open(cells, h, c, d) <==> (in_grid(w, h, neighbor(c, d)) && passage_open(
        cells,
        h,
        neighbor(c, d),
        opposite(d),
    ))) by {
        lemma_neighbor_back(c, d);
        if in_grid(w, h, neighbor(c, d)) && passage_open(cells, h, neighbor(c, d), opposite(d)) {
            assert(passage_open(
                cells,
                h,
                neighbor(neighbor(c, d), opposite(d)),
                opposite(opposite(d)),
            ));
        }
    }
    assert(walls_symmetric(w, h, cells));
    assert(boundary_closed(w, h, cells));
    let s = Set::new(|c: (int, int)| in_grid(w, h, c));
    assert forall|a: (int, int), b: (int, int)| in_grid(w, h, a) && in_grid(w, h, b) implies exists|
        p: Seq<(int, int)>,
    | #[trigger] is_walk(g, p) && p[0] == a && p.last() == b by {
        assert forall|x: (int, int)| #[trigger] s.contains(x) && !par.contains_key(x) implies x
            == root by {
            assert(cell_at(cells, h, x).visited());
        }
        let p = lemma_connected(g, par, rank, s, root, a, b);
    }
    assert(all_connected(w, h, cells));
    assert forall|p: Seq<(int, int)>, q: Seq<(int, int)>|
        #[trigger] is_simple_path(g, p) && #[trigger] is_simple_path(g, q) && p[0] == q[0] && p.last()
            == q.last() implies p == q by {
        lemma_simple_path_unique(g, par, rank, p, q);
    }
    assert(acyclic(w, h, cells));
}

} // verus!
