//! Grid cells with a four-direction passage mask, and the maze built from them.

use vstd::prelude::*;
use crate::graph::{is_simple_path, is_walk};
use crate::growth::{
    attach_step, attached, cells_ok, closure_ok, frontier_ok, has_visited_neighbor, lemma_attach_cells,
    lemma_attach_tree, lemma_attached_any, lemma_bits, lemma_finish, lemma_frame,
    lemma_same_shape, lemma_start, lemma_sum_at_most_len, lemma_tree_frame, pos, tree_ok,
    visited_toward,
};
use crate::rng::random_below;

verus! {

/// Whether bit `d` of the passage mask `m` is set.
pub open spec fn bit_set(m: u8, d: u8) -> bool {
    (m >> d) & 1u8 == 1u8
}

/// One grid cell: which of its four passages are open, and its state in the
/// frontier-growth process.
#[derive(Clone, Copy)]
pub struct MazeCell2 {
    open_dir: u8,
    visited: bool,
    listed: bool,
}

impl MazeCell2 {
    /// The passage mask: bit `d` set means the passage toward direction `d` is open.
    pub closed spec fn mask(&self) -> u8 {
        self.open_dir
    }

    /// True once the cell has joined the maze.
    pub closed spec fn visited(&self) -> bool {
        self.visited
    }

    /// True while the cell waits in the frontier.
    pub closed spec fn listed(&self) -> bool {
        self.listed
    }

    pub fn new() -> (c: MazeCell2)
        ensures
            c.mask() == 0,
            !c.visited(),
            !c.listed(),
    {
        MazeCell2 { open_dir: 0, visited: false, listed: false }
    }

    pub fn visit(&mut self)
        ensures
            final(self).mask() == old(self).mask(),
            final(self).visited(),
            final(self).listed() == old(self).listed(),
    {
        self.visited = true;
    }

    pub fn list(&mut self)
        ensures
            final(self).mask() == old(self).mask(),
            final(self).visited() == old(self).visited(),
            final(self).listed(),
    {
        self.listed = true;
    }

    pub fn unlist(&mut self)
        ensures
            final(self).mask() == old(self).mask(),
            final(self).visited() == old(self).visited(),
            !final(self).listed(),
    {
        self.listed = false;
    }

    pub fn open(&mut self, dir: u8)
        requires
            dir < 4,
        ensures
            final(self).mask() == old(self).mask() | (1u8 << dir),
            final(self).visited() == old(self).visited(),
            final(self).listed() == old(self).listed(),
    {
        self.open_dir = self.open_dir | (1u8 << dir);
    }

    pub fn is_visited(&self) -> (r: bool)
        ensures
            r == self.visited(),
    {
        self.visited
    }

    pub fn is_listed(&self) -> (r: bool)
        ensures
            r == self.listed(),
    {
        self.listed
    }

    pub fn val(&self) -> (r: u8)
        ensures
            r == self.mask(),
    {
        self.open_dir
    }

    pub fn is_open(&self, dir: u8) -> (r: bool)
        requires
            dir < 4,
        ensures
            r == bit_set(self.mask(), dir),
    {
        (self.open_dir >> dir) & 1 == 1
    }
}


/// Direction codes: `0` is +X, `1` is -X, `2` is +Y, `3` is -Y.
pub open spec fn opposite(d: u8) -> u8 {
    if d == 0 {
        1
    } else if d == 1 {
        0
    } else if d == 2 {
        3
    } else {
        2
    }
}

/// The cell one step from `c` in direction `d`.
pub open spec fn neighbor(c: (int, int), d: u8) -> (int, int) {
    if d == 0 {
        (c.0 + 1, c.1)
    } else if d == 1 {
        (c.0 - 1, c.1)
    } else if d == 2 {
        (c.0, c.1 + 1)
    } else {
        (c.0, c.1 - 1)
    }
}

pub open spec fn in_grid(w: int, h: int, c: (int, int)) -> bool {
    0 <= c.0 < w && 0 <= c.1 < h
}

/// Where cell `(x, y)` sits in the flat, column-major cell array.
pub open spec fn cell_index(h: int, c: (int, int)) -> int {
    c.0 * h + c.1
}

pub open spec fn cell_at(cells: Seq<MazeCell2>, h: int, c: (int, int)) -> MazeCell2 {
    cells[cell_index(h, c)]
}

pub open spec fn passage_open(cells: Seq<MazeCell2>, h: int, c: (int, int), d: u8) -> bool {
    bit_set(cell_at(cells, h, c).mask(), d)
}

/// Cells `a` and `b` lie in the grid and an open passage leads from `a` to `b`.
pub open spec fn linked(w: int, h: int, cells: Seq<MazeCell2>, a: (int, int), b: (int, int)) -> bool {
    &&& in_grid(w, h, a)
    &&& in_grid(w, h, b)
    &&& {
        ||| passage_open(cells, h, a, 0) && b == neighbor(a, 0)
        ||| passage_open(cells, h, a, 1) && b == neighbor(a, 1)
        ||| passage_open(cells, h, a, 2) && b == neighbor(a, 2)
        ||| passage_open(cells, h, a, 3) && b == neighbor(a, 3)
    }
}

/// The passage graph of a grid: its edges are the open passages.
pub open spec fn passage_graph(w: int, h: int, cells: Seq<MazeCell2>) -> spec_fn(
    (int, int),
    (int, int),
) -> bool {
    |a: (int, int), b: (int, int)| linked(w, h, cells, a, b)
}

pub open spec fn bit_count(m: u8) -> nat {
    (if bit_set(m, 0) { 1nat } else { 0nat }) + (if bit_set(m, 1) { 1nat } else { 0nat }) + (
    if bit_set(m, 2) { 1nat } else { 0nat }) + (if bit_set(m, 3) { 1nat } else { 0nat })
}

/// The sum of `f` over all cells.
pub open spec fn sum_over(cells: Seq<MazeCell2>, f: spec_fn(MazeCell2) -> nat) -> nat
    decreases cells.len(),
{
    if cells.len() == 0 {
        0
    } else {
        sum_over(cells.drop_last(), f) + f(cells.last())
    }
}

/// Number of open passage bits over all cells.
pub open spec fn total_open_bits(cells: Seq<MazeCell2>) -> nat {
    sum_over(cells, |c: MazeCell2| bit_count(c.mask()))
}

/// Number of passages, each counted once: at the cell it leaves toward +X or +Y.
pub open spec fn passage_count(cells: Seq<MazeCell2>) -> nat {
    sum_over(
        cells,
        |c: MazeCell2|
            (if bit_set(c.mask(), 0) { 1nat } else { 0nat }) + (if bit_set(c.mask(), 2) {
                1nat
            } else {
                0nat
            }),
    )
}

/// Number of cells that have joined the maze.
pub open spec fn visited_count(cells: Seq<MazeCell2>) -> nat {
    sum_over(cells, |c: MazeCell2| if c.visited() { 1nat } else { 0nat })
}

/// Every mask uses only the four direction bits.
pub open spec fn masks_in_range(w: int, h: int, cells: Seq<MazeCell2>) -> bool {
    forall|c: (int, int)| in_grid(w, h, c) ==> #[trigger] cell_at(cells, h, c).mask() < 16
}

/// A passage is open from one side exactly when it is open from the other.
pub open spec fn walls_symmetric(w: int, h: int, cells: Seq<MazeCell2>) -> bool {
    forall|c: (int, int), d: u8|
        in_grid(w, h, c) && d < 4 ==> (#[trigger] passage_open(cells, h, c, d) <==> (in_grid(
            w,
            h,
            neighbor(c, d),
        ) && passage_open(cells, h, neighbor(c, d), opposite(d))))
}

/// No passage leads out of the grid.
pub open spec fn boundary_closed(w: int, h: int, cells: Seq<MazeCell2>) -> bool {
    forall|c: (int, int), d: u8|
        in_grid(w, h, c) && d < 4 && !in_grid(w, h, neighbor(c, d)) ==> !#[trigger] passage_open(
            cells,
            h,
            c,
            d,
        )
}

/// Any two cells are joined by a walk through open passages.
pub open spec fn all_connected(w: int, h: int, cells: Seq<MazeCell2>) -> bool {
    forall|a: (int, int), b: (int, int)|
        in_grid(w, h, a) && in_grid(w, h, b) ==> exists|p: Seq<(int, int)>|
            #[trigger] is_walk(passage_graph(w, h, cells), p) && p[0] == a && p.last() == b
}

/// Two simple paths through open passages between the same cells are the same path.
pub open spec fn acyclic(w: int, h: int, cells: Seq<MazeCell2>) -> bool {
    forall|p: Seq<(int, int)>, q: Seq<(int, int)>|
        #[trigger] is_simple_path(passage_graph(w, h, cells), p) && #[trigger] is_simple_path(
            passage_graph(w, h, cells),
            q,
        ) && p[0] == q[0] && p.last() == q.last() ==> p == q
}

/// The open passages form a spanning tree of the grid.
pub open spec fn is_perfect(w: int, h: int, cells: Seq<MazeCell2>) -> bool {
    &&& cells.len() == w * h
    &&& w * h > 0
    &&& masks_in_range(w, h, cells)
    &&& walls_symmetric(w, h, cells)
    &&& boundary_closed(w, h, cells)
    &&& all_connected(w, h, cells)
    &&& acyclic(w, h, cells)
    &&& passage_count(cells) == w * h - 1
    &&& total_open_bits(cells) == 2 * (w * h - 1)
}

/// A cell as a new maze holds it: all walls closed, neither visited nor listed.
pub open spec fn is_fresh(c: MazeCell2) -> bool {
    c.mask() == 0 && !c.visited() && !c.listed()
}

/// Why a generation request was refused.
#[derive(Clone, Copy, Debug, PartialEq, Eq, Structural)]
pub enum GenerateError {
    /// The maze was generated before; it is left as it was.
    AlreadyGenerated,
    /// The grid has no cell.
    EmptyGrid,
}


/// What generation does to a maze `before`, leaving `after` and answering `r`.
pub open spec fn generation(before: Maze2, after: Maze2, r: Result<(), GenerateError>) -> bool {
    &&& after.wf()
    &&& after.width() == before.width()
    &&& after.height() == before.height()
    &&& before.is_generated() ==> r == Err::<(), GenerateError>(GenerateError::AlreadyGenerated)
        && after == before
    &&& !before.is_generated() && (before.width() == 0 || before.height() == 0) ==> r == Err::<
        (),
        GenerateError,
    >(GenerateError::EmptyGrid) && after == before
    &&& !before.is_generated() && before.width() > 0 && before.height() > 0 ==> r == Ok::<
        (),
        GenerateError,
    >(())
    &&& r is Ok ==> after.is_generated() && is_perfect(after.width(), after.height(), after.cells())
}


/// The glyph half that the text picture draws: a full block or a blank.
pub open spec fn shade(on: bool) -> char {
    if on {
        '\u{2588}'
    } else {
        ' '
    }
}

/// Character `i` of text line `2 * x + part` of the picture of maze `m`: each
/// cell is two characters wide per half, the upper line drawing the cell and
/// its +Y passage, the lower its +X passage.
pub open spec fn picture_char(m: Maze2, x: int, part: int, i: int) -> char {
    let y = i / 4;
    let k = i % 4;
    if part == 0 {
        if k < 2 {
            shade(true)
        } else {
            shade(m.open_at(x, y, 2))
        }
    } else {
        if k < 2 {
            shade(m.open_at(x, y, 0))
        } else {
            shade(false)
        }
    }
}

pub open spec fn picture_line(m: Maze2, x: int, part: int) -> Seq<char> {
    Seq::new((4 * m.height()) as nat, |i: int| picture_char(m, x, part, i))
}

/// A `width x height` grid of cells, empty until `generate` turns it into a
/// perfect maze.
pub struct Maze2 {
    generated: bool,
    size: (usize, usize),
    data: Vec<MazeCell2>,
}

impl Maze2 {
    pub closed spec fn width(&self) -> int {
        self.size.0 as int
    }

    pub closed spec fn height(&self) -> int {
        self.size.1 as int
    }

    pub closed spec fn is_generated(&self) -> bool {
        self.generated
    }

    pub closed spec fn cells(&self) -> Seq<MazeCell2> {
        self.data@
    }

    pub open spec fn mask_at(&self, x: int, y: int) -> u8 {
        cell_at(self.cells(), self.height(), (x, y)).mask()
    }

    pub open spec fn open_at(&self, x: int, y: int, d: u8) -> bool {
        passage_open(self.cells(), self.height(), (x, y), d)
    }

    /// An empty maze holds only fresh cells; a generated one is perfect.
    pub open spec fn wf(&self) -> bool {
        &&& self.cells().len() == self.width() * self.height()
        &&& self.is_generated() ==> is_perfect(self.width(), self.height(), self.cells())
        &&& !self.is_generated() ==> forall|i: int|
            0 <= i < self.cells().len() ==> is_fresh(#[trigger] self.cells()[i])
    }

    /// A `size_x x size_y` maze with every passage closed, not yet generated.
    pub fn empty(size_x: usize, size_y: usize) -> (m: Maze2)
        requires
            size_x * size_y <= usize::MAX,
        ensures
            m.wf(),
            m.width() == size_x,
            m.height() == size_y,
            !m.is_generated(),
    {
        let n: usize = size_x * size_y;
        let mut data: Vec<MazeCell2> = Vec::new();
        let mut i: usize = 0;
        while i < n
            invariant
                i <= n,
                data@.len() == i,
                forall|j: int| 0 <= j < i ==> is_fresh(#[trigger] data@[j]),
            decreases n - i,
        {
            data.push(MazeCell2::new());
            i = i + 1;
        }
        Maze2 { generated: false, size: (size_x, size_y), data }
    }

    fn index_of(&self, x: usize, y: usize) -> (r: usize)
        requires
            self.cells().len() == self.width() * self.height(),
            x < self.width(),
            y < self.height(),
        ensures
            r == cell_index(self.height(), (x as int, y as int)),
            r < self.cells().len(),
    {
        let n = self.data.len();
        proof {
            lemma_index_bounds(self.width(), self.height(), (x as int, y as int));
            assert(x * self.size.1 <= x * self.size.1 + y);
        }
        x * self.size.1 + y
    }

    /// Looks at the neighbor `(x, y)` of `cur`, toward `d`: a visited one makes
    /// `d` a candidate passage, an unlisted one joins the frontier.
    fn examine(
        &mut self,
        frontier: &mut Vec<(usize, usize)>,
        cands: &mut Vec<u8>,
        x: usize,
        y: usize,
        d: u8,
        Ghost(cur): Ghost<(int, int)>,
    )
        requires
            cells_ok(old(self).width(), old(self).height(), old(self).cells()),
            frontier_ok(old(self).width(), old(self).height(), old(self).cells(), old(frontier)@),
            attached(old(self).width(), old(self).height(), old(self).cells(), cur),
            d < 4,
            (x as int, y as int) == neighbor(cur, d),
            in_grid(old(self).width(), old(self).height(), (x as int, y as int)),
        ensures
            final(self).width() == old(self).width(),
            final(self).height() == old(self).height(),
            final(self).is_generated() == old(self).is_generated(),
            cells_ok(final(self).width(), final(self).height(), final(self).cells()),
            frontier_ok(final(self).width(), final(self).height(), final(self).cells(), final(frontier)@),
            attached(final(self).width(), final(self).height(), final(self).cells(), cur),
            closure_ok(old(self).width(), old(self).height(), old(self).cells()) ==> closure_ok(
                final(self).width(),
                final(self).height(),
                final(self).cells(),
            ),
            forall|c: (int, int)|
                in_grid(old(self).width(), old(self).height(), c) ==> {
                    &&& (#[trigger] cell_at(final(self).cells(), old(self).height(), c)).mask()
                        == cell_at(old(self).cells(), old(self).height(), c).mask()
                    &&& cell_at(final(self).cells(), old(self).height(), c).visited() == cell_at(
                        old(self).cells(),
                        old(self).height(),
                        c,
                    ).visited()
                    &&& cell_at(old(self).cells(), old(self).height(), c).listed() ==> cell_at(
                        final(self).cells(),
                        old(self).height(),
                        c,
                    ).listed()
                },
            passage_graph(final(self).width(), final(self).height(), final(self).cells())
                == passage_graph(old(self).width(), old(self).height(), old(self).cells()),
            passage_count(final(self).cells()) == passage_count(old(self).cells()),
            total_open_bits(final(self).cells()) == total_open_bits(old(self).cells()),
            visited_count(final(self).cells()) == visited_count(old(self).cells()),
            final(frontier)@.len() >= old(frontier)@.len(),
            forall|j: int| 0 <= j < old(frontier)@.len() ==> final(frontier)@[j] == old(frontier)@[j],
            cell_at(old(self).cells(), old(self).height(), (x as int, y as int)).visited() ==> final(cands)@
                == old(cands)@.push(d),
            !cell_at(old(self).cells(), old(self).height(), (x as int, y as int)).visited() ==> final(cands)@
                == old(cands)@ && cell_at(final(self).cells(), old(self).height(), (x as int, y as int)).listed(),
    {
        let ghost w = self.width();
        let ghost h = self.height();
        let ghost n = (x as int, y as int);
        let i = self.index_of(x, y);
        if self.data[i].is_visited() {
            cands.push(d);
        } else if !self.data[i].is_listed() {
            let ghost cells = self.cells();
            let ghost f = frontier@;
            frontier.push((x, y));
            let mut c = self.data[i];
            c.list();
            self.data.set(i, c);
            proof {
                lemma_frame(w, h, cells, n, c);
                lemma_same_shape(w, h, cells, n, c);
                let cells2 = self.cells();
                let f2 = frontier@;
                assert(cells2 == cells.update(cell_index(h, n), c));
                assert forall|cc: (int, int), e: u8| in_grid(w, h, cc) implies #[trigger] passage_open(
                    cells2,
                    h,
                    cc,
                    e,
                ) == passage_open(cells, h, cc, e) by {
                    assert(cell_at(cells2, h, cc).mask() == cell_at(cells, h, cc).mask());
                }
                assert forall|cc: (int, int), e: u8|
                    in_grid(w, h, cc) && e < 4 && #[trigger] passage_open(cells2, h, cc, e) implies in_grid(
                        w,
                        h,
                        neighbor(cc, e),
                    ) && passage_open(cells2, h, neighbor(cc, e), opposite(e)) by {
                    assert(passage_open(cells, h, cc, e));
                }
                assert forall|j: int| 0 <= j < f2.len() implies in_grid(w, h, pos(#[trigger] f2[j]))
                    && cell_at(cells2, h, pos(f2[j])).listed() by {
                    if j < f.len() {
                        assert(f2[j] == f[j]);
                    }
                }
                assert forall|j1: int, j2: int|
                    0 <= j1 < f2.len() && 0 <= j2 < f2.len() && j1 != j2 implies f2[j1] != f2[j2] by {
                    if j1 < f.len() && j2 < f.len() {
                        assert(f2[j1] == f[j1] && f2[j2] == f[j2]);
                    } else if j1 < f.len() {
                        assert(cell_at(cells, h, pos(f[j1])).listed());
                    } else {
                        assert(cell_at(cells, h, pos(f[j2])).listed());
                    }
                }
                assert forall|cc: (int, int)| in_grid(w, h, cc) && (#[trigger] cell_at(cells2, h, cc)).listed()
                    implies exists|j: int| 0 <= j < f2.len() && pos(#[trigger] f2[j]) == cc by {
                    if cc == n {
                        assert(pos(f2[f.len() as int]) == cc);
                    } else {
                        let j = choose|j: int| 0 <= j < f.len() && pos(#[trigger] f[j]) == cc;
                        assert(f2[j] == f[j]);
                    }
                }
            }
        }
    }

    /// Looks at the four neighbors of `(x, y)`: lists the unlisted unvisited
    /// ones and returns the directions toward visited ones.
    fn survey(&mut self, frontier: &mut Vec<(usize, usize)>, x: usize, y: usize) -> (cands: Vec<u8>)
        requires
            cells_ok(old(self).width(), old(self).height(), old(self).cells()),
            frontier_ok(old(self).width(), old(self).height(), old(self).cells(), old(frontier)@),
            attached(old(self).width(), old(self).height(), old(self).cells(), (x as int, y as int)),
            in_grid(old(self).width(), old(self).height(), (x as int, y as int)),
        ensures
            final(self).width() == old(self).width(),
            final(self).height() == old(self).height(),
            final(self).is_generated() == old(self).is_generated(),
            cells_ok(final(self).width(), final(self).height(), final(self).cells()),
            frontier_ok(final(self).width(), final(self).height(), final(self).cells(), final(frontier)@),
            attached(final(self).width(), final(self).height(), final(self).cells(), (x as int, y as int)),
            closure_ok(old(self).width(), old(self).height(), old(self).cells()) ==> closure_ok(
                final(self).width(),
                final(self).height(),
                final(self).cells(),
            ),
            forall|c: (int, int)|
                in_grid(old(self).width(), old(self).height(), c) ==> {
                    &&& (#[trigger] cell_at(final(self).cells(), old(self).height(), c)).mask()
                        == cell_at(old(self).cells(), old(self).height(), c).mask()
                    &&& cell_at(final(self).cells(), old(self).height(), c).visited() == cell_at(
                        old(self).cells(),
                        old(self).height(),
                        c,
                    ).visited()
                    &&& cell_at(old(self).cells(), old(self).height(), c).listed() ==> cell_at(
                        final(self).cells(),
                        old(self).height(),
                        c,
                    ).listed()
                },
            passage_graph(final(self).width(), final(self).height(), final(self).cells())
                == passage_graph(old(self).width(), old(self).height(), old(self).cells()),
            passage_count(final(self).cells()) == passage_count(old(self).cells()),
            total_open_bits(final(self).cells()) == total_open_bits(old(self).cells()),
            visited_count(final(self).cells()) == visited_count(old(self).cells()),
            forall|j: int| 0 <= j < old(frontier)@.len() ==> final(frontier)@[j] == old(frontier)@[j],
            final(frontier)@.len() >= old(frontier)@.len(),
            forall|e: u8|
                e < 4 && in_grid(old(self).width(), old(self).height(), neighbor((x as int, y as int), e))
                    ==> #[trigger] cell_at(final(self).cells(), old(self).height(), neighbor((x as int, y as int), e)).visited()
                    || cell_at(final(self).cells(), old(self).height(), neighbor((x as int, y as int), e)).listed(),
            forall|j: int|
                0 <= j < cands@.len() ==> #[trigger] cands@[j] < 4 && visited_toward(
                    final(self).width(),
                    final(self).height(),
                    final(self).cells(),
                    (x as int, y as int),
                    cands@[j],
                ),
            has_visited_neighbor(old(self).width(), old(self).height(), old(self).cells(), (x as int, y as int))
                ==> cands@.len() > 0,
    {
        let ghost w = self.width();
        let ghost h = self.height();
        let ghost cur = (x as int, y as int);
        let ghost cells0 = self.cells();
        let ghost f0 = frontier@;
        let mut cands: Vec<u8> = Vec::new();
        if x + 1 < self.size.0 {
            self.examine(frontier, &mut cands, x + 1, y, 0, Ghost(cur));
        }
        let ghost cells1 = self.cells();
        let ghost f1 = frontier@;
        let ghost k1 = cands@;
        assert(forall|j: int| 0 <= j < k1.len() ==> k1[j] < 4 && visited_toward(w, h, cells1, cur, k1[j]));
        if x > 0 {
            self.examine(frontier, &mut cands, x - 1, y, 1, Ghost(cur));
        }
        let ghost cells2 = self.cells();
        let ghost f2 = frontier@;
        let ghost k2 = cands@;
        assert(forall|j: int| 0 <= j < k2.len() ==> k2[j] < 4 && visited_toward(w, h, cells2, cur, k2[j])) by {
            assert forall|j: int| 0 <= j < k2.len() implies k2[j] < 4 && visited_toward(w, h, cells2, cur, k2[j]) by {
                if j < k1.len() {
                    assert(k2[j] == k1[j]);
                    assert(visited_toward(w, h, cells1, cur, k1[j]));
                    assert(cell_at(cells2, h, neighbor(cur, k1[j])).visited() == cell_at(cells1, h, neighbor(cur, k1[j])).visited());
                }
            }
        }
        if y + 1 < self.size.1 {
            self.examine(frontier, &mut cands, x, y + 1, 2, Ghost(cur));
        }
        let ghost cells3 = self.cells();
        let ghost f3 = frontier@;
        let ghost k3 = cands@;
        assert(forall|j: int| 0 <= j < k3.len() ==> k3[j] < 4 && visited_toward(w, h, cells3, cur, k3[j])) by {
            assert forall|j: int| 0 <= j < k3.len() implies k3[j] < 4 && visited_toward(w, h, cells3, cur, k3[j]) by {
                if j < k2.len() {
                    assert(k3[j] == k2[j]);
                    assert(visited_toward(w, h, cells2, cur, k2[j]));
                    assert(cell_at(cells3, h, neighbor(cur, k2[j])).visited() == cell_at(cells2, h, neighbor(cur, k2[j])).visited());
                }
            }
        }
        if y > 0 {
            self.examine(frontier, &mut cands, x, y - 1, 3, Ghost(cur));
        }
        let ghost cells4 = self.cells();
        let ghost k4 = cands@;
        proof {
            assert forall|j: int| 0 <= j < k4.len() implies #[trigger] k4[j] < 4 && visited_toward(w, h, cells4, cur, k4[j]) by {
                if j < k3.len() {
                    assert(k4[j] == k3[j]);
                    assert(visited_toward(w, h, cells3, cur, k3[j]));
                    assert(cell_at(cells4, h, neighbor(cur, k3[j])).visited() == cell_at(cells3, h, neighbor(cur, k3[j])).visited());
                }
            }
            assert forall|c: (int, int)| in_grid(w, h, c) implies
                (#[trigger] cell_at(cells4, h, c)).mask() == cell_at(cells0, h, c).mask()
                && cell_at(cells4, h, c).visited() == cell_at(cells0, h, c).visited()
                && (cell_at(cells0, h, c).listed() ==> cell_at(cells4, h, c).listed()) by {
                assert(cell_at(cells1, h, c).mask() == cell_at(cells0, h, c).mask());
                assert(cell_at(cells2, h, c).mask() == cell_at(cells1, h, c).mask());
                assert(cell_at(cells3, h, c).mask() == cell_at(cells2, h, c).mask());
            }
            assert forall|e: u8| e < 4 && in_grid(w, h, neighbor(cur, e)) implies
                #[trigger] cell_at(cells4, h, neighbor(cur, e)).visited()
                || cell_at(cells4, h, neighbor(cur, e)).listed() by {
                let m = neighbor(cur, e);
                assert(cell_at(cells1, h, m).mask() == cell_at(cells0, h, m).mask());
                assert(cell_at(cells2, h, m).mask() == cell_at(cells1, h, m).mask());
                assert(cell_at(cells3, h, m).mask() == cell_at(cells2, h, m).mask());
                assert(cell_at(cells4, h, m).mask() == cell_at(cells3, h, m).mask());
            }
            if has_visited_neighbor(w, h, cells0, cur) {
                if visited_toward(w, h, cells0, cur, 0) {
                    assert(cell_at(cells1, h, neighbor(cur, 0)).mask() == cell_at(cells0, h, neighbor(cur, 0)).mask());
                    assert(k1.len() > 0);
                } else if visited_toward(w, h, cells0, cur, 1) {
                    assert(cell_at(cells1, h, neighbor(cur, 1)).mask() == cell_at(cells0, h, neighbor(cur, 1)).mask());
                    assert(k2.len() > 0);
                } else if visited_toward(w, h, cells0, cur, 2) {
                    assert(cell_at(cells1, h, neighbor(cur, 2)).mask() == cell_at(cells0, h, neighbor(cur, 2)).mask());
                    assert(cell_at(cells2, h, neighbor(cur, 2)).mask() == cell_at(cells1, h, neighbor(cur, 2)).mask());
                    assert(k3.len() > 0);
                } else {
                    assert(cell_at(cells1, h, neighbor(cur, 3)).mask() == cell_at(cells0, h, neighbor(cur, 3)).mask());
                    assert(cell_at(cells2, h, neighbor(cur, 3)).mask() == cell_at(cells1, h, neighbor(cur, 3)).mask());
                    assert(cell_at(cells3, h, neighbor(cur, 3)).mask() == cell_at(cells2, h, neighbor(cur, 3)).mask());
                }
            }
        }
        cands
    }

    /// Opens the passage from `(x, y)` toward `d` on both of its sides, then
    /// lets `(x, y)` join the maze and leave the frontier.
    fn attach(&mut self, x: usize, y: usize, d: u8)
        requires
            old(self).cells().len() == old(self).width() * old(self).height(),
            in_grid(old(self).width(), old(self).height(), (x as int, y as int)),
            d < 4,
            in_grid(old(self).width(), old(self).height(), neighbor((x as int, y as int), d)),
        ensures
            final(self).width() == old(self).width(),
            final(self).height() == old(self).height(),
            final(self).is_generated() == old(self).is_generated(),
            ({
                let h = old(self).height();
                let cur = (x as int, y as int);
                let n = neighbor(cur, d);
                let cv = cell_at(final(self).cells(), h, cur);
                let nv = cell_at(final(self).cells(), h, n);
                &&& final(self).cells() == old(self).cells().update(cell_index(h, cur), cv).update(
                    cell_index(h, n),
                    nv,
                )
                &&& cv.mask() == cell_at(old(self).cells(), h, cur).mask() | (1u8 << d)
                &&& cv.visited()
                &&& !cv.listed()
                &&& nv.mask() == cell_at(old(self).cells(), h, n).mask() | (1u8 << opposite(d))
                &&& nv.visited() == cell_at(old(self).cells(), h, n).visited()
                &&& nv.listed() == cell_at(old(self).cells(), h, n).listed()
            }),
    {
        let ghost w = self.width();
        let ghost h = self.height();
        let ghost cur = (x as int, y as int);
        let ghost n = neighbor(cur, d);
        let ghost cells0 = self.cells();
        let (nx, ny, back): (usize, usize, u8) = if d == 0 {
            (x + 1, y, 1)
        } else if d == 1 {
            (x - 1, y, 0)
        } else if d == 2 {
            (x, y + 1, 3)
        } else {
            (x, y - 1, 2)
        };
        let i = self.index_of(x, y);
        let j = self.index_of(nx, ny);
        proof {
            if i == j {
                lemma_index_injective(w, h, cur, n);
            }
        }
        let mut c = self.data[i];
        c.open(d);
        self.data.set(i, c);
        let mut m = self.data[j];
        m.open(back);
        self.data.set(j, m);
        let mut c = self.data[i];
        c.visit();
        c.unlist();
        self.data.set(i, c);
        proof {
            assert(self.cells() =~= cells0.update(i as int, c).update(j as int, m));
        }
    }

    /// Grows the maze from a random cell: while cells wait in the frontier,
    /// a random one of them is joined to a random visited neighbor.
    ///
    /// A maze is generated once: a second request, or a grid without cells,
    /// is refused and leaves the maze as it was.
    pub fn generate(&mut self) -> (r: Result<(), GenerateError>)
        requires
            old(self).wf(),
        ensures
            generation(*old(self), *final(self), r),
    {
        if self.generated {
            return Err(GenerateError::AlreadyGenerated);
        }
        if self.size.0 == 0 || self.size.1 == 0 {
            return Err(GenerateError::EmptyGrid);
        }
        let ghost w = self.width();
        let ghost h = self.height();
        let mut rng = rand::thread_rng();
        let mut to_be_generated: Vec<(usize, usize)> = Vec::new();

        // The first cell joins the maze; its neighbors seed the frontier.
        let sx = random_below(&mut rng, self.size.0);
        let sy = random_below(&mut rng, self.size.1);
        let ghost root = (sx as int, sy as int);
        let ghost cells0 = self.cells();
        let i = self.index_of(sx, sy);
        let mut c = self.data[i];
        c.visit();
        self.data.set(i, c);
        let ghost mut par: Map<(int, int), (int, int)> = Map::empty();
        let ghost mut rank: Map<(int, int), nat> = map![root => 0nat];
        let ghost mut k: nat = 0;
        proof {
            lemma_start(w, h, cells0, self.cells(), root, c);
        }
        let ghost cells1 = self.cells();
        let _ = self.survey(&mut to_be_generated, sx, sy);
        proof {
            let cells2 = self.cells();
            lemma_tree_frame(w, h, cells1, cells2, par, rank, root, k);
            assert forall|c: (int, int), d: u8|
                #![trigger cell_at(cells2, h, neighbor(c, d))]
                in_grid(w, h, c) && d < 4 && cell_at(cells2, h, c).visited() && in_grid(w, h, neighbor(c, d))
                implies cell_at(cells2, h, neighbor(c, d)).visited() || cell_at(cells2, h, neighbor(c, d)).listed() by {
                assert(cell_at(cells1, h, c).visited());
            }
            lemma_attached_any(w, h, cells2, root, root);
        }

        // Each round joins one frontier cell to the maze.
        while to_be_generated.len() > 0
            invariant
                self.width() == w,
                self.height() == h,
                !self.is_generated(),
                cells_ok(w, h, self.cells()),
                frontier_ok(w, h, self.cells(), to_be_generated@),
                closure_ok(w, h, self.cells()),
                attached(w, h, self.cells(), root),
                tree_ok(w, h, self.cells(), par, rank, root, k),
            decreases w * h - k,
        {
            proof {
                let vc = |c: MazeCell2| if c.visited() { 1nat } else { 0nat };
                lemma_sum_at_most_len(self.cells(), vc);
            }
            let rand_cell = random_below(&mut rng, to_be_generated.len());
            let current_pos = to_be_generated[rand_cell];
            let ghost cur = pos(current_pos);
            let ghost cells_a = self.cells();
            let ghost f_a = to_be_generated@;
            proof {
                lemma_attached_any(w, h, cells_a, root, cur);
                assert(in_grid(w, h, pos(f_a[rand_cell as int])));
                assert(cell_at(cells_a, h, cur).listed());
            }
            let rand_dirs = self.survey(&mut to_be_generated, current_pos.0, current_pos.1);
            let ghost cells_b = self.cells();
            let ghost f_b = to_be_generated@;
            proof {
                lemma_tree_frame(w, h, cells_a, cells_b, par, rank, root, k);
                assert(f_b[rand_cell as int] == f_a[rand_cell as int]);
            }
            let rand_dir: u8 = rand_dirs[random_below(&mut rng, rand_dirs.len())];
            proof {
                assert(rand_dirs@.contains(rand_dir));
            }
            self.attach(current_pos.0, current_pos.1, rand_dir);
            proof {
                let cells_c = self.cells();
                let n = neighbor(cur, rand_dir);
                let cv = cell_at(cells_c, h, cur);
                let nv = cell_at(cells_c, h, n);
                assert(attach_step(w, h, cells_b, cells_c, f_b, rand_cell as int, cur, rand_dir, cv, nv));
                lemma_attach_cells(w, h, cells_b, cells_c, f_b, rand_cell as int, cur, rand_dir, cv, nv, root);
                lemma_attach_tree(w, h, cells_b, cells_c, f_b, rand_cell as int, cur, rand_dir, cv, nv, par, rank, root, k);
                par = par.insert(cur, n);
                rank = rank.insert(cur, (k + 1) as nat);
                k = (k + 1) as nat;
            }
            to_be_generated.swap_remove(rand_cell);
        }
        proof {
            lemma_finish(w, h, self.cells(), par, rank, root, k);
        }
        self.generated = true;
        Ok(())
    }

    /// The maze as text, two lines per column of cells.
    pub fn text_lines(&self) -> (lines: Vec<Vec<char>>)
        requires
            self.wf(),
            4 * self.height() <= usize::MAX,
        ensures
            lines@.len() == 2 * self.width(),
            forall|l: int|
                0 <= l < lines@.len() ==> (#[trigger] lines@[l])@ == picture_line(*self, l / 2, l % 2),
    {
        let mut lines: Vec<Vec<char>> = Vec::new();
        let mut x: usize = 0;
        while x < self.size.0
            invariant
                self.wf(),
                4 * self.height() <= usize::MAX,
                x <= self.width(),
                lines@.len() == 2 * x,
                forall|l: int|
                    0 <= l < lines@.len() ==> (#[trigger] lines@[l])@ == picture_line(*self, l / 2, l % 2),
            decreases self.width() - x,
        {
            let mut upper: Vec<char> = Vec::new();
            let mut lower: Vec<char> = Vec::new();
            let mut y: usize = 0;
            while y < self.size.1
                invariant
                    self.wf(),
                    4 * self.height() <= usize::MAX,
                    x < self.width(),
                    y <= self.height(),
                    upper@ =~= picture_line(*self, x as int, 0).subrange(0, 4 * y),
                    lower@ =~= picture_line(*self, x as int, 1).subrange(0, 4 * y),
                decreases self.height() - y,
            {
                let up = self.is_cell_open(x, y, 2);
                let right = self.is_cell_open(x, y, 0);
                let full = '\u{2588}';
                upper.push(full);
                upper.push(full);
                upper.push(if up { full } else { ' ' });
                upper.push(if up { full } else { ' ' });
                lower.push(if right { full } else { ' ' });
                lower.push(if right { full } else { ' ' });
                lower.push(' ');
                lower.push(' ');
                proof {
                    let b = 4 * y as int;
                    assert(b / 4 == y && b % 4 == 0);
                    assert((b + 1) / 4 == y && (b + 1) % 4 == 1);
                    assert((b + 2) / 4 == y && (b + 2) % 4 == 2);
                    assert((b + 3) / 4 == y && (b + 3) % 4 == 3);
                    assert(upper@ =~= picture_line(*self, x as int, 0).subrange(0, 4 * (y + 1)));
                    assert(lower@ =~= picture_line(*self, x as int, 1).subrange(0, 4 * (y + 1)));
                }
                y = y + 1;
            }
            proof {
                assert(upper@ =~= picture_line(*self, x as int, 0));
                assert(lower@ =~= picture_line(*self, x as int, 1));
            }
            lines.push(upper);
            lines.push(lower);
            proof {
                assert forall|l: int| 0 <= l < lines@.len() implies (#[trigger] lines@[l])@ == picture_line(
                    *self,
                    l / 2,
                    l % 2,
                ) by {
                    if l >= 2 * x {
                        assert(l / 2 == x);
                    }
                }
            }
            x = x + 1;
        }
        lines
    }

    /// Whether something in cell `(x, y)` may pass toward `dir`: the cell is in
    /// the grid, its passage that way is open, and the mover keeps within the
    /// door band across it (`in_door_band`). Cells outside the grid let
    /// nothing pass.
    pub fn can_cross(&self, x: usize, y: usize, dir: u8, in_door_band: bool) -> (r: bool)
        requires
            self.wf(),
            dir < 4,
        ensures
            r == (in_grid(self.width(), self.height(), (x as int, y as int)) && self.open_at(
                x as int,
                y as int,
                dir,
            ) && in_door_band),
    {
        if x >= self.size.0 || y >= self.size.1 {
            return false;
        }
        in_door_band && self.is_cell_open(x, y, dir)
    }

    /// The passage mask of cell `(x, y)`.
    pub fn get_cell_val(&self, x: usize, y: usize) -> (r: u8)
        requires
            self.wf(),
            x < self.width(),
            y < self.height(),
        ensures
            r == self.mask_at(x as int, y as int),
    {
        let i = self.index_of(x, y);
        self.data[i].val()
    }

    /// Whether the passage from cell `(x, y)` toward `dir` is open.
    pub fn is_cell_open(&self, x: usize, y: usize, dir: u8) -> (r: bool)
        requires
            self.wf(),
            x < self.width(),
            y < self.height(),
            dir < 4,
        ensures
            r == self.open_at(x as int, y as int, dir),
    {
        let i = self.index_of(x, y);
        self.data[i].is_open(dir)
    }

    /// The grid's width and height.
    pub fn get_size(&self) -> (r: (usize, usize))
        ensures
            r.0 == self.width(),
            r.1 == self.height(),
    {
        self.size
    }

    /// The cells, column by column: cell `(x, y)` sits at `x * height + y`.
    pub fn borrow_data(&self) -> (r: &Vec<MazeCell2>)
        ensures
            r@ == self.cells(),
    {
        &self.data
    }
}

pub proof fn lemma_index_bounds(w: int, h: int, c: (int, int))
    requires
        in_grid(w, h, c),
    ensures
        0 <= cell_index(h, c) < w * h,
{
    let x = c.0;
    let y = c.1;
    assert(0 <= x * h + y < w * h) by (nonlinear_arith)
        requires
            0 <= x < w,
            0 <= y < h,
    ;
}

pub proof fn lemma_index_injective(w: int, h: int, a: (int, int), b: (int, int))
    requires
        in_grid(w, h, a),
        in_grid(w, h, b),
        cell_index(h, a) == cell_index(h, b),
    ensures
        a == b,
{
    let (x1, y1) = a;
    let (x2, y2) = b;
    assert(x1 == x2) by (nonlinear_arith)
        requires
            0 <= x1,
            0 <= x2,
            0 <= y1 < h,
            0 <= y2 < h,
            x1 * h + y1 == x2 * h + y2,
    {
        if x1 < x2 {
            assert(x1 * h + h <= x2 * h);
        } else if x2 < x1 {
            assert(x2 * h + h <= x1 * h);
        }
    }
}

} // verus!
