//! What holds of every maze, and of every maze after generation.

use vstd::prelude::*;
use crate::growth::lemma_bits;
use crate::mazegen::{
    acyclic, all_connected, boundary_closed, cell_index, generation, in_grid, is_fresh,
    lemma_index_bounds, neighbor, opposite, passage_count, passage_open, total_open_bits, walls_symmetric,
    GenerateError, Maze2,
};

verus! {

/// A generated maze is a spanning tree of its grid: its open passages connect
/// every cell to every other, and there are exactly `width * height - 1` of
/// them, each counted once (each sets one bit on either side).
pub proof fn lemma_spanning_tree(m: Maze2)
    requires
        m.wf(),
        m.is_generated(),
    ensures
        all_connected(m.width(), m.height(), m.cells()),
        passage_count(m.cells()) == m.width() * m.height() - 1,
        total_open_bits(m.cells()) == 2 * (m.width() * m.height() - 1),
{
}

/// In a generated maze, two simple paths of open passages between the same
/// two cells are the same path.
pub proof fn lemma_acyclic(m: Maze2)
    requires
        m.wf(),
        m.is_generated(),
    ensures
        acyclic(m.width(), m.height(), m.cells()),
{
}

/// In any maze, the passage from a cell toward `d` is open exactly when the
/// neighbor there lies in the grid and has its passage toward `opposite(d)` open.
pub proof fn lemma_wall_symmetry(m: Maze2)
    requires
        m.wf(),
    ensures
        walls_symmetric(m.width(), m.height(), m.cells()),
{
    if !m.is_generated() {
        lemma_all_closed(m);
        assert forall|c: (int, int), d: u8| in_grid(m.width(), m.height(), c) && d < 4 implies (
        #[trigger] passage_open(m.cells(), m.height(), c, d) <==> (in_grid(
            m.width(),
            m.height(),
            neighbor(c, d),
        ) && passage_open(m.cells(), m.height(), neighbor(c, d), opposite(d)))) by {
            assert(opposite(d) < 4);
        }
    }
}

/// In any maze, no open passage leads out of the grid.
pub proof fn lemma_boundary_closed(m: Maze2)
    requires
        m.wf(),
    ensures
        boundary_closed(m.width(), m.height(), m.cells()),
{
    if !m.is_generated() {
        lemma_all_closed(m);
    }
}

/// Once generation has succeeded, the maze is only read: generating again
/// changes no mask and no passage, so every read gives the same answer again.
pub proof fn lemma_read_only_after_generation(
    m0: Maze2,
    m1: Maze2,
    m2: Maze2,
    r: Result<(), GenerateError>,
)
    requires
        generation(m0, m1, Ok(())),
        generation(m1, m2, r),
    ensures
        m2.is_generated(),
        forall|x: int, y: int| #[trigger] m2.mask_at(x, y) == m1.mask_at(x, y),
        forall|x: int, y: int, d: u8| #[trigger] m2.open_at(x, y, d) == m1.open_at(x, y, d),
{
}

/// Generating a maze a second time is refused and leaves it unchanged.
pub proof fn lemma_single_use(m1: Maze2, m2: Maze2, r: Result<(), GenerateError>)
    requires
        m1.is_generated(),
        generation(m1, m2, r),
    ensures
        r == Err::<(), GenerateError>(GenerateError::AlreadyGenerated),
        m2 == m1,
{
}

/// A maze not yet generated has every passage closed.
proof fn lemma_all_closed(m: Maze2)
    requires
        m.wf(),
        !m.is_generated(),
    ensures
        forall|c: (int, int), d: u8|
            in_grid(m.width(), m.height(), c) && d < 4 ==> !#[trigger] passage_open(
                m.cells(),
                m.height(),
                c,
                d,
            ),
{
    lemma_bits(0u8, 0);
    assert forall|c: (int, int), d: u8| in_grid(m.width(), m.height(), c) && d < 4 implies !#[trigger] passage_open(
        m.cells(),
        m.height(),
        c,
        d,
    ) by {
        lemma_index_bounds(m.width(), m.height(), c);
        assert(is_fresh(m.cells()[cell_index(m.height(), c)]));
    }
}

} // verus!
