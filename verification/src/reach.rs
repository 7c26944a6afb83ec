//! The zero-region of a mine layout: cells whose adjacent-mine count is zero,
//! paths through them, and the region that one reveal call uncovers.
use crate::grid::{adjacent_cells, count_mines_in, in_bounds, mine_count_at, neighbor_seq};
use vstd::prelude::*;

verus! {

/// A cell on the grid that is not a mine and has no adjacent mine.
pub open spec fn zero_cell(
    width: int,
    height: int,
    mines: Seq<(usize, usize)>,
    p: (usize, usize),
) -> bool {
    &&& in_bounds(width, height, p.0 as int, p.1 as int)
    &&& !mines.contains(p)
    &&& mine_count_at(width, height, mines, p.0 as int, p.1 as int) == 0
}

/// A non-empty chain of zero cells in which consecutive cells are adjacent.
pub open spec fn is_zero_path(
    width: int,
    height: int,
    mines: Seq<(usize, usize)>,
    path: Seq<(usize, usize)>,
) -> bool {
    &&& path.len() > 0
    &&& forall|i: int| 0 <= i < path.len() ==> zero_cell(width, height, mines, #[trigger] path[i])
    &&& forall|i: int|
        0 <= i < path.len() - 1 ==> adjacent_cells(#[trigger] path[i], path[i + 1])
}

/// `z` can be reached from `s` along a chain of adjacent zero cells.
pub open spec fn zero_reachable(
    width: int,
    height: int,
    mines: Seq<(usize, usize)>,
    s: (usize, usize),
    z: (usize, usize),
) -> bool {
    exists|path: Seq<(usize, usize)>|
        is_zero_path(width, height, mines, path) && path.first() == s && path.last() == z
}

/// The cells that revealing `s` uncovers: `s` itself, and every cell on the
/// grid next to some zero cell reachable from `s`.
pub open spec fn in_region(
    width: int,
    height: int,
    mines: Seq<(usize, usize)>,
    s: (usize, usize),
    p: (usize, usize),
) -> bool {
    p == s || (in_bounds(width, height, p.0 as int, p.1 as int) && exists|z: (usize, usize)|
        #[trigger] zero_reachable(width, height, mines, s, z) && adjacent_cells(z, p))
}

/// A zero cell reaches itself.
pub proof fn lemma_zero_reachable_self(
    width: int,
    height: int,
    mines: Seq<(usize, usize)>,
    s: (usize, usize),
)
    requires
        zero_cell(width, height, mines, s),
    ensures
        zero_reachable(width, height, mines, s, s),
{
    let path = seq![s];
    assert(is_zero_path(width, height, mines, path) && path.first() == s && path.last() == s);
}

/// Reachability extends across one step to an adjacent zero cell.
pub proof fn lemma_zero_reachable_step(
    width: int,
    height: int,
    mines: Seq<(usize, usize)>,
    s: (usize, usize),
    z: (usize, usize),
    p: (usize, usize),
)
    requires
        zero_reachable(width, height, mines, s, z),
        adjacent_cells(z, p),
        zero_cell(width, height, mines, p),
    ensures
        zero_reachable(width, height, mines, s, p),
{
    let path = choose|path: Seq<(usize, usize)>|
        is_zero_path(width, height, mines, path) && path.first() == s && path.last() == z;
    let longer = path.push(p);
    assert forall|i: int| 0 <= i < longer.len() implies zero_cell(
        width,
        height,
        mines,
        #[trigger] longer[i],
    ) by {
        if i < path.len() {
            assert(longer[i] == path[i]);
        }
    }
    assert forall|i: int| 0 <= i < longer.len() - 1 implies adjacent_cells(
        #[trigger] longer[i],
        longer[i + 1],
    ) by {
        if i < path.len() - 1 {
            assert(longer[i] == path[i] && longer[i + 1] == path[i + 1]);
        } else {
            assert(longer[i] == path.last() && longer[i + 1] == p);
        }
    }
    assert(is_zero_path(width, height, mines, longer) && longer.first() == s && longer.last() == p);
}

/// Both ends of a reachability chain are zero cells.
pub proof fn lemma_zero_reachable_ends(
    width: int,
    height: int,
    mines: Seq<(usize, usize)>,
    s: (usize, usize),
    z: (usize, usize),
)
    requires
        zero_reachable(width, height, mines, s, z),
    ensures
        zero_cell(width, height, mines, s),
        zero_cell(width, height, mines, z),
{
    let path = choose|path: Seq<(usize, usize)>|
        is_zero_path(width, height, mines, path) && path.first() == s && path.last() == z;
    assert(path[0] == s && path[path.len() - 1] == z);
}

/// A cell on the grid next to a zero cell is not a mine: the zero cell's
/// adjacent-mine count would otherwise be positive.
pub proof fn lemma_zero_cell_neighbor_not_mine(
    width: int,
    height: int,
    mines: Seq<(usize, usize)>,
    z: (usize, usize),
    p: (usize, usize),
)
    requires
        width <= usize::MAX,
        height <= usize::MAX,
        zero_cell(width, height, mines, z),
        adjacent_cells(z, p),
        in_bounds(width, height, p.0 as int, p.1 as int),
    ensures
        !mines.contains(p),
{
    crate::grid::lemma_neighbor_seq_contains(width, height, z.0 as int, z.1 as int);
    let cells = neighbor_seq(width, height, z.0 as int, z.1 as int);
    assert(cells.contains(p));
    if mines.contains(p) {
        crate::grid::lemma_count_mines_in_pos(mines, cells, p);
    }
}

/// Carries a property along one zero path: if it holds at the start and
/// survives every step from a zero cell to an adjacent cell on the grid, it
/// holds at the end.
proof fn lemma_path_preserves(
    width: int,
    height: int,
    mines: Seq<(usize, usize)>,
    path: Seq<(usize, usize)>,
    pred: spec_fn((usize, usize)) -> bool,
)
    requires
        is_zero_path(width, height, mines, path),
        pred(path.first()),
        forall|z: (usize, usize), p: (usize, usize)|
            pred(z) && zero_cell(width, height, mines, z) && #[trigger] adjacent_cells(z, p)
                && in_bounds(width, height, p.0 as int, p.1 as int) ==> pred(p),
    ensures
        pred(path.last()),
    decreases path.len(),
{
    if path.len() > 1 {
        let shorter = path.drop_last();
        assert(forall|i: int|
            0 <= i < shorter.len() ==> zero_cell(width, height, mines, #[trigger] shorter[i]));
        assert forall|i: int| 0 <= i < shorter.len() - 1 implies adjacent_cells(
            #[trigger] shorter[i],
            shorter[i + 1],
        ) by {
            assert(shorter[i] == path[i] && shorter[i + 1] == path[i + 1]);
        }
        lemma_path_preserves(width, height, mines, shorter, pred);
        let z = path[path.len() - 2];
        let p = path.last();
        assert(shorter.last() == z && pred(z));
        assert(adjacent_cells(z, p));
        assert(zero_cell(width, height, mines, p));
    }
}

/// Closure induction: a property that holds at `s` and survives every step
/// from a zero cell to an adjacent cell on the grid holds at every cell
/// reachable from `s` through the zero-region.
pub proof fn lemma_zero_reachable_closed(
    width: int,
    height: int,
    mines: Seq<(usize, usize)>,
    s: (usize, usize),
    pred: spec_fn((usize, usize)) -> bool,
)
    requires
        pred(s),
        forall|z: (usize, usize), p: (usize, usize)|
            pred(z) && zero_cell(width, height, mines, z) && #[trigger] adjacent_cells(z, p)
                && in_bounds(width, height, p.0 as int, p.1 as int) ==> pred(p),
    ensures
        forall|z: (usize, usize)| #[trigger] zero_reachable(width, height, mines, s, z) ==> pred(z),
{
    assert forall|z: (usize, usize)|
        #[trigger] zero_reachable(width, height, mines, s, z) implies pred(z) by {
        let path = choose|path: Seq<(usize, usize)>|
            is_zero_path(width, height, mines, path) && path.first() == s && path.last() == z;
        lemma_path_preserves(width, height, mines, path, pred);
    }
}

} // verus!
