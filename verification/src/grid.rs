//! Geometry of the rectangular grid: bounds, Chebyshev adjacency, the
//! neighbor enumeration shared by mine counting and flood expansion, and
//! counting mines among a sequence of cells.
use vstd::prelude::*;

verus! {

/// `(r, c)` names a cell of a `width x height` grid.
pub open spec fn in_bounds(width: int, height: int, r: int, c: int) -> bool {
    0 <= r < height && 0 <= c < width
}

/// Two distinct cells within Chebyshev distance 1 of each other.
pub open spec fn adjacent(r1: int, c1: int, r2: int, c2: int) -> bool {
    !(r1 == r2 && c1 == c2) && -1 <= r1 - r2 <= 1 && -1 <= c1 - c2 <= 1
}

/// `adjacent` on concrete cells.
pub open spec fn adjacent_cells(p: (usize, usize), q: (usize, usize)) -> bool {
    adjacent(p.0 as int, p.1 as int, q.0 as int, q.1 as int)
}

/// The cell `(r, c)` as a singleton sequence when it lies on the grid,
/// else the empty sequence.
pub open spec fn opt_cell(width: int, height: int, r: int, c: int) -> Seq<(usize, usize)> {
    if in_bounds(width, height, r, c) {
        seq![(r as usize, c as usize)]
    } else {
        Seq::empty()
    }
}

/// The neighbors of `(r, c)`, clipped to the grid, in row-major order:
/// 2 at a corner, 3 on an edge, 8 in the interior.
pub open spec fn neighbor_seq(width: int, height: int, r: int, c: int) -> Seq<(usize, usize)> {
    opt_cell(width, height, r - 1, c - 1) + opt_cell(width, height, r - 1, c) + opt_cell(
        width,
        height,
        r - 1,
        c + 1,
    ) + opt_cell(width, height, r, c - 1) + opt_cell(width, height, r, c + 1) + opt_cell(
        width,
        height,
        r + 1,
        c - 1,
    ) + opt_cell(width, height, r + 1, c) + opt_cell(width, height, r + 1, c + 1)
}

/// How many entries of `cells` lie in `mines`.
pub open spec fn count_mines_in(mines: Seq<(usize, usize)>, cells: Seq<(usize, usize)>) -> int
    decreases cells.len(),
{
    if cells.len() == 0 {
        0
    } else {
        count_mines_in(mines, cells.drop_last()) + if mines.contains(cells.last()) {
            1int
        } else {
            0int
        }
    }
}

/// The number of mines adjacent to `(r, c)`.
pub open spec fn mine_count_at(
    width: int,
    height: int,
    mines: Seq<(usize, usize)>,
    r: int,
    c: int,
) -> int {
    count_mines_in(mines, neighbor_seq(width, height, r, c))
}

/// A clipped cell listing holds a cell exactly when it is that cell, on the
/// grid.
pub proof fn lemma_opt_cell_contains(width: int, height: int, r: int, c: int)
    requires
        width <= usize::MAX,
        height <= usize::MAX,
    ensures
        forall|p: (usize, usize)|
            #[trigger] opt_cell(width, height, r, c).contains(p) <==> (in_bounds(
                width,
                height,
                r,
                c,
            ) && p.0 == r && p.1 == c),
{
    assert forall|p: (usize, usize)|
        #[trigger] opt_cell(width, height, r, c).contains(p) <==> (in_bounds(width, height, r, c)
            && p.0 == r && p.1 == c) by {
        if in_bounds(width, height, r, c) {
            let q = (r as usize, c as usize);
            assert(opt_cell(width, height, r, c) == seq![q]);
            if p.0 == r && p.1 == c {
                assert(opt_cell(width, height, r, c)[0] == p);
            }
            if opt_cell(width, height, r, c).contains(p) {
                let i = choose|i: int|
                    0 <= i < opt_cell(width, height, r, c).len() && opt_cell(
                        width,
                        height,
                        r,
                        c,
                    )[i] == p;
                assert(i == 0);
            }
        }
    }
}

/// A cell is listed among the neighbors of `(r, c)` exactly when it lies on
/// the grid and is adjacent to `(r, c)`.
pub proof fn lemma_neighbor_seq_contains(width: int, height: int, r: int, c: int)
    requires
        width <= usize::MAX,
        height <= usize::MAX,
    ensures
        forall|p: (usize, usize)|
            #[trigger] neighbor_seq(width, height, r, c).contains(p) <==> (in_bounds(
                width,
                height,
                p.0 as int,
                p.1 as int,
            ) && adjacent(p.0 as int, p.1 as int, r, c)),
{
    broadcast use vstd::seq_lib::lemma_seq_concat_contains_all_elements;

    lemma_opt_cell_contains(width, height, r - 1, c - 1);
    lemma_opt_cell_contains(width, height, r - 1, c);
    lemma_opt_cell_contains(width, height, r - 1, c + 1);
    lemma_opt_cell_contains(width, height, r, c - 1);
    lemma_opt_cell_contains(width, height, r, c + 1);
    lemma_opt_cell_contains(width, height, r + 1, c - 1);
    lemma_opt_cell_contains(width, height, r + 1, c);
    lemma_opt_cell_contains(width, height, r + 1, c + 1);
    assert forall|p: (usize, usize)|
        #[trigger] neighbor_seq(width, height, r, c).contains(p) <==> (in_bounds(
            width,
            height,
            p.0 as int,
            p.1 as int,
        ) && adjacent(p.0 as int, p.1 as int, r, c)) by {
        let pr = p.0 as int;
        let pc = p.1 as int;
        if in_bounds(width, height, pr, pc) && adjacent(pr, pc, r, c) {
            assert((pr == r - 1 || pr == r || pr == r + 1) && (pc == c - 1 || pc == c || pc == c
                + 1));
        }
    }
}

/// The neighbor listing never repeats a cell.
pub proof fn lemma_neighbor_seq_no_duplicates(width: int, height: int, r: int, c: int)
    requires
        width <= usize::MAX,
        height <= usize::MAX,
    ensures
        neighbor_seq(width, height, r, c).no_duplicates(),
{
    broadcast use vstd::seq_lib::lemma_seq_concat_contains_all_elements;

    lemma_opt_cell_contains(width, height, r - 1, c - 1);
    lemma_opt_cell_contains(width, height, r - 1, c);
    lemma_opt_cell_contains(width, height, r - 1, c + 1);
    lemma_opt_cell_contains(width, height, r, c - 1);
    lemma_opt_cell_contains(width, height, r, c + 1);
    lemma_opt_cell_contains(width, height, r + 1, c - 1);
    lemma_opt_cell_contains(width, height, r + 1, c);
    lemma_opt_cell_contains(width, height, r + 1, c + 1);
    let s1 = opt_cell(width, height, r - 1, c - 1);
    let s2 = opt_cell(width, height, r - 1, c);
    let s3 = opt_cell(width, height, r - 1, c + 1);
    let s4 = opt_cell(width, height, r, c - 1);
    let s5 = opt_cell(width, height, r, c + 1);
    let s6 = opt_cell(width, height, r + 1, c - 1);
    let s7 = opt_cell(width, height, r + 1, c);
    let s8 = opt_cell(width, height, r + 1, c + 1);
    lemma_opt_no_dup_concat(s1, s2);
    lemma_opt_no_dup_concat(s1 + s2, s3);
    lemma_opt_no_dup_concat(s1 + s2 + s3, s4);
    lemma_opt_no_dup_concat(s1 + s2 + s3 + s4, s5);
    lemma_opt_no_dup_concat(s1 + s2 + s3 + s4 + s5, s6);
    lemma_opt_no_dup_concat(s1 + s2 + s3 + s4 + s5 + s6, s7);
    lemma_opt_no_dup_concat(s1 + s2 + s3 + s4 + s5 + s6 + s7, s8);
}

/// Concatenation keeps a listing duplicate-free when the two parts are
/// duplicate-free and share no cell.
proof fn lemma_opt_no_dup_concat(a: Seq<(usize, usize)>, b: Seq<(usize, usize)>)
    requires
        a.no_duplicates(),
        b.no_duplicates(),
        forall|p: (usize, usize)| a.contains(p) ==> !b.contains(p),
    ensures
        (a + b).no_duplicates(),
{
    assert forall|i: int, j: int|
        0 <= i < (a + b).len() && 0 <= j < (a + b).len() && i != j implies (a + b)[i] != (
    a + b)[j] by {
        if i < a.len() && j < a.len() {
        } else if i >= a.len() && j >= a.len() {
        } else if i < a.len() && j >= a.len() {
            assert(a.contains(a[i]));
            assert(b.contains(b[j - a.len()]));
        } else {
            assert(a.contains(a[j]));
            assert(b.contains(b[i - a.len()]));
        }
    }
}

/// The count of mines among some cells is between 0 and the number of cells.
pub proof fn lemma_count_mines_in_bounds(mines: Seq<(usize, usize)>, cells: Seq<(usize, usize)>)
    ensures
        0 <= count_mines_in(mines, cells) <= cells.len(),
    decreases cells.len(),
{
    if cells.len() > 0 {
        lemma_count_mines_in_bounds(mines, cells.drop_last());
    }
}

/// If some listed cell is a mine, the count is positive.
pub proof fn lemma_count_mines_in_pos(
    mines: Seq<(usize, usize)>,
    cells: Seq<(usize, usize)>,
    p: (usize, usize),
)
    requires
        cells.contains(p),
        mines.contains(p),
    ensures
        count_mines_in(mines, cells) >= 1,
    decreases cells.len(),
{
    lemma_count_mines_in_bounds(mines, cells.drop_last());
    if cells.last() != p {
        let i = choose|i: int| 0 <= i < cells.len() && cells[i] == p;
        assert(cells.drop_last()[i] == p);
        lemma_count_mines_in_pos(mines, cells.drop_last(), p);
    }
}

/// One step of counting along a prefix of `cells`.
pub proof fn lemma_count_mines_in_take_succ(
    mines: Seq<(usize, usize)>,
    cells: Seq<(usize, usize)>,
    i: int,
)
    requires
        0 <= i < cells.len(),
    ensures
        count_mines_in(mines, cells.take(i + 1)) == count_mines_in(mines, cells.take(i)) + if mines.contains(cells[i]) {
            1int
        } else {
            0int
        },
{
    assert(cells.take(i + 1).drop_last() =~= cells.take(i));
    assert(cells.take(i + 1).last() == cells[i]);
}

/// Row-major index of an in-bounds cell lies within the grid's cell count.
pub proof fn lemma_cell_index_bound(width: int, height: int, r: int, c: int)
    by (nonlinear_arith)
    requires
        in_bounds(width, height, r, c),
    ensures
        0 <= r * width + c < width * height,
{
}

/// Distinct in-bounds cells have distinct row-major indices.
pub proof fn lemma_cell_index_injective(
    width: int,
    height: int,
    r1: int,
    c1: int,
    r2: int,
    c2: int,
)
    by (nonlinear_arith)
    requires
        in_bounds(width, height, r1, c1),
        in_bounds(width, height, r2, c2),
        r1 * width + c1 == r2 * width + c2,
    ensures
        r1 == r2 && c1 == c2,
{
}

/// Every index below `width * height` is the row-major index of exactly one
/// in-bounds cell.
pub proof fn lemma_cell_index_surjective(width: int, height: int, i: int)
    requires
        0 < width,
        0 < height,
        0 <= i < width * height,
    ensures
        in_bounds(width, height, i / width, i % width),
        (i / width) * width + (i % width) == i,
{
    vstd::arithmetic::div_mod::lemma_fundamental_div_mod(i, width);
    vstd::arithmetic::div_mod::lemma_mod_bound(i, width);
    assert(0 <= i / width < height) by (nonlinear_arith)
        requires
            0 < width,
            0 < height,
            0 <= i < width * height,
            i == width * (i / width) + (i % width),
            0 <= i % width < width,
    ;
    assert((i / width) * width + (i % width) == i) by (nonlinear_arith)
        requires
            i == width * (i / width) + (i % width),
    ;
}

} // verus!
