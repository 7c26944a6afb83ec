//! The playable core of a minesweeper game: a rectangular grid of tiles,
//! lazily placed mines that always spare the first revealed cell, and a
//! flood expansion that uncovers the zero-region around a safe reveal.
use crate::grid::{
    adjacent, count_mines_in, in_bounds, lemma_cell_index_bound, lemma_cell_index_injective,
    lemma_count_mines_in_bounds, lemma_count_mines_in_take_succ, lemma_neighbor_seq_contains,
    mine_count_at, neighbor_seq,
};
use crate::reach::{
    in_region, lemma_zero_cell_neighbor_not_mine, lemma_zero_reachable_closed,
    lemma_zero_reachable_ends, lemma_zero_reachable_self, lemma_zero_reachable_step, zero_cell,
    zero_reachable,
};
use itertools::Itertools;
use rand::seq::SliceRandom;
use vstd::pervasive::VecAdditionalExecFns;
use vstd::prelude::*;

verus! {

/// The state of one grid cell.
#[derive(Clone, Copy, Debug, PartialEq, Eq, Structural)]
pub enum TileState {
    /// Not yet revealed; the flag is a cosmetic marker with no effect on play.
    HIDDEN(bool),
    /// Revealed; the value is the number of adjacent mines, or -1 for a
    /// revealed mine.
    REVEALED(i8),
}

/// Construction was refused.
#[derive(Clone, Copy, Debug, PartialEq, Eq, Structural)]
pub enum ConstructionError {
    /// The requested mine count does not leave a single safe cell.
    InvalidConfiguration,
}

/// A reveal was refused.
#[derive(Clone, Copy, Debug, PartialEq, Eq, Structural)]
pub enum RevealError {
    /// The named cell lies outside the grid.
    OutOfRangeCoordinate,
}

/// The tile of cell `(r, c)` in a row-major tile listing.
pub open spec fn tile_in(tiles: Seq<TileState>, width: int, r: int, c: int) -> TileState {
    tiles[r * width + c]
}

/// Whether a tile has been revealed.
pub open spec fn is_revealed(t: TileState) -> bool {
    match t {
        TileState::HIDDEN(_) => false,
        TileState::REVEALED(_) => true,
    }
}

/// A revealed tile carries -1 exactly on a mine, and the exact
/// adjacent-mine count elsewhere.
pub open spec fn revealed_value_ok(
    width: int,
    height: int,
    mines: Seq<(usize, usize)>,
    r: int,
    c: int,
    t: TileState,
) -> bool {
    match t {
        TileState::HIDDEN(_) => true,
        TileState::REVEALED(n) => if mines.contains((r as usize, c as usize)) {
            n == -1
        } else {
            n as int == mine_count_at(width, height, mines, r, c)
        },
    }
}

/// Every revealed tile on the grid carries the value `revealed_value_ok`
/// demands.
pub open spec fn counts_ok(
    width: int,
    height: int,
    mines: Seq<(usize, usize)>,
    tiles: Seq<TileState>,
) -> bool {
    forall|r: int, c: int|
        in_bounds(width, height, r, c) ==> revealed_value_ok(
            width,
            height,
            mines,
            r,
            c,
            #[trigger] tile_in(tiles, width, r, c),
        )
}

/// No tile has been revealed.
pub open spec fn all_hidden(tiles: Seq<TileState>) -> bool {
    forall|i: int| 0 <= i < tiles.len() ==> !is_revealed(#[trigger] tiles[i])
}

/// Every neighbor of a tile revealed as zero is itself revealed or a mine,
/// except possibly the neighbors of the cell `(sr, sc)`.
pub open spec fn zero_closure_except(
    width: int,
    height: int,
    mines: Seq<(usize, usize)>,
    tiles: Seq<TileState>,
    sr: int,
    sc: int,
) -> bool {
    forall|r: int, c: int, rr: int, cc: int|
        #![trigger tile_in(tiles, width, r, c), tile_in(tiles, width, rr, cc)]
        in_bounds(width, height, r, c) && in_bounds(width, height, rr, cc) && !(r == sr && c == sc)
            && tile_in(tiles, width, r, c) == TileState::REVEALED(0) && adjacent(r, c, rr, cc)
            ==> mines.contains((rr as usize, cc as usize)) || is_revealed(
            tile_in(tiles, width, rr, cc),
        )
}

/// Every neighbor of a tile revealed as zero is itself revealed or a mine.
pub open spec fn zero_closure(
    width: int,
    height: int,
    mines: Seq<(usize, usize)>,
    tiles: Seq<TileState>,
) -> bool {
    forall|r: int, c: int, rr: int, cc: int|
        #![trigger tile_in(tiles, width, r, c), tile_in(tiles, width, rr, cc)]
        in_bounds(width, height, r, c) && in_bounds(width, height, rr, cc) && tile_in(
            tiles,
            width,
            r,
            c,
        ) == TileState::REVEALED(0) && adjacent(r, c, rr, cc) ==> mines.contains(
            (rr as usize, cc as usize),
        ) || is_revealed(tile_in(tiles, width, rr, cc))
}

/// Well-formedness of a board, except for the zero-region closure: the
/// configuration leaves a safe cell, the tile listing covers the grid, the
/// mines are distinct on-grid cells, the mine set is empty before placement
/// and has exactly the configured size after it, no tile is revealed before
/// placement, and every revealed tile carries the right value.
pub open spec fn board_wf_base(
    width: int,
    height: int,
    quota: int,
    mines: Seq<(usize, usize)>,
    tiles: Seq<TileState>,
) -> bool {
    &&& 0 <= quota < width * height
    &&& width <= usize::MAX
    &&& height <= usize::MAX
    &&& width * height <= usize::MAX
    &&& tiles.len() == width * height
    &&& mines.no_duplicates()
    &&& forall|i: int|
        0 <= i < mines.len() ==> in_bounds(
            width,
            height,
            (#[trigger] mines[i]).0 as int,
            mines[i].1 as int,
        )
    &&& mines.len() == 0 || mines.len() == quota
    &&& counts_ok(width, height, mines, tiles)
    &&& (mines.len() == 0 && quota > 0 ==> all_hidden(tiles))
}

/// Full well-formedness of a board.
pub open spec fn board_wf(
    width: int,
    height: int,
    quota: int,
    mines: Seq<(usize, usize)>,
    tiles: Seq<TileState>,
) -> bool {
    board_wf_base(width, height, quota, mines, tiles) && zero_closure(width, height, mines, tiles)
}

/// A freshly placed mine set: exactly `quota` distinct on-grid cells, none
/// of them the excluded cell `(er, ec)`.
pub open spec fn placement_ok(
    width: int,
    height: int,
    quota: int,
    mines: Seq<(usize, usize)>,
    er: int,
    ec: int,
) -> bool {
    &&& mines.len() == quota
    &&& mines.no_duplicates()
    &&& forall|i: int|
        0 <= i < mines.len() ==> in_bounds(
            width,
            height,
            (#[trigger] mines[i]).0 as int,
            mines[i].1 as int,
        )
    &&& !mines.contains((er as usize, ec as usize))
}

/// How one accepted `reveal` call at `(r, c)` relates the board's state
/// after the call to its state before it.
pub open spec fn reveal_post(
    width: int,
    height: int,
    quota: int,
    pre_mines: Seq<(usize, usize)>,
    pre_tiles: Seq<TileState>,
    post_mines: Seq<(usize, usize)>,
    post_tiles: Seq<TileState>,
    r: int,
    c: int,
) -> bool {
    &&& (pre_mines.len() > 0 ==> post_mines == pre_mines)
    &&& (pre_mines.len() == 0 ==> placement_ok(width, height, quota, post_mines, r, c))
    &&& post_tiles.len() == pre_tiles.len()
    &&& if post_mines.contains((r as usize, c as usize)) {
        post_tiles == pre_tiles.update(r * width + c, TileState::REVEALED(-1i8))
    } else {
        forall|rr: int, cc: int|
            in_bounds(width, height, rr, cc) ==> #[trigger] tile_in(post_tiles, width, rr, cc)
                == if in_region(
                width,
                height,
                post_mines,
                (r as usize, c as usize),
                (rr as usize, cc as usize),
            ) {
                TileState::REVEALED(mine_count_at(width, height, post_mines, rr, cc) as i8)
            } else {
                tile_in(pre_tiles, width, rr, cc)
            }
    }
}

/// The character a tile is displayed as: a solid block while hidden, `*` for
/// a revealed mine, a blank for a revealed zero, and the count's digit
/// otherwise.
pub open spec fn tile_char(t: TileState) -> char {
    match t {
        TileState::HIDDEN(_) => '#',
        TileState::REVEALED(n) => if n == -1 {
            '*'
        } else if n == 0 {
            ' '
        } else if n == 1 {
            '1'
        } else if n == 2 {
            '2'
        } else if n == 3 {
            '3'
        } else if n == 4 {
            '4'
        } else if n == 5 {
            '5'
        } else if n == 6 {
            '6'
        } else if n == 7 {
            '7'
        } else if n == 8 {
            '8'
        } else {
            '?'
        },
    }
}

/// A board held as explicit dimensions, a row-major tile vector, and the
/// mine cells.
pub struct BoardImpl {
    width: usize,
    height: usize,
    tiles: Vec<TileState>,
    mines: Vec<(usize, usize)>,
    mines_count: usize,
}

impl BoardImpl {
    /// The board's invariant.
    pub closed spec fn wf(&self) -> bool {
        board_wf(
            self.width as int,
            self.height as int,
            self.mines_count as int,
            self.mines@,
            self.tiles@,
        )
    }

    /// The board's invariant, short of the zero-region closure.
    pub closed spec fn wf_base(&self) -> bool {
        board_wf_base(
            self.width as int,
            self.height as int,
            self.mines_count as int,
            self.mines@,
            self.tiles@,
        )
    }

    /// The grid's width.
    pub closed spec fn grid_w(&self) -> int {
        self.width as int
    }

    /// The grid's height.
    pub closed spec fn grid_h(&self) -> int {
        self.height as int
    }

    /// The configured number of mines.
    pub closed spec fn mine_quota(&self) -> int {
        self.mines_count as int
    }

    /// The mine cells, empty until the first reveal places them.
    pub closed spec fn mines_seq(&self) -> Seq<(usize, usize)> {
        self.mines@
    }

    /// The tiles, row by row.
    pub closed spec fn tiles_seq(&self) -> Seq<TileState> {
        self.tiles@
    }

    /// The tile at row `r`, column `c`, or `None` outside the grid.
    pub fn get_tile(&self, r: usize, c: usize) -> (t: Option<TileState>)
        requires
            self.wf(),
        ensures
            t == if in_bounds(self.grid_w(), self.grid_h(), r as int, c as int) {
                Some(tile_in(self.tiles_seq(), self.grid_w(), r as int, c as int))
            } else {
                None::<TileState>
            },
    {
        if r < self.height && c < self.width {
            proof {
                lemma_cell_index_bound(self.width as int, self.height as int, r as int, c as int);
            }
            Some(self.tiles[r * self.width + c])
        } else {
            None
        }
    }

    /// Row-major index of the cell `(r, c)`.
    fn cell_index(&self, r: usize, c: usize) -> (i: usize)
        requires
            in_bounds(self.grid_w(), self.grid_h(), r as int, c as int),
            self.grid_w() * self.grid_h() <= usize::MAX,
        ensures
            i == r * self.grid_w() + c,
            i < self.grid_w() * self.grid_h(),
    {
        proof {
            lemma_cell_index_bound(self.width as int, self.height as int, r as int, c as int);
        }
        r * self.width + c
    }

    /// Whether `(r, c)` is one of the placed mines.
    fn mines_contains(&self, r: usize, c: usize) -> (b: bool)
        ensures
            b == self.mines_seq().contains((r, c)),
    {
        let mut i: usize = 0;
        while i < self.mines.len()
            invariant
                i <= self.mines@.len(),
                forall|j: int| 0 <= j < i ==> #[trigger] self.mines@[j] != (r, c),
            decreases self.mines@.len() - i,
        {
            let m = self.mines[i];
            if m.0 == r && m.1 == c {
                proof {
                    assert(self.mines@[i as int] == (r, c));
                }
                return true;
            }
            i += 1;
        }
        proof {
            if self.mines@.contains((r, c)) {
                let j = choose|j: int| 0 <= j < self.mines@.len() && self.mines@[j] == (r, c);
                assert(false);
            }
        }
        false
    }

    /// The neighbors of `(r, c)` clipped to the grid, in row-major order.
    pub fn get_neighbors(&self, r: usize, c: usize) -> (v: Vec<(usize, usize)>)
        requires
            in_bounds(self.grid_w(), self.grid_h(), r as int, c as int),
        ensures
            v@ == neighbor_seq(self.grid_w(), self.grid_h(), r as int, c as int),
    {
        let ghost w = self.grid_w();
        let ghost h = self.grid_h();
        let mut v: Vec<(usize, usize)> = Vec::new();
        if r > 0 && c > 0 {
            v.push((r - 1, c - 1));
        }
        proof {
            assert(v@ =~= crate::grid::opt_cell(w, h, r as int - 1, c as int - 1));
        }
        if r > 0 {
            v.push((r - 1, c));
        }
        proof {
            assert(v@ =~= crate::grid::opt_cell(w, h, r as int - 1, c as int - 1)
                + crate::grid::opt_cell(w, h, r as int - 1, c as int));
        }
        if r > 0 && c + 1 < self.width {
            v.push((r - 1, c + 1));
        }
        proof {
            assert(v@ =~= crate::grid::opt_cell(w, h, r as int - 1, c as int - 1)
                + crate::grid::opt_cell(w, h, r as int - 1, c as int) + crate::grid::opt_cell(
                w,
                h,
                r as int - 1,
                c as int + 1,
            ));
        }
        if c > 0 {
            v.push((r, c - 1));
        }
        proof {
            assert(v@ =~= crate::grid::opt_cell(w, h, r as int - 1, c as int - 1)
                + crate::grid::opt_cell(w, h, r as int - 1, c as int) + crate::grid::opt_cell(
                w,
                h,
                r as int - 1,
                c as int + 1,
            ) + crate::grid::opt_cell(w, h, r as int, c as int - 1));
        }
        if c + 1 < self.width {
            v.push((r, c + 1));
        }
        proof {
            assert(v@ =~= crate::grid::opt_cell(w, h, r as int - 1, c as int - 1)
                + crate::grid::opt_cell(w, h, r as int - 1, c as int) + crate::grid::opt_cell(
                w,
                h,
                r as int - 1,
                c as int + 1,
            ) + crate::grid::opt_cell(w, h, r as int, c as int - 1) + crate::grid::opt_cell(
                w,
                h,
                r as int,
                c as int + 1,
            ));
        }
        if r + 1 < self.height && c > 0 {
            v.push((r + 1, c - 1));
        }
        proof {
            assert(v@ =~= crate::grid::opt_cell(w, h, r as int - 1, c as int - 1)
                + crate::grid::opt_cell(w, h, r as int - 1, c as int) + crate::grid::opt_cell(
                w,
                h,
                r as int - 1,
                c as int + 1,
            ) + crate::grid::opt_cell(w, h, r as int, c as int - 1) + crate::grid::opt_cell(
                w,
                h,
                r as int,
                c as int + 1,
            ) + crate::grid::opt_cell(w, h, r as int + 1, c as int - 1));
        }
        if r + 1 < self.height {
            v.push((r + 1, c));
        }
        proof {
            assert(v@ =~= crate::grid::opt_cell(w, h, r as int - 1, c as int - 1)
                + crate::grid::opt_cell(w, h, r as int - 1, c as int) + crate::grid::opt_cell(
                w,
                h,
                r as int - 1,
                c as int + 1,
            ) + crate::grid::opt_cell(w, h, r as int, c as int - 1) + crate::grid::opt_cell(
                w,
                h,
                r as int,
                c as int + 1,
            ) + crate::grid::opt_cell(w, h, r as int + 1, c as int - 1) + crate::grid::opt_cell(
                w,
                h,
                r as int + 1,
                c as int,
            ));
        }
        if r + 1 < self.height && c + 1 < self.width {
            v.push((r + 1, c + 1));
        }
        proof {
            assert(v@ =~= neighbor_seq(w, h, r as int, c as int));
        }
        v
    }

    /// The number of mines adjacent to `(r, c)`.
    pub fn num_neighbor_mines(&self, r: usize, c: usize) -> (n: u8)
        requires
            in_bounds(self.grid_w(), self.grid_h(), r as int, c as int),
        ensures
            n as int == mine_count_at(
                self.grid_w(),
                self.grid_h(),
                self.mines_seq(),
                r as int,
                c as int,
            ),
            n <= 8,
    {
        let neighbors = self.get_neighbors(r, c);
        let ghost cells = neighbor_seq(self.grid_w(), self.grid_h(), r as int, c as int);
        proof {
            assert(cells.take(0) =~= Seq::<(usize, usize)>::empty());
            assert(cells.len() <= 8);
        }
        let mut n: u8 = 0;
        let mut i: usize = 0;
        while i < neighbors.len()
            invariant
                neighbors@ == cells,
                cells.len() <= 8,
                i <= cells.len(),
                n as int == count_mines_in(self.mines@, cells.take(i as int)),
                n <= i,
            decreases neighbors@.len() - i,
        {
            let p = neighbors[i];
            let hit = self.mines_contains(p.0, p.1);
            proof {
                lemma_count_mines_in_take_succ(self.mines@, cells, i as int);
                assert(p == (p.0, p.1));
                assert(cells[i as int] == p);
            }
            if hit {
                n += 1;
            }
            i += 1;
        }
        proof {
            assert(cells.take(cells.len() as int) =~= cells);
        }
        n
    }

    /// Place the mines, once: pick the configured number of distinct cells
    /// uniformly at random from the whole grid minus the excluded cell.
    fn setup_mines(&mut self, er: usize, ec: usize)
        requires
            old(self).wf(),
            old(self).mines_seq().len() == 0,
            in_bounds(old(self).grid_w(), old(self).grid_h(), er as int, ec as int),
        ensures
            final(self).wf(),
            final(self).grid_w() == old(self).grid_w(),
            final(self).grid_h() == old(self).grid_h(),
            final(self).mine_quota() == old(self).mine_quota(),
            final(self).tiles_seq() == old(self).tiles_seq(),
            placement_ok(
                old(self).grid_w(),
                old(self).grid_h(),
                old(self).mine_quota(),
                final(self).mines_seq(),
                er as int,
                ec as int,
            ),
    {
        let ghost w = self.grid_w();
        let ghost h = self.grid_h();
        let all = grid_cells(self.height, self.width);
        let mut candidates: Vec<(usize, usize)> = Vec::new();
        let mut i: usize = 0;
        proof {
            assert(all@.take(0) =~= Seq::<(usize, usize)>::empty());
        }
        while i < all.len()
            invariant
                i <= all@.len(),
                all@.len() == h * w,
                all@.no_duplicates(),
                forall|p: (usize, usize)| #[trigger] all@.contains(p) <==> (p.0 < h && p.1 < w),
                candidates@.no_duplicates(),
                forall|p: (usize, usize)| #[trigger]
                    candidates@.contains(p) <==> (all@.take(i as int).contains(p) && p != (
                    er,
                    ec,
                )),
                candidates@.len() == i - (if all@.take(i as int).contains((er, ec)) {
                    1int
                } else {
                    0int
                }),
            decreases all@.len() - i,
        {
            let p = all[i];
            proof {
                assert(all@.take(i + 1).drop_last() =~= all@.take(i as int));
                assert(all@.take(i + 1).last() == p);
                assert(all@.take(i + 1) =~= all@.take(i as int).push(p));
                broadcast use vstd::seq_lib::lemma_seq_contains_after_push;

                if all@.take(i as int).contains(p) {
                    let j = choose|j: int|
                        0 <= j < all@.take(i as int).len() && all@.take(i as int)[j] == p;
                    assert(all@[j] == all@[i as int]);
                    assert(false);
                }
            }
            if p.0 != er || p.1 != ec {
                let ghost oldc = candidates@;
                candidates.push(p);
                proof {
                    assert(p != (er, ec));
                    assert(!oldc.contains(p));
                    assert forall|a: int, b: int|
                        0 <= a < candidates@.len() && 0 <= b < candidates@.len() && a
                            != b implies candidates@[a] != candidates@[b] by {
                        if a < oldc.len() && b < oldc.len() {
                        } else if b == oldc.len() {
                            assert(oldc.contains(oldc[a]));
                        } else {
                            assert(oldc.contains(oldc[b]));
                        }
                    }
                    broadcast use vstd::seq_lib::lemma_seq_contains_after_push;

                }
            } else {
                proof {
                    assert(p == (er, ec));
                }
            }
            i += 1;
        }
        proof {
            assert(all@.take(all@.len() as int) =~= all@);
            assert(all@.contains((er, ec)));
            assert(candidates@.len() == h * w - 1);
            assert(self.mines_count < h * w);
        }
        let ghost before = candidates@;
        shuffle_cells(&mut candidates);
        let ghost picked_from = candidates@;
        proof {
            broadcast use vstd::seq_lib::group_to_multiset_ensures;

            assert(picked_from.to_multiset() == before.to_multiset());
            assert(picked_from.to_multiset().len() == picked_from.len());
            assert(before.to_multiset().len() == before.len());
            assert(picked_from.len() == h * w - 1);
            assert forall|p: (usize, usize)| #[trigger]
                picked_from.contains(p) <==> (p.0 < h && p.1 < w && p != (er, ec)) by {
                assert(picked_from.contains(p) <==> picked_from.to_multiset().count(p) > 0);
                assert(before.contains(p) <==> before.to_multiset().count(p) > 0);
            }
            before.lemma_multiset_has_no_duplicates();
            assert forall|x: (usize, usize)|
                picked_from.to_multiset().contains(x) implies picked_from.to_multiset().count(x)
                == 1 by {
                assert(before.to_multiset().contains(x));
            }
            picked_from.lemma_multiset_has_no_duplicates_conv();
            assert(picked_from.no_duplicates());
        }
        let mut j: usize = 0;
        while j < self.mines_count
            invariant
                j <= self.mines_count,
                self.mines_count <= candidates@.len(),
                candidates@ == picked_from,
                self.mines@ =~= candidates@.take(j as int),
                self.width == old(self).width,
                self.height == old(self).height,
                self.mines_count == old(self).mines_count,
                self.tiles@ == old(self).tiles@,
            decreases self.mines_count - j,
        {
            let p = candidates[j];
            self.mines.push(p);
            proof {
                assert(candidates@.take(j + 1) =~= candidates@.take(j as int).push(p));
            }
            j += 1;
        }
        proof {
            let m = self.mines@;
            assert(m =~= picked_from.take(self.mines_count as int));
            assert forall|a: int, b: int|
                0 <= a < m.len() && 0 <= b < m.len() && a != b implies m[a] != m[b] by {
                assert(picked_from[a] == m[a] && picked_from[b] == m[b]);
            }
            assert forall|k: int| 0 <= k < m.len() implies in_bounds(
                w,
                h,
                (#[trigger] m[k]).0 as int,
                m[k].1 as int,
            ) by {
                assert(picked_from.contains(picked_from[k]));
                assert(m[k] == picked_from[k]);
            }
            if m.contains((er, ec)) {
                let k = choose|k: int| 0 <= k < m.len() && m[k] == (er, ec);
                assert(picked_from.contains(picked_from[k]));
                assert(false);
            }
            if self.mines_count > 0 {
                assert(all_hidden(self.tiles@));
                assert forall|r: int, c: int| in_bounds(w, h, r, c) implies revealed_value_ok(
                    w,
                    h,
                    m,
                    r,
                    c,
                    #[trigger] tile_in(self.tiles@, w, r, c),
                ) by {
                    lemma_cell_index_bound(w, h, r, c);
                    assert(!is_revealed(self.tiles@[r * w + c]));
                }
                assert forall|r: int, c: int, rr: int, cc: int|
                    in_bounds(w, h, r, c) && in_bounds(w, h, rr, cc) && #[trigger] tile_in(
                        self.tiles@,
                        w,
                        r,
                        c,
                    ) == TileState::REVEALED(0) && adjacent(r, c, rr, cc) implies m.contains(
                    (rr as usize, cc as usize),
                ) || is_revealed(#[trigger] tile_in(self.tiles@, w, rr, cc)) by {
                    lemma_cell_index_bound(w, h, r, c);
                    assert(!is_revealed(self.tiles@[r * w + c]));
                }
            } else {
                assert(m.len() == 0);
                assert(m =~= old(self).mines@);
            }
        }
    }

    /// Mark every not-yet-seen neighbor of `(pr, pc)` as seen and append it
    /// to the worklist.
    #[verifier::loop_isolation(false)]
    fn push_unvisited_neighbors(
        &self,
        pr: usize,
        pc: usize,
        queue: &mut Vec<(usize, usize)>,
        visited: &mut Vec<bool>,
    )
        requires
            in_bounds(self.grid_w(), self.grid_h(), pr as int, pc as int),
            self.grid_w() * self.grid_h() <= usize::MAX,
            old(visited)@.len() == self.grid_w() * self.grid_h(),
        ensures
            final(visited)@.len() == old(visited)@.len(),
            forall|q: (usize, usize)|
                #![trigger vis_at(final(visited)@, self.grid_w(), q)]
                #![trigger vis_at(old(visited)@, self.grid_w(), q)]
                in_bounds(self.grid_w(), self.grid_h(), q.0 as int, q.1 as int) ==> (vis_at(
                    final(visited)@,
                    self.grid_w(),
                    q,
                ) <==> (vis_at(old(visited)@, self.grid_w(), q) || adjacent(
                    q.0 as int,
                    q.1 as int,
                    pr as int,
                    pc as int,
                ))),
            final(queue)@.len() >= old(queue)@.len(),
            final(queue)@.take(old(queue)@.len() as int) == old(queue)@,
            forall|k: int|
                old(queue)@.len() <= k < final(queue)@.len() ==> {
                    let q = #[trigger] final(queue)@[k];
                    &&& in_bounds(self.grid_w(), self.grid_h(), q.0 as int, q.1 as int)
                    &&& adjacent(q.0 as int, q.1 as int, pr as int, pc as int)
                    &&& !vis_at(old(visited)@, self.grid_w(), q)
                },
            (old(queue)@.no_duplicates() && (forall|k: int|
                0 <= k < old(queue)@.len() ==> in_bounds(
                    self.grid_w(),
                    self.grid_h(),
                    (#[trigger] old(queue)@[k]).0 as int,
                    old(queue)@[k].1 as int,
                ) && vis_at(old(visited)@, self.grid_w(), old(queue)@[k])))
                ==> final(queue)@.no_duplicates(),
            forall|q: (usize, usize)|
                in_bounds(self.grid_w(), self.grid_h(), q.0 as int, q.1 as int) && !vis_at(
                    old(visited)@,
                    self.grid_w(),
                    q,
                ) && #[trigger] vis_at(final(visited)@, self.grid_w(), q) ==> exists|k: int|
                    old(queue)@.len() <= k < final(queue)@.len() && #[trigger] final(queue)@[k]
                        == q,
            count_false(final(visited)@) == count_false(old(visited)@) - (final(queue)@.len()
                - old(queue)@.len()),
    {
        let ghost w = self.grid_w();
        let ghost h = self.grid_h();
        let neighbors = self.get_neighbors(pr, pc);
        let ghost cells = neighbors@;
        proof {
            lemma_neighbor_seq_contains(w, h, pr as int, pc as int);
        }
        let mut j: usize = 0;
        while j < neighbors.len()
            invariant
                j <= cells.len(),
                visited@.len() == w * h,
                forall|q: (usize, usize)|
                    #![trigger vis_at(visited@, w, q)]
                    #![trigger vis_at(old(visited)@, w, q)]
                    #![trigger cells.take(j as int).contains(q)]
                    in_bounds(w, h, q.0 as int, q.1 as int) ==> (vis_at(visited@, w, q) <==> (
                    vis_at(old(visited)@, w, q) || cells.take(j as int).contains(q))),
                queue@.len() >= old(queue)@.len(),
                queue@.take(old(queue)@.len() as int) == old(queue)@,
                forall|k: int|
                    old(queue)@.len() <= k < queue@.len() ==> {
                        let q = #[trigger] queue@[k];
                        &&& in_bounds(w, h, q.0 as int, q.1 as int)
                        &&& adjacent(q.0 as int, q.1 as int, pr as int, pc as int)
                        &&& !vis_at(old(visited)@, w, q)
                        &&& vis_at(visited@, w, q)
                    },
                (old(queue)@.no_duplicates() && (forall|k: int|
                    0 <= k < old(queue)@.len() ==> in_bounds(
                        w,
                        h,
                        (#[trigger] old(queue)@[k]).0 as int,
                        old(queue)@[k].1 as int,
                    ) && vis_at(old(visited)@, w, old(queue)@[k]))) ==> (queue@.no_duplicates() && (
                forall|k: int|
                    0 <= k < queue@.len() ==> in_bounds(
                        w,
                        h,
                        (#[trigger] queue@[k]).0 as int,
                        queue@[k].1 as int,
                    ) && vis_at(visited@, w, queue@[k]))),
                forall|x: (usize, usize)|
                    in_bounds(w, h, x.0 as int, x.1 as int) && !vis_at(old(visited)@, w, x)
                        && #[trigger] vis_at(visited@, w, x) ==> exists|k: int|
                        old(queue)@.len() <= k < queue@.len() && #[trigger] queue@[k] == x,
                count_false(visited@) == count_false(old(visited)@) - (queue@.len() - old(
                    queue,
                )@.len()),
            decreases cells.len() - j,
        {
            let q = neighbors[j];
            proof {
                assert(cells.contains(cells[j as int]));
                assert(q == (q.0, q.1));
                assert(in_bounds(w, h, q.0 as int, q.1 as int));
                lemma_cell_index_bound(w, h, q.0 as int, q.1 as int);
            }
            let qi = self.cell_index(q.0, q.1);
            if !visited[qi] {
                let ghost oldvs = visited@;
                let ghost oldq = queue@;
                visited.set(qi, true);
                queue.push(q);
                proof {
                    lemma_count_false_update(oldvs, qi as int);
                    assert forall|x: (usize, usize)|
                        in_bounds(w, h, x.0 as int, x.1 as int) implies (vis_at(visited@, w, x)
                        <==> (vis_at(old(visited)@, w, x) || cells.take(j + 1).contains(
                        x,
                    ))) by {
                        lemma_cell_index_bound(w, h, x.0 as int, x.1 as int);
                        assert(cells.take(j + 1) =~= cells.take(j as int).push(q));
                        broadcast use vstd::seq_lib::lemma_seq_contains_after_push;

                        if x.0 * w + x.1 == qi {
                            lemma_cell_index_injective(
                                w,
                                h,
                                x.0 as int,
                                x.1 as int,
                                q.0 as int,
                                q.1 as int,
                            );
                            assert(x == q);
                        } else {
                            assert(visited@[x.0 * w + x.1] == oldvs[x.0 * w + x.1]);
                            if x == q {
                                assert(false);
                            }
                        }
                    }
                    assert(queue@.take(old(queue)@.len() as int) =~= old(queue)@);
                    if oldq.no_duplicates() && (forall|k: int|
                        0 <= k < oldq.len() ==> in_bounds(
                            w,
                            h,
                            (#[trigger] oldq[k]).0 as int,
                            oldq[k].1 as int,
                        ) && vis_at(oldvs, w, oldq[k])) {
                        assert forall|a: int, b: int|
                            0 <= a < queue@.len() && 0 <= b < queue@.len() && a != b implies queue@[a]
                            != queue@[b] by {
                            if a < oldq.len() && b < oldq.len() {
                            } else if b == oldq.len() && a < oldq.len() {
                                assert(vis_at(oldvs, w, oldq[a]));
                            } else if a == oldq.len() && b < oldq.len() {
                                assert(vis_at(oldvs, w, oldq[b]));
                            }
                        }
                        assert forall|k: int| 0 <= k < queue@.len() implies in_bounds(
                            w,
                            h,
                            (#[trigger] queue@[k]).0 as int,
                            queue@[k].1 as int,
                        ) && vis_at(visited@, w, queue@[k]) by {
                            let x = queue@[k];
                            if k < oldq.len() {
                                assert(in_bounds(w, h, x.0 as int, x.1 as int));
                                assert(vis_at(oldvs, w, x));
                                lemma_cell_index_bound(w, h, x.0 as int, x.1 as int);
                                if x.0 * w + x.1 == qi {
                                } else {
                                    assert(visited@[x.0 * w + x.1] == oldvs[x.0 * w + x.1]);
                                }
                            } else {
                                assert(x == q);
                            }
                        }
                    }
                    assert forall|x: (usize, usize)|
                        in_bounds(w, h, x.0 as int, x.1 as int) && !vis_at(old(visited)@, w, x)
                            && #[trigger] vis_at(visited@, w, x) implies exists|k: int|
                        old(queue)@.len() <= k < queue@.len() && #[trigger] queue@[k] == x by {
                        lemma_cell_index_bound(w, h, x.0 as int, x.1 as int);
                        if x.0 * w + x.1 == qi as int {
                            lemma_cell_index_injective(
                                w,
                                h,
                                x.0 as int,
                                x.1 as int,
                                q.0 as int,
                                q.1 as int,
                            );
                            assert(x == q);
                            assert(queue@[oldq.len() as int] == q);
                        } else {
                            assert(visited@[x.0 * w + x.1] == oldvs[x.0 * w + x.1]);
                            assert(vis_at(oldvs, w, x));
                            let k = choose|k: int|
                                old(queue)@.len() <= k < oldq.len() && #[trigger] oldq[k] == x;
                            assert(queue@[k] == x);
                        }
                    }
                }
            } else {
                proof {
                    assert(vis_at(visited@, w, q));
                    assert forall|x: (usize, usize)|
                        in_bounds(w, h, x.0 as int, x.1 as int) implies (vis_at(visited@, w, x)
                        <==> (vis_at(old(visited)@, w, x) || cells.take(j + 1).contains(
                        x,
                    ))) by {
                        assert(cells.take(j + 1) =~= cells.take(j as int).push(q));
                        broadcast use vstd::seq_lib::lemma_seq_contains_after_push;

                    }
                }
            }
            j += 1;
        }
        proof {
            assert(cells.take(cells.len() as int) =~= cells);
        }
    }

    /// One worklist step of flood expansion.
    #[verifier::loop_isolation(false)]
    #[verifier::rlimit(100)]
    #[verifier::spinoff_prover]
    fn expand_step(
        &mut self,
        queue: &mut Vec<(usize, usize)>,
        visited: &mut Vec<bool>,
        Ghost(pre): Ghost<Seq<TileState>>,
        Ghost(s): Ghost<(usize, usize)>,
    )
        requires
            old(queue)@.len() > 0,
            old(self).expand_inv(old(queue)@, old(visited)@, pre, s),
        ensures
            final(self).expand_inv(final(queue)@, final(visited)@, pre, s),
            final(self).width == old(self).width,
            final(self).height == old(self).height,
            final(self).mines_count == old(self).mines_count,
            final(self).mines@ == old(self).mines@,
            count_false(final(visited)@) <= count_false(old(visited)@),
            count_false(final(visited)@) == count_false(old(visited)@) ==> final(queue)@.len()
                < old(queue)@.len(),
    {
        let ghost w = self.grid_w();
        let ghost h = self.grid_h();
        let ghost mines = self.mines@;
            let ghost q_at_start = queue@;
            let popped = queue.pop().unwrap();
            let pr = popped.0;
            let pc = popped.1;
            proof {
                assert(q_at_start[q_at_start.len() - 1] == popped);
                assert(queue@ =~= q_at_start.take(q_at_start.len() - 1));
                assert forall|k: int| 0 <= k < queue@.len() implies q_at_start.contains(
                    #[trigger] queue@[k],
                ) by {
                    assert(queue@[k] == q_at_start[k]);
                }
                assert(in_bounds(w, h, pr as int, pc as int));
                assert(!mines.contains(popped));
                lemma_cell_index_bound(w, h, pr as int, pc as int);
            }
            let ti = self.cell_index(pr, pc);
            let t = self.tiles[ti];
            let ghost tiles_at_pop = self.tiles@;
            let mut spread = false;
            match t {
                TileState::REVEALED(n) => {
                    spread = n == 0;
                },
                TileState::HIDDEN(_) => {
                    let is_mine = self.mines_contains(pr, pc);
                    if !is_mine {
                        let n = self.num_neighbor_mines(pr, pc);
                        self.tiles.set(ti, TileState::REVEALED(n as i8));
                        spread = n == 0;
                        proof {
                            assert(tile_in(self.tiles@, w, pr as int, pc as int)
                                == TileState::REVEALED(
                                mine_count_at(w, h, mines, pr as int, pc as int) as i8,
                            ));
                        }
                    }
                },
            }
            proof {
                lemma_count_mines_in_bounds(mines, neighbor_seq(w, h, pr as int, pc as int));
                assert(tile_in(self.tiles@, w, pr as int, pc as int) == TileState::REVEALED(
                    mine_count_at(w, h, mines, pr as int, pc as int) as i8,
                )) by {
                    match t {
                        TileState::REVEALED(n) => {
                            assert(self.tiles@ == tiles_at_pop);
                            assert(tile_in(tiles_at_pop, w, pr as int, pc as int)
                                == TileState::REVEALED(n));
                            assert(n as int == mine_count_at(w, h, mines, pr as int, pc as int));
                        },
                        TileState::HIDDEN(_) => {},
                    }
                }
                assert(in_region(w, h, mines, s, popped)) by {
                    assert(q_at_start.contains(popped));
                }
                assert(is_revealed(tile_in(tiles_at_pop, w, pr as int, pc as int)) ==> tile_in(
                    self.tiles@,
                    w,
                    pr as int,
                    pc as int,
                ) == tile_in(tiles_at_pop, w, pr as int, pc as int)) by {
                    match t {
                        TileState::REVEALED(n) => {
                            assert(self.tiles@ == tiles_at_pop);
                        },
                        TileState::HIDDEN(_) => {
                            assert(tile_in(tiles_at_pop, w, pr as int, pc as int) == t);
                        },
                    }
                }
                assert forall|rr: int, cc: int| in_bounds(w, h, rr, cc) implies (#[trigger] tile_in(
                    self.tiles@,
                    w,
                    rr,
                    cc,
                ) == tile_in(tiles_at_pop, w, rr, cc) || (rr == pr as int && cc
                    == pc as int)) by {
                    lemma_cell_index_bound(w, h, rr, cc);
                    if rr * w + cc != ti {
                        assert(self.tiles@[rr * w + cc] == tiles_at_pop[rr * w + cc]);
                    } else {
                        lemma_cell_index_injective(w, h, rr, cc, pr as int, pc as int);
                    }
                }
                lemma_region_tiles_update(
                    w,
                    h,
                    mines,
                    s,
                    pre,
                    tiles_at_pop,
                    self.tiles@,
                    popped,
                );
                assert forall|rr: int, cc: int| in_bounds(w, h, rr, cc) implies revealed_value_ok(
                    w,
                    h,
                    mines,
                    rr,
                    cc,
                    #[trigger] tile_in(self.tiles@, w, rr, cc),
                ) by {
                    if !(rr == pr as int && cc == pc as int) {
                        assert(tile_in(self.tiles@, w, rr, cc) == tile_in(
                            tiles_at_pop,
                            w,
                            rr,
                            cc,
                        ));
                    }
                }
                if spread {
                    assert(zero_cell(w, h, mines, popped)) by {
                        match t {
                            TileState::REVEALED(n) => {
                                assert(tile_in(tiles_at_pop, w, pr as int, pc as int)
                                    == TileState::REVEALED(n));
                                assert(n as int == mine_count_at(w, h, mines, pr as int, pc as int));
                            },
                            TileState::HIDDEN(_) => {},
                        }
                    }
                    assert(zero_reachable(w, h, mines, s, popped)) by {
                        if popped == s {
                            lemma_zero_reachable_self(w, h, mines, s);
                        } else {
                            assert(q_at_start.contains(popped));
                            let z = choose|z: (usize, usize)|
                                #[trigger] zero_reachable(w, h, mines, s, z)
                                    && crate::grid::adjacent_cells(z, popped);
                            lemma_zero_reachable_step(w, h, mines, s, z, popped);
                        }
                    }
                }
            }
            if spread {
                let ghost vs_before = visited@;
                let ghost q_before = queue@;
                self.push_unvisited_neighbors(pr, pc, queue, visited);
                proof {
                    assert(queue@.no_duplicates()) by {
                        assert(q_before.no_duplicates()) by {
                            assert forall|a: int, b: int|
                                0 <= a < q_before.len() && 0 <= b < q_before.len() && a
                                    != b implies q_before[a] != q_before[b] by {
                                assert(q_at_start[a] == q_before[a] && q_at_start[b]
                                    == q_before[b]);
                            }
                        }
                        assert(forall|k: int|
                            0 <= k < q_before.len() ==> vis_at(
                                vs_before,
                                w,
                                #[trigger] q_before[k],
                            ));
                    }
                    assert forall|x: (usize, usize)|
                        in_bounds(w, h, x.0 as int, x.1 as int) implies (vis_at(visited@, w, x)
                        <==> (vis_at(vs_before, w, x) || adjacent(
                        x.0 as int,
                        x.1 as int,
                        popped.0 as int,
                        popped.1 as int,
                    ))) by {
                        assert(popped.0 == pr && popped.1 == pc);
                        assert(w == self.grid_w() && h == self.grid_h());
                        assert(in_bounds(self.grid_w(), self.grid_h(), x.0 as int, x.1 as int));
                        assert(vis_at(visited@, self.grid_w(), x) <==> (vis_at(
                            vs_before,
                            self.grid_w(),
                            x,
                        ) || adjacent(x.0 as int, x.1 as int, pr as int, pc as int)));
                    }
                    lemma_after_push_frontier(
                        w,
                        h,
                        mines,
                        s,
                        self.tiles@,
                        tiles_at_pop,
                        q_at_start,
                        q_before,
                        queue@,
                        vs_before,
                        visited@,
                        popped,
                    );
                }
            } else {
                proof {
                    assert(!zero_cell(w, h, mines, popped)) by {
                        if zero_cell(w, h, mines, popped) {
                            match t {
                                TileState::REVEALED(n) => {
                                    assert(n as int == mine_count_at(
                                        w,
                                        h,
                                        mines,
                                        pr as int,
                                        pc as int,
                                    ));
                                },
                                TileState::HIDDEN(_) => {
                                    assert(false);
                                },
                            }
                        }
                    }
                    lemma_after_skip_frontier(
                        w,
                        h,
                        mines,
                        s,
                        self.tiles@,
                        tiles_at_pop,
                        q_at_start,
                        queue@,
                        visited@,
                        popped,
                    );
                }
            }
            proof {
                lemma_count_false_nonneg(visited@);
            }
    }

    /// The worklist invariant of flood expansion: the board stays
    /// well-formed short of the closure at the frontier, worklist entries
    /// are distinct seen safe cells of the region, every change so far is a
    /// correct reveal inside the region, seen zero cells off the worklist
    /// have all neighbors seen, and seen safe cells off the worklist are
    /// revealed.
    spec fn expand_inv(
        &self,
        queue: Seq<(usize, usize)>,
        vs: Seq<bool>,
        pre: Seq<TileState>,
        s: (usize, usize),
    ) -> bool {
        let w = self.width as int;
        let h = self.height as int;
        let mines = self.mines@;
        &&& self.wf_base()
        &&& mines.len() > 0 || self.mines_count == 0
        &&& vs.len() == w * h
        &&& queue.no_duplicates()
        &&& forall|k: int|
            0 <= k < queue.len() ==> {
                let x = #[trigger] queue[k];
                &&& in_bounds(w, h, x.0 as int, x.1 as int)
                &&& vis_at(vs, w, x)
                &&& !mines.contains(x)
                &&& (x == s || exists|z: (usize, usize)|
                    #[trigger] zero_reachable(w, h, mines, s, z) && crate::grid::adjacent_cells(
                        z,
                        x,
                    ))
            }
        &&& forall|rr: int, cc: int|
            in_bounds(w, h, rr, cc) ==> #[trigger] tile_in(self.tiles@, w, rr, cc) == tile_in(
                pre,
                w,
                rr,
                cc,
            ) || (!mines.contains((rr as usize, cc as usize)) && !is_revealed(
                tile_in(pre, w, rr, cc),
            ) && tile_in(self.tiles@, w, rr, cc) == TileState::REVEALED(
                mine_count_at(w, h, mines, rr, cc) as i8,
            ) && in_region(w, h, mines, s, (rr as usize, cc as usize)))
        &&& forall|v: (usize, usize), q: (usize, usize)|
            #![trigger vis_at(vs, w, v), vis_at(vs, w, q)]
            in_bounds(w, h, v.0 as int, v.1 as int) && in_bounds(w, h, q.0 as int, q.1 as int)
                && vis_at(vs, w, v) && !queue.contains(v) && zero_cell(w, h, mines, v)
                && crate::grid::adjacent_cells(v, q) ==> vis_at(vs, w, q)
        &&& forall|v: (usize, usize)|
            in_bounds(w, h, v.0 as int, v.1 as int) && #[trigger] vis_at(vs, w, v)
                && !queue.contains(v) && !mines.contains(v) ==> is_revealed(
                tile_in(self.tiles@, w, v.0 as int, v.1 as int),
            )
        &&& in_bounds(w, h, s.0 as int, s.1 as int)
        &&& !mines.contains(s)
        &&& vis_at(vs, w, s)
        &&& tile_in(self.tiles@, w, s.0 as int, s.1 as int) == TileState::REVEALED(
            mine_count_at(w, h, mines, s.0 as int, s.1 as int) as i8,
        )
        &&& count_false(vs) >= 0
    }

    /// Flood expansion: starting from an already revealed safe cell, keep
    /// revealing until the uncovered area is bordered only by mines and by
    /// revealed tiles with a positive adjacent-mine count. The final tiles
    /// depend only on the mine layout and the starting cell, not on the
    /// order the worklist is processed in.
    #[verifier::loop_isolation(false)]
    #[verifier::rlimit(100)]
    #[verifier::spinoff_prover]
    pub fn expand_revealed_tile(&mut self, r: usize, c: usize)
        requires
            old(self).wf_base(),
            zero_closure_except(
                old(self).grid_w(),
                old(self).grid_h(),
                old(self).mines_seq(),
                old(self).tiles_seq(),
                r as int,
                c as int,
            ),
            in_bounds(old(self).grid_w(), old(self).grid_h(), r as int, c as int),
            !old(self).mines_seq().contains((r, c)),
            tile_in(old(self).tiles_seq(), old(self).grid_w(), r as int, c as int)
                == TileState::REVEALED(
                mine_count_at(
                    old(self).grid_w(),
                    old(self).grid_h(),
                    old(self).mines_seq(),
                    r as int,
                    c as int,
                ) as i8,
            ),
        ensures
            final(self).wf(),
            final(self).grid_w() == old(self).grid_w(),
            final(self).grid_h() == old(self).grid_h(),
            final(self).mine_quota() == old(self).mine_quota(),
            final(self).mines_seq() == old(self).mines_seq(),
            final(self).tiles_seq().len() == old(self).tiles_seq().len(),
            forall|rr: int, cc: int|
                in_bounds(old(self).grid_w(), old(self).grid_h(), rr, cc)
                    ==> #[trigger] tile_in(final(self).tiles_seq(), old(self).grid_w(), rr, cc)
                    == if in_region(
                    old(self).grid_w(),
                    old(self).grid_h(),
                    old(self).mines_seq(),
                    (r, c),
                    (rr as usize, cc as usize),
                ) {
                    TileState::REVEALED(
                        mine_count_at(
                            old(self).grid_w(),
                            old(self).grid_h(),
                            old(self).mines_seq(),
                            rr,
                            cc,
                        ) as i8,
                    )
                } else {
                    tile_in(old(self).tiles_seq(), old(self).grid_w(), rr, cc)
                },
    {
        let ghost w = self.grid_w();
        let ghost h = self.grid_h();
        let ghost mines = self.mines@;
        let ghost pre = self.tiles@;
        let ghost s = (r, c);
        let total = self.width * self.height;
        let mut visited = make_unvisited(total);
        proof {
            lemma_cell_index_bound(w, h, r as int, c as int);
        }
        let si = self.cell_index(r, c);
        let ghost init_vs = visited@;
        visited.set(si, true);
        let mut queue: Vec<(usize, usize)> = Vec::new();
        queue.push((r, c));
        proof {
            lemma_count_false_update(init_vs, si as int);
            assert(count_false(visited@) == w * h - 1);
            assert(self.mines@.len() > 0 || self.mines_count == 0) by {
                if self.mines@.len() == 0 && self.mines_count > 0 {
                    assert(!is_revealed(pre[r as int * w + c as int]));
                }
            }
            assert(queue@[0] == s);
            assert(queue@.contains(s));
            assert forall|v: (usize, usize)|
                in_bounds(w, h, v.0 as int, v.1 as int) && #[trigger] vis_at(
                    visited@,
                    w,
                    v,
                ) implies v == s by {
                lemma_cell_index_bound(w, h, v.0 as int, v.1 as int);
                if v.0 * w + v.1 == si as int {
                    lemma_cell_index_injective(w, h, v.0 as int, v.1 as int, r as int, c as int);
                } else {
                    assert(visited@[v.0 * w + v.1] == init_vs[v.0 * w + v.1]);
                    assert(false);
                }
            }
        }
        proof {
            assert(self.expand_inv(queue@, visited@, pre, s));
        }
        while queue.len() > 0
            invariant
                self.expand_inv(queue@, visited@, pre, s),
                self.width == old(self).width,
                self.height == old(self).height,
                self.mines_count == old(self).mines_count,
                self.mines@ == mines,
            decreases count_false(visited@), queue@.len(),
        {
            self.expand_step(&mut queue, &mut visited, Ghost(pre), Ghost(s));
        }
        proof {
            assert forall|v: (usize, usize), q: (usize, usize)|
                #![trigger vis_at(visited@, w, v), vis_at(visited@, w, q)]
                in_bounds(w, h, v.0 as int, v.1 as int) && in_bounds(w, h, q.0 as int, q.1 as int)
                    && vis_at(visited@, w, v) && zero_cell(w, h, mines, v)
                    && crate::grid::adjacent_cells(v, q) implies vis_at(visited@, w, q) by {
                assert(!queue@.contains(v));
            }
            assert forall|v: (usize, usize)|
                in_bounds(w, h, v.0 as int, v.1 as int) && #[trigger] vis_at(visited@, w, v)
                    && !mines.contains(v) implies is_revealed(
                tile_in(self.tiles@, w, v.0 as int, v.1 as int),
            ) by {
                assert(!queue@.contains(v));
            }
            lemma_expand_exit(w, h, mines, pre, self.tiles@, visited@, s);
        }
    }

}

/// Revealing the popped cell with its exact count keeps every change to the
/// tiles inside the region of `s`.
#[verifier::spinoff_prover]
proof fn lemma_region_tiles_update(
    w: int,
    h: int,
    mines: Seq<(usize, usize)>,
    s: (usize, usize),
    pre: Seq<TileState>,
    tiles_at_pop: Seq<TileState>,
    tiles: Seq<TileState>,
    popped: (usize, usize),
)
    requires
        in_bounds(w, h, popped.0 as int, popped.1 as int),
        !mines.contains(popped),
        in_region(w, h, mines, s, popped),
        tile_in(tiles, w, popped.0 as int, popped.1 as int) == TileState::REVEALED(
            mine_count_at(w, h, mines, popped.0 as int, popped.1 as int) as i8,
        ),
        is_revealed(tile_in(tiles_at_pop, w, popped.0 as int, popped.1 as int)) ==> tile_in(
            tiles,
            w,
            popped.0 as int,
            popped.1 as int,
        ) == tile_in(tiles_at_pop, w, popped.0 as int, popped.1 as int),
        forall|rr: int, cc: int|
            in_bounds(w, h, rr, cc) ==> #[trigger] tile_in(tiles, w, rr, cc) == tile_in(
                tiles_at_pop,
                w,
                rr,
                cc,
            ) || (rr == popped.0 as int && cc == popped.1 as int),
        forall|rr: int, cc: int|
            in_bounds(w, h, rr, cc) ==> #[trigger] tile_in(tiles_at_pop, w, rr, cc) == tile_in(
                pre,
                w,
                rr,
                cc,
            ) || (!mines.contains((rr as usize, cc as usize)) && !is_revealed(
                tile_in(pre, w, rr, cc),
            ) && tile_in(tiles_at_pop, w, rr, cc) == TileState::REVEALED(
                mine_count_at(w, h, mines, rr, cc) as i8,
            ) && in_region(w, h, mines, s, (rr as usize, cc as usize))),
    ensures
        forall|rr: int, cc: int|
            in_bounds(w, h, rr, cc) ==> #[trigger] tile_in(tiles, w, rr, cc) == tile_in(
                pre,
                w,
                rr,
                cc,
            ) || (!mines.contains((rr as usize, cc as usize)) && !is_revealed(
                tile_in(pre, w, rr, cc),
            ) && tile_in(tiles, w, rr, cc) == TileState::REVEALED(
                mine_count_at(w, h, mines, rr, cc) as i8,
            ) && in_region(w, h, mines, s, (rr as usize, cc as usize))),
{
    assert forall|rr: int, cc: int| in_bounds(w, h, rr, cc) implies #[trigger] tile_in(
        tiles,
        w,
        rr,
        cc,
    ) == tile_in(pre, w, rr, cc) || (!mines.contains((rr as usize, cc as usize)) && !is_revealed(
        tile_in(pre, w, rr, cc),
    ) && tile_in(tiles, w, rr, cc) == TileState::REVEALED(
        mine_count_at(w, h, mines, rr, cc) as i8,
    ) && in_region(w, h, mines, s, (rr as usize, cc as usize))) by {
        if tile_in(tiles, w, rr, cc) != tile_in(pre, w, rr, cc) {
            if rr == popped.0 as int && cc == popped.1 as int {
                assert((rr as usize, cc as usize) == popped);
                if is_revealed(tile_in(pre, w, rr, cc)) {
                    assert(tile_in(tiles_at_pop, w, rr, cc) == tile_in(pre, w, rr, cc)
                        || !is_revealed(tile_in(pre, w, rr, cc)));
                    assert(tile_in(tiles_at_pop, w, rr, cc) == tile_in(pre, w, rr, cc));
                    assert(tile_in(tiles, w, rr, cc) == tile_in(tiles_at_pop, w, rr, cc));
                    assert(false);
                }
            } else {
                assert(tile_in(tiles, w, rr, cc) == tile_in(tiles_at_pop, w, rr, cc));
            }
        }
    }
}

/// After a zero cell `popped` is taken off the worklist and its unseen
/// neighbors are marked and appended, the frontier properties are restored:
/// seen zero cells off the worklist have all neighbors seen, and seen safe
/// cells off the worklist are revealed.
#[verifier::spinoff_prover]
proof fn lemma_after_push_frontier(
    w: int,
    h: int,
    mines: Seq<(usize, usize)>,
    s: (usize, usize),
    tiles: Seq<TileState>,
    tiles_at_pop: Seq<TileState>,
    q_at_start: Seq<(usize, usize)>,
    q_before: Seq<(usize, usize)>,
    queue_now: Seq<(usize, usize)>,
    vs_before: Seq<bool>,
    vs_now: Seq<bool>,
    popped: (usize, usize),
)
    requires
        w <= usize::MAX,
        h <= usize::MAX,
        w * h <= usize::MAX,
        q_at_start.len() > 0,
        popped == q_at_start.last(),
        q_before == q_at_start.take(q_at_start.len() - 1),
        in_bounds(w, h, popped.0 as int, popped.1 as int),
        is_revealed(tile_in(tiles, w, popped.0 as int, popped.1 as int)),
        zero_cell(w, h, mines, popped),
        zero_reachable(w, h, mines, s, popped),
        forall|k: int|
            0 <= k < q_at_start.len() ==> {
                let x = #[trigger] q_at_start[k];
                &&& in_bounds(w, h, x.0 as int, x.1 as int)
                &&& vis_at(vs_before, w, x)
                &&& !mines.contains(x)
                &&& (x == s || exists|z: (usize, usize)|
                    #[trigger] zero_reachable(w, h, mines, s, z) && crate::grid::adjacent_cells(
                        z,
                        x,
                    ))
            },
        forall|k: int|
            q_before.len() <= k < queue_now.len() ==> {
                let q = #[trigger] queue_now[k];
                &&& in_bounds(w, h, q.0 as int, q.1 as int)
                &&& adjacent(q.0 as int, q.1 as int, popped.0 as int, popped.1 as int)
                &&& !vis_at(vs_before, w, q)
            },
        forall|v: (usize, usize), q: (usize, usize)|
            #![trigger vis_at(vs_before, w, v), vis_at(vs_before, w, q)]
            in_bounds(w, h, v.0 as int, v.1 as int) && in_bounds(w, h, q.0 as int, q.1 as int)
                && vis_at(vs_before, w, v) && !q_at_start.contains(v) && zero_cell(w, h, mines, v)
                && crate::grid::adjacent_cells(v, q) ==> vis_at(vs_before, w, q),
        forall|v: (usize, usize)|
            in_bounds(w, h, v.0 as int, v.1 as int) && #[trigger] vis_at(vs_before, w, v)
                && !q_at_start.contains(v) && !mines.contains(v) ==> is_revealed(
                tile_in(tiles_at_pop, w, v.0 as int, v.1 as int),
            ),
        forall|rr: int, cc: int|
            in_bounds(w, h, rr, cc) ==> #[trigger] tile_in(tiles, w, rr, cc) == tile_in(
                tiles_at_pop,
                w,
                rr,
                cc,
            ) || (rr == popped.0 as int && cc == popped.1 as int),
        vs_before.len() == w * h,
        vs_now.len() == vs_before.len(),
        forall|q: (usize, usize)|
            in_bounds(w, h, q.0 as int, q.1 as int) ==> (vis_at(vs_now, w, q) <==> (vis_at(
                vs_before,
                w,
                q,
            ) || adjacent(q.0 as int, q.1 as int, popped.0 as int, popped.1 as int))),
        queue_now.len() >= q_before.len(),
        queue_now.take(q_before.len() as int) == q_before,
        forall|q: (usize, usize)|
            in_bounds(w, h, q.0 as int, q.1 as int) && !vis_at(vs_before, w, q)
                && #[trigger] vis_at(vs_now, w, q) ==> exists|k: int|
                q_before.len() <= k < queue_now.len() && #[trigger] queue_now[k] == q,
    ensures
        forall|v: (usize, usize), q: (usize, usize)|
            #![trigger vis_at(vs_now, w, v), vis_at(vs_now, w, q)]
            in_bounds(w, h, v.0 as int, v.1 as int) && in_bounds(w, h, q.0 as int, q.1 as int)
                && vis_at(vs_now, w, v) && !queue_now.contains(v) && zero_cell(w, h, mines, v)
                && crate::grid::adjacent_cells(v, q) ==> vis_at(vs_now, w, q),
        forall|v: (usize, usize)|
            in_bounds(w, h, v.0 as int, v.1 as int) && #[trigger] vis_at(vs_now, w, v)
                && !queue_now.contains(v) && !mines.contains(v) ==> is_revealed(
                tile_in(tiles, w, v.0 as int, v.1 as int),
            ),
        forall|k: int|
            0 <= k < queue_now.len() ==> {
                let x = #[trigger] queue_now[k];
                &&& in_bounds(w, h, x.0 as int, x.1 as int)
                &&& vis_at(vs_now, w, x)
                &&& !mines.contains(x)
                &&& (x == s || exists|z: (usize, usize)|
                    #[trigger] zero_reachable(w, h, mines, s, z) && crate::grid::adjacent_cells(
                        z,
                        x,
                    ))
            },
{
    assert forall|k: int| 0 <= k < queue_now.len() implies {
        let x = #[trigger] queue_now[k];
        &&& in_bounds(w, h, x.0 as int, x.1 as int)
        &&& vis_at(vs_now, w, x)
        &&& !mines.contains(x)
        &&& (x == s || exists|z: (usize, usize)|
            #[trigger] zero_reachable(w, h, mines, s, z) && crate::grid::adjacent_cells(z, x))
    } by {
        let x = queue_now[k];
        if k < q_before.len() {
            assert(queue_now.take(q_before.len() as int)[k] == x);
            assert(q_before[k] == x);
            assert(q_at_start[k] == x);
            assert(q_at_start.contains(q_at_start[k]));
            assert(vis_at(vs_before, w, x));
            assert(vis_at(vs_now, w, x));
        } else {
            assert(crate::grid::adjacent_cells(popped, x));
            lemma_zero_cell_neighbor_not_mine(w, h, mines, popped, x);
            assert(vis_at(vs_now, w, x));
            assert(zero_reachable(w, h, mines, s, popped) && crate::grid::adjacent_cells(
                popped,
                x,
            ));
        }
    }
    assert forall|v: (usize, usize), q: (usize, usize)|
        #![trigger vis_at(vs_now, w, v), vis_at(vs_now, w, q)]
        in_bounds(w, h, v.0 as int, v.1 as int) && in_bounds(w, h, q.0 as int, q.1 as int)
            && vis_at(vs_now, w, v) && !queue_now.contains(v) && zero_cell(w, h, mines, v)
            && crate::grid::adjacent_cells(v, q) implies vis_at(vs_now, w, q) by {
        if v == popped {
            assert(adjacent(q.0 as int, q.1 as int, popped.0 as int, popped.1 as int));
        } else if vis_at(vs_before, w, v) {
            if q_before.contains(v) {
                let k = choose|k: int| 0 <= k < q_before.len() && q_before[k] == v;
                assert(queue_now.take(q_before.len() as int)[k] == v);
                assert(queue_now.contains(queue_now[k]));
                assert(false);
            } else {
                assert(!q_at_start.contains(v)) by {
                    if q_at_start.contains(v) {
                        let k2 = choose|k2: int|
                            0 <= k2 < q_at_start.len() && q_at_start[k2] == v;
                        if k2 < q_at_start.len() - 1 {
                            assert(q_before[k2] == v);
                            assert(q_before.contains(v));
                            assert(false);
                        } else {
                            assert(v == popped);
                            assert(false);
                        }
                    }
                }
                assert(vis_at(vs_before, w, q));
                assert(vis_at(vs_now, w, q));
            }
        } else {
            let k = choose|k: int|
                q_before.len() <= k < queue_now.len() && #[trigger] queue_now[k] == v;
            assert(queue_now.contains(queue_now[k]));
            assert(false);
        }
    }
    assert forall|v: (usize, usize)|
        in_bounds(w, h, v.0 as int, v.1 as int) && #[trigger] vis_at(vs_now, w, v)
            && !queue_now.contains(v) && !mines.contains(v) implies is_revealed(
        tile_in(tiles, w, v.0 as int, v.1 as int),
    ) by {
        if v == popped {
        } else if vis_at(vs_before, w, v) {
            if q_before.contains(v) {
                let k = choose|k: int| 0 <= k < q_before.len() && q_before[k] == v;
                assert(queue_now.take(q_before.len() as int)[k] == v);
                assert(queue_now.contains(queue_now[k]));
                assert(false);
            } else {
                assert(!q_at_start.contains(v)) by {
                    if q_at_start.contains(v) {
                        let k2 = choose|k2: int|
                            0 <= k2 < q_at_start.len() && q_at_start[k2] == v;
                        if k2 < q_at_start.len() - 1 {
                            assert(q_before[k2] == v);
                            assert(q_before.contains(v));
                            assert(false);
                        } else {
                            assert(v == popped);
                            assert(false);
                        }
                    }
                }
                assert(is_revealed(tile_in(tiles_at_pop, w, v.0 as int, v.1 as int)));
                assert(tile_in(tiles, w, v.0 as int, v.1 as int) == tile_in(
                    tiles_at_pop,
                    w,
                    v.0 as int,
                    v.1 as int,
                ));
            }
        } else {
            let k = choose|k: int|
                q_before.len() <= k < queue_now.len() && #[trigger] queue_now[k] == v;
            assert(queue_now.contains(queue_now[k]));
            assert(false);
        }
    }
}

/// After a cell with a positive count (or an already revealed cell) is taken
/// off the worklist without spreading, the frontier properties still hold.
#[verifier::spinoff_prover]
proof fn lemma_after_skip_frontier(
    w: int,
    h: int,
    mines: Seq<(usize, usize)>,
    s: (usize, usize),
    tiles: Seq<TileState>,
    tiles_at_pop: Seq<TileState>,
    q_at_start: Seq<(usize, usize)>,
    q_now: Seq<(usize, usize)>,
    vs: Seq<bool>,
    popped: (usize, usize),
)
    requires
        q_at_start.len() > 0,
        popped == q_at_start.last(),
        q_now == q_at_start.take(q_at_start.len() - 1),
        in_bounds(w, h, popped.0 as int, popped.1 as int),
        !zero_cell(w, h, mines, popped),
        is_revealed(tile_in(tiles, w, popped.0 as int, popped.1 as int)),
        forall|rr: int, cc: int|
            in_bounds(w, h, rr, cc) ==> #[trigger] tile_in(tiles, w, rr, cc) == tile_in(
                tiles_at_pop,
                w,
                rr,
                cc,
            ) || (rr == popped.0 as int && cc == popped.1 as int),
        forall|v: (usize, usize), q: (usize, usize)|
            #![trigger vis_at(vs, w, v), vis_at(vs, w, q)]
            in_bounds(w, h, v.0 as int, v.1 as int) && in_bounds(w, h, q.0 as int, q.1 as int)
                && vis_at(vs, w, v) && !q_at_start.contains(v) && zero_cell(w, h, mines, v)
                && crate::grid::adjacent_cells(v, q) ==> vis_at(vs, w, q),
        forall|v: (usize, usize)|
            in_bounds(w, h, v.0 as int, v.1 as int) && #[trigger] vis_at(vs, w, v)
                && !q_at_start.contains(v) && !mines.contains(v) ==> is_revealed(
                tile_in(tiles_at_pop, w, v.0 as int, v.1 as int),
            ),
    ensures
        forall|v: (usize, usize), q: (usize, usize)|
            #![trigger vis_at(vs, w, v), vis_at(vs, w, q)]
            in_bounds(w, h, v.0 as int, v.1 as int) && in_bounds(w, h, q.0 as int, q.1 as int)
                && vis_at(vs, w, v) && !q_now.contains(v) && zero_cell(w, h, mines, v)
                && crate::grid::adjacent_cells(v, q) ==> vis_at(vs, w, q),
        forall|v: (usize, usize)|
            in_bounds(w, h, v.0 as int, v.1 as int) && #[trigger] vis_at(vs, w, v)
                && !q_now.contains(v) && !mines.contains(v) ==> is_revealed(
                tile_in(tiles, w, v.0 as int, v.1 as int),
            ),
{
    assert forall|v: (usize, usize), q: (usize, usize)|
        #![trigger vis_at(vs, w, v), vis_at(vs, w, q)]
        in_bounds(w, h, v.0 as int, v.1 as int) && in_bounds(w, h, q.0 as int, q.1 as int)
            && vis_at(vs, w, v) && !q_now.contains(v) && zero_cell(w, h, mines, v)
            && crate::grid::adjacent_cells(v, q) implies vis_at(vs, w, q) by {
        if v != popped {
            if q_at_start.contains(v) {
                let k = choose|k: int| 0 <= k < q_at_start.len() && q_at_start[k] == v;
                if k < q_at_start.len() - 1 {
                    assert(q_now[k] == v);
                    assert(q_now.contains(q_now[k]));
                    assert(false);
                }
            }
        }
    }
    assert forall|v: (usize, usize)|
        in_bounds(w, h, v.0 as int, v.1 as int) && #[trigger] vis_at(vs, w, v)
            && !q_now.contains(v) && !mines.contains(v) implies is_revealed(
        tile_in(tiles, w, v.0 as int, v.1 as int),
    ) by {
        if v != popped {
            if q_at_start.contains(v) {
                let k = choose|k: int| 0 <= k < q_at_start.len() && q_at_start[k] == v;
                if k < q_at_start.len() - 1 {
                    assert(q_now[k] == v);
                    assert(q_now.contains(q_now[k]));
                    assert(false);
                }
            }
            assert(tile_in(tiles, w, v.0 as int, v.1 as int) == tile_in(
                tiles_at_pop,
                w,
                v.0 as int,
                v.1 as int,
            ) || is_revealed(tile_in(tiles, w, v.0 as int, v.1 as int)));
        }
    }
}

/// At the end of flood expansion, with the worklist empty, the visit map
/// closed under zero-cell adjacency, and every visited safe cell revealed,
/// the tiles are exactly the reveal of the region around `s`, and the
/// zero-region closure holds of the whole board.
proof fn lemma_expand_exit(
    w: int,
    h: int,
    mines: Seq<(usize, usize)>,
    pre: Seq<TileState>,
    tiles: Seq<TileState>,
    vsf: Seq<bool>,
    s: (usize, usize),
)
    requires
        w <= usize::MAX,
        h <= usize::MAX,
        in_bounds(w, h, s.0 as int, s.1 as int),
        !mines.contains(s),
        counts_ok(w, h, mines, tiles),
        zero_closure_except(w, h, mines, pre, s.0 as int, s.1 as int),
        forall|rr: int, cc: int|
            in_bounds(w, h, rr, cc) ==> #[trigger] tile_in(tiles, w, rr, cc) == tile_in(
                pre,
                w,
                rr,
                cc,
            ) || (!mines.contains((rr as usize, cc as usize)) && !is_revealed(
                tile_in(pre, w, rr, cc),
            ) && tile_in(tiles, w, rr, cc) == TileState::REVEALED(
                mine_count_at(w, h, mines, rr, cc) as i8,
            ) && in_region(w, h, mines, s, (rr as usize, cc as usize))),
        forall|v: (usize, usize), q: (usize, usize)|
            #![trigger vis_at(vsf, w, v), vis_at(vsf, w, q)]
            in_bounds(w, h, v.0 as int, v.1 as int) && in_bounds(w, h, q.0 as int, q.1 as int)
                && vis_at(vsf, w, v) && zero_cell(w, h, mines, v) && crate::grid::adjacent_cells(
                v,
                q,
            ) ==> vis_at(vsf, w, q),
        forall|v: (usize, usize)|
            in_bounds(w, h, v.0 as int, v.1 as int) && #[trigger] vis_at(vsf, w, v)
                && !mines.contains(v) ==> is_revealed(tile_in(tiles, w, v.0 as int, v.1 as int)),
        vis_at(vsf, w, s),
        tile_in(tiles, w, s.0 as int, s.1 as int) == TileState::REVEALED(
            mine_count_at(w, h, mines, s.0 as int, s.1 as int) as i8,
        ),
    ensures
        forall|rr: int, cc: int|
            in_bounds(w, h, rr, cc) ==> #[trigger] tile_in(tiles, w, rr, cc) == if in_region(
                w,
                h,
                mines,
                s,
                (rr as usize, cc as usize),
            ) {
                TileState::REVEALED(mine_count_at(w, h, mines, rr, cc) as i8)
            } else {
                tile_in(pre, w, rr, cc)
            },
        zero_closure(w, h, mines, tiles),
{
    let pred = |z: (usize, usize)| in_bounds(w, h, z.0 as int, z.1 as int) && vis_at(vsf, w, z);
    assert(pred(s));
    assert forall|z: (usize, usize), p: (usize, usize)|
        pred(z) && zero_cell(w, h, mines, z) && #[trigger] crate::grid::adjacent_cells(z, p)
            && in_bounds(w, h, p.0 as int, p.1 as int) implies pred(p) by {
        assert(vis_at(vsf, w, z));
        assert(vis_at(vsf, w, p));
    }
    lemma_zero_reachable_closed(w, h, mines, s, pred);
    assert forall|rr: int, cc: int| in_bounds(w, h, rr, cc) implies #[trigger] tile_in(
        tiles,
        w,
        rr,
        cc,
    ) == if in_region(w, h, mines, s, (rr as usize, cc as usize)) {
        TileState::REVEALED(mine_count_at(w, h, mines, rr, cc) as i8)
    } else {
        tile_in(pre, w, rr, cc)
    } by {
        let q = (rr as usize, cc as usize);
        if in_region(w, h, mines, s, q) {
            if q == s {
            } else {
                let z = choose|z: (usize, usize)|
                    #[trigger] zero_reachable(w, h, mines, s, z) && crate::grid::adjacent_cells(
                        z,
                        q,
                    );
                assert(pred(z));
                lemma_zero_reachable_ends(w, h, mines, s, z);
                assert(vis_at(vsf, w, q));
                lemma_zero_cell_neighbor_not_mine(w, h, mines, z, q);
                assert(is_revealed(tile_in(tiles, w, rr, cc)));
                lemma_count_mines_in_bounds(mines, neighbor_seq(w, h, rr, cc));
                match tile_in(tiles, w, rr, cc) {
                    TileState::REVEALED(n) => {
                        assert(n as int == mine_count_at(w, h, mines, rr, cc));
                    },
                    TileState::HIDDEN(_) => {},
                }
            }
        } else {
            assert(tile_in(tiles, w, rr, cc) == tile_in(pre, w, rr, cc));
        }
    }
    assert forall|r0: int, c0: int, rr: int, cc: int|
        #![trigger tile_in(tiles, w, r0, c0), tile_in(tiles, w, rr, cc)]
        in_bounds(w, h, r0, c0) && in_bounds(w, h, rr, cc) && tile_in(tiles, w, r0, c0)
            == TileState::REVEALED(0) && adjacent(r0, c0, rr, cc) implies mines.contains(
        (rr as usize, cc as usize),
    ) || is_revealed(tile_in(tiles, w, rr, cc)) by {
        let v = (r0 as usize, c0 as usize);
        let q = (rr as usize, cc as usize);
        if !mines.contains(q) {
            assert(zero_cell(w, h, mines, v)) by {
                assert(!mines.contains(v) && mine_count_at(w, h, mines, r0, c0) == 0);
            }
            if v != s && tile_in(pre, w, r0, c0) == tile_in(tiles, w, r0, c0) {
                assert(mines.contains(q) || is_revealed(tile_in(pre, w, rr, cc)));
                assert(tile_in(tiles, w, rr, cc) == tile_in(pre, w, rr, cc) || is_revealed(
                    tile_in(tiles, w, rr, cc),
                ));
            } else {
                assert(zero_reachable(w, h, mines, s, v)) by {
                    if v == s {
                        lemma_zero_reachable_self(w, h, mines, s);
                    } else {
                        assert(in_region(w, h, mines, s, v));
                        let z = choose|z: (usize, usize)|
                            #[trigger] zero_reachable(w, h, mines, s, z)
                                && crate::grid::adjacent_cells(z, v);
                        lemma_zero_reachable_step(w, h, mines, s, z, v);
                    }
                }
                assert(pred(v));
                assert(vis_at(vsf, w, q)) by {
                    assert(crate::grid::adjacent_cells(v, q));
                }
                assert(is_revealed(tile_in(tiles, w, rr, cc)));
            }
        }
    }
}

/// Whether the worklist has already seen cell `p`, in a row-major visit map.
spec fn vis_at(vs: Seq<bool>, width: int, p: (usize, usize)) -> bool {
    vs[p.0 * width + p.1]
}

/// The number of cells the worklist has not seen yet.
spec fn count_false(vs: Seq<bool>) -> int
    decreases vs.len(),
{
    if vs.len() == 0 {
        0
    } else {
        count_false(vs.drop_last()) + if vs.last() {
            0int
        } else {
            1int
        }
    }
}

proof fn lemma_count_false_nonneg(vs: Seq<bool>)
    ensures
        0 <= count_false(vs) <= vs.len(),
    decreases vs.len(),
{
    if vs.len() > 0 {
        lemma_count_false_nonneg(vs.drop_last());
    }
}

proof fn lemma_count_false_update(vs: Seq<bool>, i: int)
    requires
        0 <= i < vs.len(),
        !vs[i],
    ensures
        count_false(vs.update(i, true)) == count_false(vs) - 1,
    decreases vs.len(),
{
    let u = vs.update(i, true);
    if i == vs.len() - 1 {
        assert(u.drop_last() =~= vs.drop_last());
    } else {
        assert(u.drop_last() =~= vs.drop_last().update(i, true));
        assert(u.last() == vs.last());
        lemma_count_false_update(vs.drop_last(), i);
    }
}

/// A visit map with no cell seen.
fn make_unvisited(n: usize) -> (v: Vec<bool>)
    ensures
        v@.len() == n,
        forall|i: int| 0 <= i < n ==> !(#[trigger] v@[i]),
        count_false(v@) == n,
{
    let mut v: Vec<bool> = Vec::new();
    let mut i: usize = 0;
    while i < n
        invariant
            i <= n,
            v@.len() == i,
            forall|j: int| 0 <= j < i ==> !(#[trigger] v@[j]),
            count_false(v@) == i,
        decreases n - i,
    {
        let ghost oldv = v@;
        v.push(false);
        proof {
            assert(v@.drop_last() =~= oldv);
        }
        i += 1;
    }
    v
}

/// Relies on itertools' `cartesian_product` over two integer ranges: it
/// yields every pair of one value from the first range and one from the
/// second, each pair exactly once.
#[verifier::external_body]
fn grid_cells(rows: usize, cols: usize) -> (v: Vec<(usize, usize)>)
    requires
        rows * cols <= usize::MAX,
    ensures
        v@.len() == rows * cols,
        v@.no_duplicates(),
        forall|p: (usize, usize)| #[trigger] v@.contains(p) <==> (p.0 < rows && p.1 < cols),
{
    (0..rows).cartesian_product(0..cols).collect()
}

/// Relies on rand's `SliceRandom::shuffle` with the thread-local generator:
/// it permutes the slice in place, so whatever order comes out holds exactly
/// the elements that went in.
#[verifier::external_body]
fn shuffle_cells(v: &mut Vec<(usize, usize)>)
    ensures
        final(v)@.to_multiset() == old(v)@.to_multiset(),
{
    v.shuffle(&mut rand::rng());
}


/// The operations of a minesweeper board.
pub trait Board: Sized {
    /// The board's invariant.
    spec fn inv(&self) -> bool;

    /// The grid's width.
    spec fn spec_width(&self) -> int;

    /// The grid's height.
    spec fn spec_height(&self) -> int;

    /// The configured number of mines.
    spec fn spec_mines_count(&self) -> int;

    /// The mine cells, empty until the first reveal places them.
    spec fn mines_view(&self) -> Seq<(usize, usize)>;

    /// The tiles, row by row.
    spec fn tiles_view(&self) -> Seq<TileState>;

    /// Reveal the cell at row `r`, column `c`. The first accepted reveal
    /// places the mines, sparing `(r, c)`; revealing a mine uncovers only
    /// that cell; revealing a safe cell uncovers exactly the region that
    /// `in_region` describes, every tile with its exact adjacent-mine count.
    fn reveal_tile(&mut self, r: usize, c: usize) -> (res: Result<(), RevealError>)
        requires
            old(self).inv(),
        ensures
            final(self).inv(),
            final(self).spec_width() == old(self).spec_width(),
            final(self).spec_height() == old(self).spec_height(),
            final(self).spec_mines_count() == old(self).spec_mines_count(),
            match res {
                Ok(()) => in_bounds(
                    old(self).spec_width(),
                    old(self).spec_height(),
                    r as int,
                    c as int,
                ) && reveal_post(
                    old(self).spec_width(),
                    old(self).spec_height(),
                    old(self).spec_mines_count(),
                    old(self).mines_view(),
                    old(self).tiles_view(),
                    final(self).mines_view(),
                    final(self).tiles_view(),
                    r as int,
                    c as int,
                ),
                Err(e) => e == RevealError::OutOfRangeCoordinate && !in_bounds(
                    old(self).spec_width(),
                    old(self).spec_height(),
                    r as int,
                    c as int,
                ) && *final(self) == *old(self),
            },
    ;

    /// The grid's width.
    fn get_width(&self) -> (wd: usize)
        requires
            self.inv(),
        ensures
            wd as int == self.spec_width(),
    ;

    /// The grid's height.
    fn get_height(&self) -> (ht: usize)
        requires
            self.inv(),
        ensures
            ht as int == self.spec_height(),
    ;

    /// A snapshot of the grid for display: one row of characters per grid
    /// row, each tile drawn by `tile_char`.
    fn render(&self) -> (rows: Vec<Vec<char>>)
        requires
            self.inv(),
        ensures
            rows@.len() == self.spec_height(),
            forall|i: int|
                0 <= i < self.spec_height() ==> (#[trigger] rows@[i])@.len() == self.spec_width(),
            forall|i: int, j: int|
                in_bounds(self.spec_width(), self.spec_height(), i, j) ==> #[trigger] rows@[i]@[j]
                    == tile_char(tile_in(self.tiles_view(), self.spec_width(), i, j)),
    ;
}

impl Board for BoardImpl {
    closed spec fn inv(&self) -> bool {
        self.wf()
    }

    closed spec fn spec_width(&self) -> int {
        self.grid_w()
    }

    closed spec fn spec_height(&self) -> int {
        self.grid_h()
    }

    closed spec fn spec_mines_count(&self) -> int {
        self.mine_quota()
    }

    closed spec fn mines_view(&self) -> Seq<(usize, usize)> {
        self.mines_seq()
    }

    closed spec fn tiles_view(&self) -> Seq<TileState> {
        self.tiles_seq()
    }

    fn reveal_tile(&mut self, r: usize, c: usize) -> (res: Result<(), RevealError>) {
        let ghost w = self.grid_w();
        let ghost h = self.grid_h();
        let ghost pre_mines = self.mines@;
        let ghost pre_tiles = self.tiles@;
        if r >= self.height || c >= self.width {
            return Err(RevealError::OutOfRangeCoordinate);
        }
        if self.mines.len() == 0 {
            self.setup_mines(r, c);
        }
        let ghost mines = self.mines@;
        proof {
            lemma_cell_index_bound(w, h, r as int, c as int);
            assert(self.mines@.len() == 0 ==> self.mines_count == 0);
        }
        if self.mines_contains(r, c) {
            let ti = self.cell_index(r, c);
            let ghost before = self.tiles@;
            self.tiles.set(ti, TileState::REVEALED(-1));
            proof {
                assert forall|rr: int, cc: int|
                    in_bounds(w, h, rr, cc) && !(rr == r as int && cc == c as int) implies
                    #[trigger] tile_in(self.tiles@, w, rr, cc) == tile_in(before, w, rr, cc) by {
                    lemma_cell_index_bound(w, h, rr, cc);
                    if rr * w + cc == r as int * w + c as int {
                        lemma_cell_index_injective(w, h, rr, cc, r as int, c as int);
                    } else {
                        assert(self.tiles@[rr * w + cc] == before[rr * w + cc]);
                    }
                }
                assert(tile_in(self.tiles@, w, r as int, c as int) == TileState::REVEALED(-1i8));
                assert forall|rr: int, cc: int| in_bounds(w, h, rr, cc) implies revealed_value_ok(
                    w,
                    h,
                    mines,
                    rr,
                    cc,
                    #[trigger] tile_in(self.tiles@, w, rr, cc),
                ) by {
                    if !(rr == r as int && cc == c as int) {
                        assert(tile_in(self.tiles@, w, rr, cc) == tile_in(before, w, rr, cc));
                    }
                }
                assert forall|r0: int, c0: int, rr: int, cc: int|
                    #![trigger tile_in(self.tiles@, w, r0, c0), tile_in(self.tiles@, w, rr, cc)]
                    in_bounds(w, h, r0, c0) && in_bounds(w, h, rr, cc) && tile_in(
                        self.tiles@,
                        w,
                        r0,
                        c0,
                    ) == TileState::REVEALED(0) && adjacent(r0, c0, rr, cc) implies mines.contains(
                    (rr as usize, cc as usize),
                ) || is_revealed(tile_in(self.tiles@, w, rr, cc)) by {
                    assert(!(r0 == r as int && c0 == c as int));
                    assert(tile_in(self.tiles@, w, r0, c0) == tile_in(before, w, r0, c0));
                    assert(mines.contains((rr as usize, cc as usize)) || is_revealed(
                        tile_in(before, w, rr, cc),
                    ));
                    if !(rr == r as int && cc == c as int) {
                        assert(tile_in(self.tiles@, w, rr, cc) == tile_in(before, w, rr, cc));
                    }
                }
                assert(self.tiles@ == pre_tiles.update(
                    r as int * w + c as int,
                    TileState::REVEALED(-1i8),
                ));
            }
            return Ok(());
        }
        let n = self.num_neighbor_mines(r, c);
        let ti = self.cell_index(r, c);
        let ghost before = self.tiles@;
        self.tiles.set(ti, TileState::REVEALED(n as i8));
        proof {
            lemma_count_mines_in_bounds(mines, neighbor_seq(w, h, r as int, c as int));
            assert(tile_in(self.tiles@, w, r as int, c as int) == TileState::REVEALED(
                mine_count_at(w, h, mines, r as int, c as int) as i8,
            ));
            assert forall|rr: int, cc: int|
                in_bounds(w, h, rr, cc) && !(rr == r as int && cc == c as int) implies #[trigger] tile_in(
                self.tiles@,
                w,
                rr,
                cc,
            ) == tile_in(before, w, rr, cc) by {
                lemma_cell_index_bound(w, h, rr, cc);
                if rr * w + cc == r as int * w + c as int {
                    lemma_cell_index_injective(w, h, rr, cc, r as int, c as int);
                } else {
                    assert(self.tiles@[rr * w + cc] == before[rr * w + cc]);
                }
            }
            assert forall|rr: int, cc: int| in_bounds(w, h, rr, cc) implies revealed_value_ok(
                w,
                h,
                mines,
                rr,
                cc,
                #[trigger] tile_in(self.tiles@, w, rr, cc),
            ) by {
                if !(rr == r as int && cc == c as int) {
                    assert(tile_in(self.tiles@, w, rr, cc) == tile_in(before, w, rr, cc));
                }
            }
            assert forall|r0: int, c0: int, rr: int, cc: int|
                #![trigger tile_in(self.tiles@, w, r0, c0), tile_in(self.tiles@, w, rr, cc)]
                in_bounds(w, h, r0, c0) && in_bounds(w, h, rr, cc) && !(r0 == r as int && c0
                    == c as int) && tile_in(self.tiles@, w, r0, c0) == TileState::REVEALED(0)
                    && adjacent(r0, c0, rr, cc) implies mines.contains((rr as usize, cc as usize))
                || is_revealed(tile_in(self.tiles@, w, rr, cc)) by {
                assert(tile_in(self.tiles@, w, r0, c0) == tile_in(before, w, r0, c0));
                assert(mines.contains((rr as usize, cc as usize)) || is_revealed(
                    tile_in(before, w, rr, cc),
                ));
                if !(rr == r as int && cc == c as int) {
                    assert(tile_in(self.tiles@, w, rr, cc) == tile_in(before, w, rr, cc));
                }
            }
        }
        self.expand_revealed_tile(r, c);
        proof {
            assert(!mines.contains((r, c)));
            assert forall|rr: int, cc: int| in_bounds(w, h, rr, cc) implies #[trigger] tile_in(
                self.tiles@,
                w,
                rr,
                cc,
            ) == if in_region(w, h, mines, (r, c), (rr as usize, cc as usize)) {
                TileState::REVEALED(mine_count_at(w, h, mines, rr, cc) as i8)
            } else {
                tile_in(pre_tiles, w, rr, cc)
            } by {
                if !in_region(w, h, mines, (r, c), (rr as usize, cc as usize)) {
                    assert(!(rr == r as int && cc == c as int));
                    assert(tile_in(self.tiles@, w, rr, cc) == tile_in(before, w, rr, cc));
                    assert(tile_in(before, w, rr, cc) == tile_in(pre_tiles, w, rr, cc));
                }
            }
        }
        Ok(())
    }

    fn get_width(&self) -> (wd: usize) {
        self.width
    }

    fn get_height(&self) -> (ht: usize) {
        self.height
    }

    fn render(&self) -> (rows: Vec<Vec<char>>) {
        let mut rows: Vec<Vec<char>> = Vec::new();
        let mut i: usize = 0;
        while i < self.height
            invariant
                self.inv(),
                i <= self.height,
                rows@.len() == i,
                forall|a: int| 0 <= a < i ==> (#[trigger] rows@[a])@.len() == self.spec_width(),
                forall|a: int, b: int|
                    in_bounds(self.spec_width(), self.spec_height(), a, b) && a < i
                        ==> #[trigger] rows@[a]@[b] == tile_char(
                        tile_in(self.tiles_view(), self.spec_width(), a, b),
                    ),
            decreases self.height - i,
        {
            let mut row: Vec<char> = Vec::new();
            let mut j: usize = 0;
            while j < self.width
                invariant
                    self.inv(),
                    i < self.height,
                    j <= self.width,
                    row@.len() == j,
                    forall|b: int|
                        0 <= b < j ==> #[trigger] row@[b] == tile_char(
                            tile_in(self.tiles_view(), self.spec_width(), i as int, b),
                        ),
                decreases self.width - j,
            {
                proof {
                    lemma_cell_index_bound(
                        self.width as int,
                        self.height as int,
                        i as int,
                        j as int,
                    );
                }
                let t = self.tiles[i * self.width + j];
                let ch: char = match t {
                    TileState::HIDDEN(_) => '#',
                    TileState::REVEALED(m) => if m == -1 {
                        '*'
                    } else if m == 0 {
                        ' '
                    } else if m == 1 {
                        '1'
                    } else if m == 2 {
                        '2'
                    } else if m == 3 {
                        '3'
                    } else if m == 4 {
                        '4'
                    } else if m == 5 {
                        '5'
                    } else if m == 6 {
                        '6'
                    } else if m == 7 {
                        '7'
                    } else if m == 8 {
                        '8'
                    } else {
                        '?'
                    },
                };
                row.push(ch);
                j += 1;
            }
            rows.push(row);
            i += 1;
        }
        rows
    }
}

/// Make a board of `width x height` hidden, unflagged tiles with no mines
/// placed yet. Fails exactly when the requested mine count does not leave a
/// safe cell.
pub fn new(width: usize, height: usize, mines_count: usize) -> (res: Result<
    BoardImpl,
    ConstructionError,
>)
    requires
        width * height <= usize::MAX,
    ensures
        match res {
            Ok(b) => {
                &&& (mines_count as int) < width * height
                &&& b.wf()
                &&& b.grid_w() == width
                &&& b.grid_h() == height
                &&& b.mine_quota() == mines_count
                &&& b.mines_seq().len() == 0
                &&& b.tiles_seq().len() == width * height
                &&& forall|i: int|
                    0 <= i < b.tiles_seq().len() ==> #[trigger] b.tiles_seq()[i]
                        == TileState::HIDDEN(false)
            },
            Err(e) => e == ConstructionError::InvalidConfiguration && mines_count >= width
                * height,
        },
{
    if mines_count >= width * height {
        return Err(ConstructionError::InvalidConfiguration);
    }
    let total = width * height;
    let mut tiles: Vec<TileState> = Vec::new();
    let mut i: usize = 0;
    while i < total
        invariant
            i <= total,
            tiles@.len() == i,
            forall|j: int| 0 <= j < i ==> #[trigger] tiles@[j] == TileState::HIDDEN(false),
        decreases total - i,
    {
        tiles.push(TileState::HIDDEN(false));
        i += 1;
    }
    let board = BoardImpl { width, height, tiles, mines: Vec::new(), mines_count };
    proof {
        assert forall|r: int, c: int|
            in_bounds(width as int, height as int, r, c) implies revealed_value_ok(
            width as int,
            height as int,
            board.mines@,
            r,
            c,
            #[trigger] tile_in(board.tiles@, width as int, r, c),
        ) by {
            lemma_cell_index_bound(width as int, height as int, r, c);
        }
        assert forall|r: int, c: int, rr: int, cc: int|
            in_bounds(width as int, height as int, r, c) && in_bounds(
                width as int,
                height as int,
                rr,
                cc,
            ) && #[trigger] tile_in(board.tiles@, width as int, r, c) == TileState::REVEALED(0)
            && adjacent(r, c, rr, cc) implies board.mines@.contains((rr as usize, cc as usize))
            || is_revealed(#[trigger] tile_in(board.tiles@, width as int, rr, cc)) by {
            lemma_cell_index_bound(width as int, height as int, r, c);
        }
    }
    Ok(board)
}


/// A usable fixed mine layout: fewer mines than cells, no duplicates, every
/// mine on the grid.
pub open spec fn mines_spec_ok(width: int, height: int, mines: Seq<(usize, usize)>) -> bool {
    &&& mines.len() < width * height
    &&& mines.no_duplicates()
    &&& forall|i: int|
        0 <= i < mines.len() ==> in_bounds(
            width,
            height,
            (#[trigger] mines[i]).0 as int,
            mines[i].1 as int,
        )
}

/// Make a board with the mines already placed at the given cells, every tile
/// hidden and unflagged. Fails exactly when the layout is not usable.
pub fn new_with_mines(width: usize, height: usize, mines: Vec<(usize, usize)>) -> (res: Result<
    BoardImpl,
    ConstructionError,
>)
    requires
        width * height <= usize::MAX,
    ensures
        match res {
            Ok(b) => {
                &&& mines_spec_ok(width as int, height as int, mines@)
                &&& b.wf()
                &&& b.grid_w() == width
                &&& b.grid_h() == height
                &&& b.mine_quota() == mines@.len()
                &&& b.mines_seq() == mines@
                &&& b.tiles_seq().len() == width * height
                &&& forall|i: int|
                    0 <= i < b.tiles_seq().len() ==> #[trigger] b.tiles_seq()[i]
                        == TileState::HIDDEN(false)
            },
            Err(e) => e == ConstructionError::InvalidConfiguration && !mines_spec_ok(
                width as int,
                height as int,
                mines@,
            ),
        },
{
    if mines.len() >= width * height {
        return Err(ConstructionError::InvalidConfiguration);
    }
    let mut i: usize = 0;
    while i < mines.len()
        invariant
            i <= mines@.len(),
            forall|a: int|
                0 <= a < i ==> in_bounds(
                    width as int,
                    height as int,
                    (#[trigger] mines@[a]).0 as int,
                    mines@[a].1 as int,
                ),
            forall|a: int, b: int| 0 <= a < b < i ==> #[trigger] mines@[a] != #[trigger] mines@[b],
        decreases mines@.len() - i,
    {
        let m = mines[i];
        if m.0 >= height || m.1 >= width {
            proof {
                assert(mines@[i as int] == m);
            }
            return Err(ConstructionError::InvalidConfiguration);
        }
        let mut j: usize = 0;
        while j < i
            invariant
                j <= i,
                i < mines@.len(),
                mines@[i as int] == m,
                forall|a: int| 0 <= a < j ==> #[trigger] mines@[a] != mines@[i as int],
            decreases i - j,
        {
            let e = mines[j];
            if e.0 == m.0 && e.1 == m.1 {
                proof {
                    assert(mines@[j as int] == mines@[i as int]);
                }
                return Err(ConstructionError::InvalidConfiguration);
            }
            proof {
                assert(mines@[j as int] == e);
                assert(e != m);
            }
            j += 1;
        }
        proof {
            assert(mines@[i as int] == m);
            assert(in_bounds(width as int, height as int, m.0 as int, m.1 as int));
        }
        i += 1;
    }
    proof {
        assert(mines@.no_duplicates()) by {
            assert forall|a: int, b: int|
                0 <= a < mines@.len() && 0 <= b < mines@.len() && a != b implies mines@[a]
                != mines@[b] by {
                if a < b {
                    assert(mines@[a] != mines@[b]);
                } else {
                    assert(mines@[b] != mines@[a]);
                }
            }
        }
    }
    let total = width * height;
    let mut tiles: Vec<TileState> = Vec::new();
    let mut k: usize = 0;
    while k < total
        invariant
            k <= total,
            tiles@.len() == k,
            forall|j: int| 0 <= j < k ==> #[trigger] tiles@[j] == TileState::HIDDEN(false),
        decreases total - k,
    {
        tiles.push(TileState::HIDDEN(false));
        k += 1;
    }
    let quota = mines.len();
    let board = BoardImpl { width, height, tiles, mines, mines_count: quota };
    proof {
        assert forall|r: int, c: int|
            in_bounds(width as int, height as int, r, c) implies revealed_value_ok(
            width as int,
            height as int,
            board.mines@,
            r,
            c,
            #[trigger] tile_in(board.tiles@, width as int, r, c),
        ) by {
            lemma_cell_index_bound(width as int, height as int, r, c);
        }
        assert forall|r: int, c: int, rr: int, cc: int|
            in_bounds(width as int, height as int, r, c) && in_bounds(
                width as int,
                height as int,
                rr,
                cc,
            ) && #[trigger] tile_in(board.tiles@, width as int, r, c) == TileState::REVEALED(0)
            && adjacent(r, c, rr, cc) implies board.mines@.contains((rr as usize, cc as usize))
            || is_revealed(#[trigger] tile_in(board.tiles@, width as int, rr, cc)) by {
            lemma_cell_index_bound(width as int, height as int, r, c);
        }
    }
    Ok(board)
}

/// Count correctness: a tile revealed with a non-negative value is not a
/// mine, and its value is exactly the number of adjacent mines.
pub proof fn lemma_revealed_count_correct(b: BoardImpl, r: usize, c: usize, n: i8)
    requires
        b.wf(),
        in_bounds(b.grid_w(), b.grid_h(), r as int, c as int),
        tile_in(b.tiles_seq(), b.grid_w(), r as int, c as int) == TileState::REVEALED(n),
        n >= 0,
    ensures
        !b.mines_seq().contains((r, c)),
        n as int == mine_count_at(b.grid_w(), b.grid_h(), b.mines_seq(), r as int, c as int),
        neighbor_seq(b.grid_w(), b.grid_h(), r as int, c as int).no_duplicates(),
        forall|p: (usize, usize)|
            #[trigger] neighbor_seq(b.grid_w(), b.grid_h(), r as int, c as int).contains(p) <==> (
            in_bounds(b.grid_w(), b.grid_h(), p.0 as int, p.1 as int) && adjacent(
                p.0 as int,
                p.1 as int,
                r as int,
                c as int,
            )),
{
    crate::grid::lemma_neighbor_seq_no_duplicates(b.grid_w(), b.grid_h(), r as int, c as int);
    lemma_neighbor_seq_contains(b.grid_w(), b.grid_h(), r as int, c as int);
}

/// Zero propagation: every neighbor of a tile revealed as zero is a mine or
/// is itself revealed.
pub proof fn lemma_zero_propagation(b: BoardImpl, r: usize, c: usize)
    requires
        b.wf(),
        in_bounds(b.grid_w(), b.grid_h(), r as int, c as int),
        tile_in(b.tiles_seq(), b.grid_w(), r as int, c as int) == TileState::REVEALED(0),
    ensures
        forall|rr: int, cc: int|
            in_bounds(b.grid_w(), b.grid_h(), rr, cc) && adjacent(r as int, c as int, rr, cc)
                ==> b.mines_seq().contains((rr as usize, cc as usize)) || is_revealed(
                #[trigger] tile_in(b.tiles_seq(), b.grid_w(), rr, cc),
            ),
{
    assert forall|rr: int, cc: int|
        in_bounds(b.grid_w(), b.grid_h(), rr, cc) && adjacent(r as int, c as int, rr, cc) implies
        b.mines_seq().contains((rr as usize, cc as usize)) || is_revealed(
        #[trigger] tile_in(b.tiles_seq(), b.grid_w(), rr, cc),
    ) by {
        assert(tile_in(b.tiles_seq(), b.grid_w(), r as int, c as int) == TileState::REVEALED(0));
    }
}

/// Determinism: once the mines are placed, what one accepted reveal does to
/// the board is a function of the mine layout and the revealed cell alone,
/// not of any traversal order.
pub proof fn lemma_reveal_deterministic(
    w: int,
    h: int,
    quota: int,
    mines0: Seq<(usize, usize)>,
    tiles0: Seq<TileState>,
    m1: Seq<(usize, usize)>,
    t1: Seq<TileState>,
    m2: Seq<(usize, usize)>,
    t2: Seq<TileState>,
    r: usize,
    c: usize,
)
    requires
        0 < w,
        0 < h,
        mines0.len() > 0,
        tiles0.len() == w * h,
        reveal_post(w, h, quota, mines0, tiles0, m1, t1, r as int, c as int),
        reveal_post(w, h, quota, mines0, tiles0, m2, t2, r as int, c as int),
    ensures
        m1 == m2,
        t1 == t2,
{
    assert(m1 == mines0 && m2 == mines0);
    if m1.contains((r, c)) {
        assert(t1 == t2);
    } else {
        assert forall|i: int| 0 <= i < t1.len() implies t1[i] == t2[i] by {
            crate::grid::lemma_cell_index_surjective(w, h, i);
            let rr = i / w;
            let cc = i % w;
            assert(tile_in(t1, w, rr, cc) == tile_in(t2, w, rr, cc));
            assert(t1[rr * w + cc] == t2[rr * w + cc]);
        }
        assert(t1 =~= t2);
    }
}

/// Idempotence: revealing an already revealed safe tile relates the board to
/// itself; nothing changes.
pub proof fn lemma_reveal_idempotent(b: BoardImpl, r: usize, c: usize)
    requires
        b.wf(),
        in_bounds(b.grid_w(), b.grid_h(), r as int, c as int),
        is_revealed(tile_in(b.tiles_seq(), b.grid_w(), r as int, c as int)),
        !b.mines_seq().contains((r, c)),
    ensures
        reveal_post(
            b.grid_w(),
            b.grid_h(),
            b.mine_quota(),
            b.mines_seq(),
            b.tiles_seq(),
            b.mines_seq(),
            b.tiles_seq(),
            r as int,
            c as int,
        ),
{
    let w = b.grid_w();
    let h = b.grid_h();
    let mines = b.mines_seq();
    let tiles = b.tiles_seq();
    let s = (r, c);
    lemma_cell_index_bound(w, h, r as int, c as int);
    if mines.len() == 0 {
        assert(b.mine_quota() == 0) by {
            if b.mine_quota() > 0 {
                assert(!is_revealed(tiles[r as int * w + c as int]));
            }
        }
    }
    let pred = |z: (usize, usize)|
        in_bounds(w, h, z.0 as int, z.1 as int) && !mines.contains(z) && is_revealed(
            tile_in(tiles, w, z.0 as int, z.1 as int),
        );
    assert(pred(s));
    assert forall|z: (usize, usize), p: (usize, usize)|
        pred(z) && zero_cell(w, h, mines, z) && #[trigger] crate::grid::adjacent_cells(z, p)
            && in_bounds(w, h, p.0 as int, p.1 as int) implies pred(p) by {
        lemma_count_mines_in_bounds(mines, neighbor_seq(w, h, z.0 as int, z.1 as int));
        assert(tile_in(tiles, w, z.0 as int, z.1 as int) == TileState::REVEALED(0)) by {
            match tile_in(tiles, w, z.0 as int, z.1 as int) {
                TileState::REVEALED(n) => {
                    assert(n as int == mine_count_at(w, h, mines, z.0 as int, z.1 as int));
                },
                TileState::HIDDEN(_) => {},
            }
        }
        lemma_zero_cell_neighbor_not_mine(w, h, mines, z, p);
        assert(mines.contains(p) || is_revealed(tile_in(tiles, w, p.0 as int, p.1 as int)));
    }
    lemma_zero_reachable_closed(w, h, mines, s, pred);
    assert forall|rr: int, cc: int| in_bounds(w, h, rr, cc) implies #[trigger] tile_in(
        tiles,
        w,
        rr,
        cc,
    ) == if in_region(w, h, mines, s, (rr as usize, cc as usize)) {
        TileState::REVEALED(mine_count_at(w, h, mines, rr, cc) as i8)
    } else {
        tile_in(tiles, w, rr, cc)
    } by {
        let q = (rr as usize, cc as usize);
        if in_region(w, h, mines, s, q) {
            assert(pred(q)) by {
                if q == s {
                } else {
                    let z = choose|z: (usize, usize)|
                        #[trigger] zero_reachable(w, h, mines, s, z)
                            && crate::grid::adjacent_cells(z, q);
                    assert(pred(z));
                    lemma_zero_reachable_ends(w, h, mines, s, z);
                    assert(zero_cell(w, h, mines, z) && crate::grid::adjacent_cells(z, q));
                }
            }
            lemma_count_mines_in_bounds(mines, neighbor_seq(w, h, rr, cc));
            match tile_in(tiles, w, rr, cc) {
                TileState::REVEALED(n) => {
                    assert(n as int == mine_count_at(w, h, mines, rr, cc));
                },
                TileState::HIDDEN(_) => {},
            }
        }
    }
}


/// Opening-move safety and the mine-count invariant: when a reveal triggers
/// placement, the new layout holds exactly the configured number of distinct
/// on-grid mines, and the cell just revealed is never among them.
pub proof fn lemma_placement_spares_first_reveal(
    w: int,
    h: int,
    quota: int,
    pre_mines: Seq<(usize, usize)>,
    pre_tiles: Seq<TileState>,
    post_mines: Seq<(usize, usize)>,
    post_tiles: Seq<TileState>,
    r: usize,
    c: usize,
)
    requires
        pre_mines.len() == 0,
        reveal_post(w, h, quota, pre_mines, pre_tiles, post_mines, post_tiles, r as int, c as int),
    ensures
        post_mines.len() == quota,
        post_mines.no_duplicates(),
        forall|i: int|
            0 <= i < post_mines.len() ==> in_bounds(
                w,
                h,
                (#[trigger] post_mines[i]).0 as int,
                post_mines[i].1 as int,
            ),
        !post_mines.contains((r, c)),
{
}

} // verus!
