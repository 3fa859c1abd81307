//! Filling a tile with values that tell the cells of all ranks apart.

use vstd::prelude::*;
use crate::gather::{lemma_place_of_global, lemma_slot_of_gathered};
use crate::grid::{
    lemma_cell_bounds,
    lemma_cell_of_index,
    lemma_fits,
    lemma_tile_bounds,
    Layout,
    MPIinfo,
};

verus! {

impl Layout {
    /// The number that marks the cell in column `ix` and row `iy` of the tile
    /// with its halo: the cells of the tile are counted row by row, after
    /// those of all lower ranks.
    pub open spec fn init_value(self, ix: int, iy: int) -> int {
        (ix - 1) + (iy - 1) * self.lx + self.lx * self.ly * self.rank
    }

    /// The tile `t` with every cell marked by its number, the halo left as it
    /// is. A number beyond the range of `i32` wraps around.
    pub open spec fn initialized(self, t: Seq<i32>) -> Seq<i32> {
        Seq::new(
            t.len(),
            |k: int|
                if self.in_interior(self.col_of(k), self.row_of(k)) {
                    self.init_value(self.col_of(k), self.row_of(k)) as i32
                } else {
                    t[k]
                },
        )
    }
}

impl Layout {
    /// The tile `t` with `value` in every cell whose global column and global
    /// row both lie between `start` and `end`, `end` not included; the halo
    /// is left as it is.
    pub open spec fn with_square<T>(self, t: Seq<T>, start: int, end: int, value: T) -> Seq<T> {
        Seq::new(
            t.len(),
            |k: int|
                if self.in_interior(self.col_of(k), self.row_of(k)) && start <= self.origin_x()
                    + self.col_of(k) - 1 < end && start <= self.origin_y() + self.row_of(k) - 1
                    < end {
                    value
                } else {
                    t[k]
                },
        )
    }

    /// The tiles of all ranks, each marked by its own process.
    pub open spec fn all_initialized(self, tiles: Seq<Seq<i32>>) -> Seq<Seq<i32>> {
        Seq::new(tiles.len(), |r: int| self.at(r).initialized(tiles[r]))
    }
}

/// Where every process has marked its tile, a gather hands the coordinator
/// the numbers from zero on, and after reordering every cell of the global
/// grid holds the place that it had in the gathered data.
pub proof fn lemma_init_counts_up(d: Layout, tiles: Seq<Seq<i32>>)
    requires
        d.wf(),
        tiles.len() == d.procs,
        forall|r: int| 0 <= r < d.procs ==> (#[trigger] tiles[r]).len() == d.tile_len(),
    ensures
        forall|j: int|
            0 <= j < d.global_len() ==> (#[trigger] d.concatenated(d.all_initialized(tiles))[j])
                == j as i32,
        forall|g: int|
            0 <= g < d.global_len() ==> (#[trigger] d.reordered(
                d.concatenated(d.all_initialized(tiles)),
            )[g]) == d.gathered_index(g) as i32,
{
    let marked = d.all_initialized(tiles);
    let v = d.concatenated(marked);
    assert forall|j: int| 0 <= j < d.global_len() implies (#[trigger] v[j]) == j as i32 by {
        lemma_slot_of_gathered(d, j);
        let c = d.tile_cells();
        let r = j / c;
        let rest = j % c;
        let ix = rest % d.lx;
        let iy = rest / d.lx;
        let e = d.at(r);
        let k = d.cell(ix + 1, iy + 1);
        lemma_cell_bounds(d, ix + 1, iy + 1);
        assert(tiles[r].len() == d.tile_len());
        assert(v[j] == d.interior(marked[r])[rest]);
        assert(marked[r] == e.initialized(tiles[r]));
        assert(e.col_of(k) == ix + 1 && e.row_of(k) == iy + 1);
        assert(e.initialized(tiles[r])[k] == e.init_value(ix + 1, iy + 1) as i32);
        assert(e.init_value(ix + 1, iy + 1) == j) by (nonlinear_arith)
            requires
                e.init_value(ix + 1, iy + 1) == (ix + 1 - 1) + (iy + 1 - 1) * d.lx + d.lx * d.ly * r,
                j == r * (d.lx * d.ly) + ix + iy * d.lx,
        ;
    }
    assert forall|g: int| 0 <= g < d.global_len() implies (#[trigger] d.reordered(v)[g])
        == d.gathered_index(g) as i32 by {
        lemma_place_of_global(d, g);
    }
}

impl MPIinfo {
    /// Marks every cell of the tile with its number; the halo is left as it
    /// is.
    pub fn init(&self, local_data: &mut Vec<i32>)
        requires
            old(local_data)@.len() == self@.tile_len(),
        ensures
            final(local_data)@ == self@.initialized(old(local_data)@),
    {
        let (lx, ly) = self.tile_size();
        let rank: i32 = self.rank();
        proof {
            lemma_tile_bounds(self@);
            lemma_fits(self@);
            assert(0 <= lx * ly * rank && lx * ly * rank + lx * ly <= lx * ly * self@.procs && 0 <= lx
                * ly) by (nonlinear_arith)
                requires
                    0 <= rank < self@.procs,
                    0 <= lx,
                    0 <= ly,
            ;
        }
        let offset: usize = lx * ly * (rank as usize);
        let mut iy: usize = 0;
        while iy < ly
            invariant
                self@.valid(),
                lx == self@.lx,
                ly == self@.ly,
                rank == self@.rank,
                lx + 2 <= usize::MAX,
                self@.tile_len() <= usize::MAX,
                offset == lx * ly * rank,
                offset + lx * ly <= usize::MAX,
                local_data@.len() == self@.tile_len(),
                local_data@.len() == old(local_data)@.len(),
                iy <= ly,
                forall|k: int|
                    #![trigger local_data@[k]]
                    0 <= k < local_data@.len() ==> local_data@[k] == if self@.in_interior(
                        self@.col_of(k),
                        self@.row_of(k),
                    ) && self@.row_of(k) <= iy {
                        self@.init_value(self@.col_of(k), self@.row_of(k)) as i32
                    } else {
                        old(local_data)@[k]
                    },
            decreases ly - iy,
        {
            let mut ix: usize = 0;
            while ix < lx
                invariant
                    self@.valid(),
                    lx == self@.lx,
                    ly == self@.ly,
                    rank == self@.rank,
                    lx + 2 <= usize::MAX,
                    self@.tile_len() <= usize::MAX,
                    offset == lx * ly * rank,
                    offset + lx * ly <= usize::MAX,
                    local_data@.len() == self@.tile_len(),
                    local_data@.len() == old(local_data)@.len(),
                    iy < ly,
                    ix <= lx,
                    forall|k: int|
                        #![trigger local_data@[k]]
                        0 <= k < local_data@.len() ==> local_data@[k] == if self@.in_interior(
                            self@.col_of(k),
                            self@.row_of(k),
                        ) && (self@.row_of(k) <= iy || (self@.row_of(k) == iy + 1 && self@.col_of(k)
                            <= ix)) {
                            self@.init_value(self@.col_of(k), self@.row_of(k)) as i32
                        } else {
                            old(local_data)@[k]
                        },
                decreases lx - ix,
            {
                proof {
                    lemma_cell_bounds(self@, ix + 1, iy + 1);
                    assert(ix + iy * lx < lx * ly) by (nonlinear_arith)
                        requires
                            ix < lx,
                            iy < ly,
                    ;
                }
                let index: usize = ix + 1 + (iy + 1) * (lx + 2);
                let value: usize = ix + iy * lx + offset;
                let ghost before = local_data@;
                local_data.set(index, #[verifier::truncate] (value as i32));
                proof {
                    assert(value == self@.init_value(ix + 1, iy + 1));
                    assert forall|k: int| 0 <= k < local_data@.len() implies #[trigger] local_data@[k]
                        == if self@.in_interior(self@.col_of(k), self@.row_of(k)) && (self@.row_of(k)
                        <= iy || (self@.row_of(k) == iy + 1 && self@.col_of(k) <= ix + 1)) {
                        self@.init_value(self@.col_of(k), self@.row_of(k)) as i32
                    } else {
                        old(local_data)@[k]
                    } by {
                        lemma_cell_of_index(self@, k);
                        if k != index {
                            assert(local_data@[k] == before[k]);
                        }
                    }
                }
                ix = ix + 1;
            }
            iy = iy + 1;
        }
        assert(local_data@ =~= self@.initialized(old(local_data)@));
    }

    /// Puts `value` into every cell of the tile whose global column and
    /// global row both lie between `start` and `end`, `end` not included.
    /// Cells of other tiles, and the halo, are left as they are: called by
    /// all processes, this fills a square of the global grid.
    pub fn fill_square<T: Copy>(&self, local_data: &mut Vec<T>, start: usize, end: usize, value: T)
        requires
            old(local_data)@.len() == self@.tile_len(),
        ensures
            final(local_data)@ == self@.with_square(
                old(local_data)@,
                start as int,
                end as int,
                value,
            ),
    {
        let (lx, ly) = self.tile_size();
        let (sx, sy) = self.tile_origin(self.rank());
        proof {
            lemma_tile_bounds(self@);
            lemma_fits(self@);
        }
        // the part of the square that lies in the tile
        let x0: usize = if start > sx {
            start
        } else {
            sx
        };
        let x1: usize = if end < sx + lx {
            end
        } else {
            sx + lx
        };
        let y0: usize = if start > sy {
            start
        } else {
            sy
        };
        let y1: usize = if end < sy + ly {
            end
        } else {
            sy + ly
        };
        let mut i: usize = x0;
        while i < x1
            invariant
                self@.valid(),
                sx == self@.origin_x(),
                sy == self@.origin_y(),
                lx == self@.lx,
                ly == self@.ly,
                x0 == if start > sx { start } else { sx },
                x1 == if end < sx + lx { end as int } else { sx + lx },
                y0 == if start > sy { start } else { sy },
                y1 == if end < sy + ly { end as int } else { sy + ly },
                local_data@.len() == self@.tile_len(),
                local_data@.len() == old(local_data)@.len(),
                x0 <= i,
                i <= x1 || i == x0,
                forall|k: int|
                    #![trigger local_data@[k]]
                    0 <= k < local_data@.len() ==> local_data@[k] == if self@.in_interior(
                        self@.col_of(k),
                        self@.row_of(k),
                    ) && start <= sx + self@.col_of(k) - 1 < i && start <= sy + self@.row_of(k) - 1
                        < end {
                        value
                    } else {
                        old(local_data)@[k]
                    },
            decreases x1 - i,
        {
            let mut j: usize = y0;
            while j < y1
                invariant
                    self@.valid(),
                    sx == self@.origin_x(),
                    sy == self@.origin_y(),
                    lx == self@.lx,
                    ly == self@.ly,
                    x0 == if start > sx { start } else { sx },
                    x1 == if end < sx + lx { end as int } else { sx + lx },
                    y0 == if start > sy { start } else { sy },
                    y1 == if end < sy + ly { end as int } else { sy + ly },
                    local_data@.len() == self@.tile_len(),
                    local_data@.len() == old(local_data)@.len(),
                    x0 <= i < x1,
                    y0 <= j,
                    j <= y1 || j == y0,
                    forall|k: int|
                        #![trigger local_data@[k]]
                        0 <= k < local_data@.len() ==> local_data@[k] == if self@.in_interior(
                            self@.col_of(k),
                            self@.row_of(k),
                        ) && ((start <= sx + self@.col_of(k) - 1 < i && start <= sy + self@.row_of(
                            k,
                        ) - 1 < end) || (sx + self@.col_of(k) - 1 == i && start <= sy
                            + self@.row_of(k) - 1 < j)) {
                            value
                        } else {
                            old(local_data)@[k]
                        },
                decreases y1 - j,
            {
                let index: usize = self.g2i(i, j);
                let ghost before = local_data@;
                local_data.set(index, value);
                proof {
                    lemma_cell_bounds(self@, i - sx + 1, j - sy + 1);
                    assert forall|k: int|
                        0 <= k < local_data@.len() implies #[trigger] local_data@[k]
                        == if self@.in_interior(self@.col_of(k), self@.row_of(k)) && ((start <= sx
                        + self@.col_of(k) - 1 < i && start <= sy + self@.row_of(k) - 1 < end) || (sx
                        + self@.col_of(k) - 1 == i && start <= sy + self@.row_of(k) - 1 < j + 1)) {
                        value
                    } else {
                        old(local_data)@[k]
                    } by {
                        lemma_cell_of_index(self@, k);
                        if k != index {
                            assert(local_data@[k] == before[k]);
                        }
                    }
                }
                j = j + 1;
            }
            proof {
                assert forall|k: int| 0 <= k < local_data@.len() implies #[trigger] local_data@[k]
                    == if self@.in_interior(self@.col_of(k), self@.row_of(k)) && start <= sx
                    + self@.col_of(k) - 1 < i + 1 && start <= sy + self@.row_of(k) - 1 < end {
                    value
                } else {
                    old(local_data)@[k]
                } by {
                    lemma_cell_of_index(self@, k);
                }
            }
            i = i + 1;
        }
        proof {
            assert forall|k: int| 0 <= k < local_data@.len() implies #[trigger] local_data@[k]
                == self@.with_square(old(local_data)@, start as int, end as int, value)[k] by {
                lemma_cell_of_index(self@, k);
            }
            assert(local_data@ =~= self@.with_square(
                old(local_data)@,
                start as int,
                end as int,
                value,
            ));
        }
    }
}

} // verus!
