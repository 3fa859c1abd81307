//! The stencil: a kernel, handed in by the caller, computes the next value of
//! every cell of a tile from the cell and its four neighbours along the axes.
//!
//! The kernel sees values only. It reads the current fields, halo included,
//! and its results go to fields of their own, so that no cell is read after
//! it has been written. The halo of the current fields has to be up to date.

use vstd::prelude::*;
use crate::grid::{lemma_cell_bounds, lemma_cell_of_index, Layout, MPIinfo};

verus! {

/// What a kernel reads of one field for one cell: the cell and its four
/// neighbours along the axes.
#[derive(Debug, PartialEq, Eq)]
pub struct Neighborhood<T> {
    pub center: T,
    pub left: T,
    pub right: T,
    pub up: T,
    pub down: T,
}

impl Layout {
    /// The neighbourhood of the cell in column `ix` and row `iy` of the tile
    /// `t` with its halo.
    pub open spec fn neighborhood<T>(self, t: Seq<T>, ix: int, iy: int) -> Neighborhood<T> {
        Neighborhood {
            center: t[self.cell(ix, iy)],
            left: t[self.cell(ix - 1, iy)],
            right: t[self.cell(ix + 1, iy)],
            up: t[self.cell(ix, iy - 1)],
            down: t[self.cell(ix, iy + 1)],
        }
    }
}

impl MPIinfo {
    /// The column and the row of the cell with index `k` in a tile with its
    /// halo.
    pub fn cell_coord(&self, k: usize) -> (c: (usize, usize))
        requires
            k < self@.tile_len(),
        ensures
            c.0 == self@.col_of(k as int),
            c.1 == self@.row_of(k as int),
            self@.in_tile(c.0 as int, c.1 as int),
    {
        let (lx, ly) = self.tile_size();
        proof {
            lemma_cell_of_index(self@, k as int);
        }
        (k % (lx + 2), k / (lx + 2))
    }

    /// Whether column `ix` and row `iy` name a cell of the tile itself, not
    /// of its halo.
    pub fn is_interior(&self, ix: usize, iy: usize) -> (b: bool)
        ensures
            b == self@.in_interior(ix as int, iy as int),
    {
        let (lx, ly) = self.tile_size();
        1 <= ix && ix <= lx && 1 <= iy && iy <= ly
    }

    /// The neighbourhood of the cell in column `ix` and row `iy` of the tile.
    pub fn neighborhood<T: Copy>(&self, s: &Vec<T>, ix: usize, iy: usize) -> (n: Neighborhood<T>)
        requires
            s@.len() == self@.tile_len(),
            self@.in_interior(ix as int, iy as int),
        ensures
            n == self@.neighborhood(s@, ix as int, iy as int),
    {
        let (lx, ly) = self.tile_size();
        let l: usize = lx + 2;
        proof {
            lemma_cell_bounds(self@, ix as int, iy as int);
            lemma_cell_bounds(self@, ix - 1, iy as int);
            lemma_cell_bounds(self@, ix + 1, iy as int);
            lemma_cell_bounds(self@, ix as int, iy - 1);
            lemma_cell_bounds(self@, ix as int, iy + 1);
        }
        Neighborhood {
            center: s[ix + iy * l],
            left: s[ix - 1 + iy * l],
            right: s[ix + 1 + iy * l],
            up: s[ix + (iy - 1) * l],
            down: s[ix + (iy + 1) * l],
        }
    }

    /// One step of a system of two fields: for every cell of the tile, the
    /// kernel is given the neighbourhoods of the cell in `u` and in `v`, and
    /// what it returns becomes the value of the cell in `u2` and in `v2`.
    /// The halo of `u2` and `v2` is left as it is. The kernel has to accept
    /// the neighbourhoods of the cells of the tile, and no others.
    pub fn calc<T: Copy, F: Fn(Neighborhood<T>, Neighborhood<T>) -> (T, T)>(
        &self,
        u: &Vec<T>,
        v: &Vec<T>,
        u2: &mut Vec<T>,
        v2: &mut Vec<T>,
        kernel: F,
    )
        requires
            u@.len() == self@.tile_len(),
            v@.len() == self@.tile_len(),
            old(u2)@.len() == self@.tile_len(),
            old(v2)@.len() == self@.tile_len(),
            forall|ix: int, iy: int|
                #![trigger self@.neighborhood(u@, ix, iy)]
                self@.in_interior(ix, iy) ==> call_requires(
                    kernel,
                    (self@.neighborhood(u@, ix, iy), self@.neighborhood(v@, ix, iy)),
                ),
        ensures
            final(u2)@.len() == self@.tile_len(),
            final(v2)@.len() == self@.tile_len(),
            forall|k: int|
                #![trigger final(u2)@[k]]
                #![trigger final(v2)@[k]]
                0 <= k < self@.tile_len() ==> if self@.in_interior(
                    self@.col_of(k),
                    self@.row_of(k),
                ) {
                    call_ensures(
                        kernel,
                        (
                            self@.neighborhood(u@, self@.col_of(k), self@.row_of(k)),
                            self@.neighborhood(v@, self@.col_of(k), self@.row_of(k)),
                        ),
                        (final(u2)@[k], final(v2)@[k]),
                    )
                } else {
                    final(u2)@[k] == old(u2)@[k] && final(v2)@[k] == old(v2)@[k]
                },
    {
        let (lx, ly) = self.tile_size();
        let mut iy: usize = 1;
        while iy <= ly
            invariant
                self@.valid(),
                lx == self@.lx,
                ly == self@.ly,
                lx + 2 <= usize::MAX,
                ly + 2 <= usize::MAX,
                self@.tile_len() <= usize::MAX,
                u@.len() == self@.tile_len(),
                v@.len() == self@.tile_len(),
                u2@.len() == self@.tile_len(),
                v2@.len() == self@.tile_len(),
                forall|ix: int, iy: int|
                    #![trigger self@.neighborhood(u@, ix, iy)]
                    self@.in_interior(ix, iy) ==> call_requires(
                        kernel,
                        (self@.neighborhood(u@, ix, iy), self@.neighborhood(v@, ix, iy)),
                    ),
                1 <= iy <= ly + 1,
                forall|k: int|
                    #![trigger u2@[k]]
                    #![trigger v2@[k]]
                    0 <= k < self@.tile_len() ==> if self@.in_interior(
                        self@.col_of(k),
                        self@.row_of(k),
                    ) && self@.row_of(k) < iy {
                        call_ensures(
                            kernel,
                            (
                                self@.neighborhood(u@, self@.col_of(k), self@.row_of(k)),
                                self@.neighborhood(v@, self@.col_of(k), self@.row_of(k)),
                            ),
                            (u2@[k], v2@[k]),
                        )
                    } else {
                        u2@[k] == old(u2)@[k] && v2@[k] == old(v2)@[k]
                    },
            decreases ly + 1 - iy,
        {
            let mut ix: usize = 1;
            while ix <= lx
                invariant
                    self@.valid(),
                    lx == self@.lx,
                    ly == self@.ly,
                    lx + 2 <= usize::MAX,
                    ly + 2 <= usize::MAX,
                    self@.tile_len() <= usize::MAX,
                    u@.len() == self@.tile_len(),
                    v@.len() == self@.tile_len(),
                    u2@.len() == self@.tile_len(),
                    v2@.len() == self@.tile_len(),
                    forall|ix: int, iy: int|
                        #![trigger self@.neighborhood(u@, ix, iy)]
                        self@.in_interior(ix, iy) ==> call_requires(
                            kernel,
                            (self@.neighborhood(u@, ix, iy), self@.neighborhood(v@, ix, iy)),
                        ),
                    1 <= iy <= ly,
                    1 <= ix <= lx + 1,
                    forall|k: int|
                        #![trigger u2@[k]]
                        #![trigger v2@[k]]
                        0 <= k < self@.tile_len() ==> if self@.in_interior(
                            self@.col_of(k),
                            self@.row_of(k),
                        ) && (self@.row_of(k) < iy || (self@.row_of(k) == iy && self@.col_of(k)
                            < ix)) {
                            call_ensures(
                                kernel,
                                (
                                    self@.neighborhood(u@, self@.col_of(k), self@.row_of(k)),
                                    self@.neighborhood(v@, self@.col_of(k), self@.row_of(k)),
                                ),
                                (u2@[k], v2@[k]),
                            )
                        } else {
                            u2@[k] == old(u2)@[k] && v2@[k] == old(v2)@[k]
                        },
                decreases lx + 1 - ix,
            {
                proof {
                    lemma_cell_bounds(self@, ix as int, iy as int);
                }
                let i: usize = ix + iy * (lx + 2);
                let a = self.neighborhood(u, ix, iy);
                let b = self.neighborhood(v, ix, iy);
                let (nu, nv) = kernel(a, b);
                let ghost u_before = u2@;
                let ghost v_before = v2@;
                u2.set(i, nu);
                v2.set(i, nv);
                proof {
                    assert forall|k: int| 0 <= k < self@.tile_len() implies if self@.in_interior(
                        self@.col_of(k),
                        self@.row_of(k),
                    ) && (self@.row_of(k) < iy || (self@.row_of(k) == iy && self@.col_of(k) < ix
                        + 1)) {
                        call_ensures(
                            kernel,
                            (
                                self@.neighborhood(u@, self@.col_of(k), self@.row_of(k)),
                                self@.neighborhood(v@, self@.col_of(k), self@.row_of(k)),
                            ),
                            (#[trigger] u2@[k], v2@[k]),
                        )
                    } else {
                        u2@[k] == old(u2)@[k] && v2@[k] == old(v2)@[k]
                    } by {
                        lemma_cell_of_index(self@, k);
                        if k != i {
                            assert(u2@[k] == u_before[k]);
                            assert(v2@[k] == v_before[k]);
                        }
                    }
                }
                ix = ix + 1;
            }
            proof {
                assert forall|k: int| 0 <= k < self@.tile_len() implies if self@.in_interior(
                    self@.col_of(k),
                    self@.row_of(k),
                ) && self@.row_of(k) < iy + 1 {
                    call_ensures(
                        kernel,
                        (
                            self@.neighborhood(u@, self@.col_of(k), self@.row_of(k)),
                            self@.neighborhood(v@, self@.col_of(k), self@.row_of(k)),
                        ),
                        (#[trigger] u2@[k], v2@[k]),
                    )
                } else {
                    u2@[k] == old(u2)@[k] && v2@[k] == old(v2)@[k]
                } by {
                    lemma_cell_of_index(self@, k);
                }
            }
            iy = iy + 1;
        }
        proof {
            assert forall|k: int| 0 <= k < self@.tile_len() implies if self@.in_interior(
                self@.col_of(k),
                self@.row_of(k),
            ) {
                call_ensures(
                    kernel,
                    (
                        self@.neighborhood(u@, self@.col_of(k), self@.row_of(k)),
                        self@.neighborhood(v@, self@.col_of(k), self@.row_of(k)),
                    ),
                    (#[trigger] u2@[k], v2@[k]),
                )
            } else {
                u2@[k] == old(u2)@[k] && v2@[k] == old(v2)@[k]
            } by {
                lemma_cell_of_index(self@, k);
            }
        }
    }
}

} // verus!
