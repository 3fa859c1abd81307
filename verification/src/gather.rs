//! Gathering the tiles at one process and putting them into global order.
//!
//! Each process contributes the cells of its tile, without the halo, row by
//! row. A gather hands the contributions to the coordinator one after the
//! other, in the order of the ranks. That is not the order of the global
//! grid: the coordinator has to move every value to the place that its rank
//! and its position in the tile give it.

use vstd::prelude::*;
use vstd::arithmetic::div_mod::lemma_fundamental_div_mod;
use vstd::arithmetic::div_mod::lemma_fundamental_div_mod_converse;
use crate::grid::{
    lemma_cell_bounds,
    lemma_fits,
    lemma_grid_coord,
    lemma_rank_at,
    lemma_tile_bounds,
    Layout,
    MPIinfo,
};

verus! {

impl Layout {
    /// The number of cells of a tile, without its halo.
    pub open spec fn tile_cells(self) -> int {
        self.lx * self.ly
    }

    /// The number of cells of the global grid.
    pub open spec fn global_len(self) -> int {
        self.side() * self.side()
    }

    /// The cells of the tile `t` without its halo, row by row.
    pub open spec fn interior<T>(self, t: Seq<T>) -> Seq<T> {
        Seq::new(
            self.tile_cells() as nat,
            |j: int| t[self.cell(j % self.lx + 1, j / self.lx + 1)],
        )
    }

    /// The place in gathered data of the cell in column `ix` and row `iy` of
    /// the tile of rank `r`, halo not counted.
    pub open spec fn slot(self, r: int, ix: int, iy: int) -> int {
        r * self.tile_cells() + ix + iy * self.lx
    }

    /// The place in the global grid, row by row, of the cell in column `ix`
    /// and row `iy` of the tile of rank `r`, halo not counted.
    pub open spec fn place(self, r: int, ix: int, iy: int) -> int {
        (self.at(r).origin_x() + ix) + (self.at(r).origin_y() + iy) * self.side()
    }

    /// The rank whose tile holds the global cell `(x, y)`.
    pub open spec fn owner(self, x: int, y: int) -> int {
        self.rank_at(x / self.lx, y / self.ly)
    }

    /// The place in gathered data of the cell that belongs at place `g` of
    /// the global grid.
    pub open spec fn gathered_index(self, g: int) -> int {
        let x = g % self.side();
        let y = g / self.side();
        self.slot(self.owner(x, y), x % self.lx, y % self.ly)
    }

    /// The place in the global grid of the cell at place `j` of gathered
    /// data.
    pub open spec fn scattered_index(self, j: int) -> int {
        let r = j / self.tile_cells();
        let rest = j % self.tile_cells();
        self.place(r, rest % self.lx, rest / self.lx)
    }

    /// The global grid, row by row, made of the gathered data `v`.
    pub open spec fn reordered<T>(self, v: Seq<T>) -> Seq<T> {
        Seq::new(v.len(), |g: int| v[self.gathered_index(g)])
    }
}

/// A cell of the tile of a rank has a place in gathered data and a place in
/// the global grid, and each of the two places leads to the other.
pub proof fn lemma_slot_place(d: Layout, r: int, ix: int, iy: int)
    requires
        d.wf(),
        0 <= r < d.procs,
        0 <= ix < d.lx,
        0 <= iy < d.ly,
    ensures
        0 <= d.slot(r, ix, iy) < d.global_len(),
        0 <= d.place(r, ix, iy) < d.global_len(),
        d.gathered_index(d.place(r, ix, iy)) == d.slot(r, ix, iy),
        d.scattered_index(d.slot(r, ix, iy)) == d.place(r, ix, iy),
        d.place(r, ix, iy) % d.side() == d.at(r).origin_x() + ix,
        d.place(r, ix, iy) / d.side() == d.at(r).origin_y() + iy,
{
    let e = d.at(r);
    let c = d.tile_cells();
    let s = d.side();
    lemma_grid_coord(d, r);
    lemma_tile_bounds(e);
    let cx = e.cx();
    let cy = e.cy();
    let x = e.origin_x() + ix;
    let y = e.origin_y() + iy;
    let rest = ix + iy * d.lx;
    // the slot
    assert(0 <= rest < c) by (nonlinear_arith)
        requires
            0 <= ix < d.lx,
            0 <= iy < d.ly,
            rest == ix + iy * d.lx,
            c == d.lx * d.ly,
    ;
    assert(0 <= r * c && r * c + c <= d.procs * c) by (nonlinear_arith)
        requires
            0 <= r < d.procs,
            0 <= c,
    ;
    assert(d.procs * c == s * s) by (nonlinear_arith)
        requires
            c == d.lx * d.ly,
            d.lx * d.ly * d.procs == s * s,
    ;
    // the place
    assert(0 <= x < s);
    assert(0 <= y < s);
    assert(0 <= x + y * s < s * s) by (nonlinear_arith)
        requires
            0 <= x < s,
            0 <= y < s,
    ;
    lemma_fundamental_div_mod_converse(x + y * s, s, y, x);
    // from the place to the slot
    lemma_fundamental_div_mod_converse(x, d.lx, cx, ix);
    lemma_fundamental_div_mod_converse(y, d.ly, cy, iy);
    assert(d.owner(x, y) == d.rank_at(cx, cy));
    // from the slot to the place
    lemma_fundamental_div_mod_converse(r * c + rest, c, r, rest);
    lemma_fundamental_div_mod_converse(rest, d.lx, iy, ix);
}

/// Every place of the global grid is the place of one cell of one tile.
pub proof fn lemma_place_of_global(d: Layout, g: int)
    requires
        d.wf(),
        0 <= g < d.global_len(),
    ensures
        0 <= d.gathered_index(g) < d.global_len(),
        d.scattered_index(d.gathered_index(g)) == g,
{
    let s = d.side();
    lemma_tile_bounds(d);
    lemma_fundamental_div_mod(g, s);
    let x = g % s;
    let y = g / s;
    assert(0 < s) by (nonlinear_arith)
        requires
            0 <= s,
            0 <= g < s * s,
    ;
    assert(0 <= y < s) by (nonlinear_arith)
        requires
            0 <= g < s * s,
            g == s * y + x,
            0 <= x < s,
    ;
    assert(0 < d.lx && 0 < d.ly) by (nonlinear_arith)
        requires
            0 < s,
            s == d.lx * d.gx,
            s == d.ly * d.gy,
            0 <= d.lx,
            0 <= d.ly,
    ;
    lemma_fundamental_div_mod(x, d.lx);
    lemma_fundamental_div_mod(y, d.ly);
    let px = x / d.lx;
    let py = y / d.ly;
    assert(0 <= px < d.gx) by (nonlinear_arith)
        requires
            0 <= x < d.lx * d.gx,
            x == d.lx * px + x % d.lx,
            0 <= x % d.lx < d.lx,
    ;
    assert(0 <= py < d.gy) by (nonlinear_arith)
        requires
            0 <= y < d.ly * d.gy,
            y == d.ly * py + y % d.ly,
            0 <= y % d.ly < d.ly,
    ;
    lemma_rank_at(d, px, py);
    let r = d.rank_at(px, py);
    lemma_slot_place(d, r, x % d.lx, y % d.ly);
    assert(d.at(r).origin_x() + x % d.lx == x) by (nonlinear_arith)
        requires
            d.at(r).origin_x() == px * d.lx,
            x == d.lx * px + x % d.lx,
    ;
    assert(d.at(r).origin_y() + y % d.ly == y) by (nonlinear_arith)
        requires
            d.at(r).origin_y() == py * d.ly,
            y == d.ly * py + y % d.ly,
    ;
    assert(d.place(r, x % d.lx, y % d.ly) == g) by (nonlinear_arith)
        requires
            d.place(r, x % d.lx, y % d.ly) == x + y * s,
            g == s * y + x,
    ;
}

impl Layout {
    /// Every tile of `tiles`, one for each rank, holds its part of the global
    /// grid `global`.
    pub open spec fn tiles_hold<T>(self, global: Seq<T>, tiles: Seq<Seq<T>>) -> bool {
        forall|r: int, ix: int, iy: int|
            #![trigger tiles[r][self.cell(ix + 1, iy + 1)]]
            0 <= r < self.procs && 0 <= ix < self.lx && 0 <= iy < self.ly ==> tiles[r][self.cell(
                ix + 1,
                iy + 1,
            )] == global[self.place(r, ix, iy)]
    }

    /// What a gather hands to the coordinator: the contributions of all
    /// ranks, one after the other in ascending order.
    pub open spec fn concatenated<T>(self, tiles: Seq<Seq<T>>) -> Seq<T> {
        Seq::new(
            self.global_len() as nat,
            |j: int| self.interior(tiles[j / self.tile_cells()])[j % self.tile_cells()],
        )
    }
}

/// A place in gathered data is the place of one cell of the tile of one rank.
pub proof fn lemma_slot_of_gathered(d: Layout, j: int)
    requires
        d.wf(),
        0 <= j < d.global_len(),
    ensures
        0 <= j / d.tile_cells() < d.procs,
        0 <= j % d.tile_cells() < d.tile_cells(),
        0 <= (j % d.tile_cells()) % d.lx < d.lx,
        0 <= (j % d.tile_cells()) / d.lx < d.ly,
        d.slot(j / d.tile_cells(), (j % d.tile_cells()) % d.lx, (j % d.tile_cells()) / d.lx) == j,
{
    let c = d.tile_cells();
    lemma_tile_bounds(d);
    assert(0 < c && 0 < d.lx) by (nonlinear_arith)
        requires
            0 <= j < d.lx * d.ly * d.procs,
            c == d.lx * d.ly,
            0 <= d.lx,
            0 <= d.ly,
            0 < d.procs,
    ;
    lemma_fundamental_div_mod(j, c);
    let r = j / c;
    let rest = j % c;
    assert(0 <= r < d.procs) by (nonlinear_arith)
        requires
            0 <= j < c * d.procs,
            j == c * r + rest,
            0 <= rest < c,
    ;
    lemma_fundamental_div_mod(rest, d.lx);
    let ix = rest % d.lx;
    let iy = rest / d.lx;
    assert(0 <= iy < d.ly) by (nonlinear_arith)
        requires
            0 <= rest < d.lx * d.ly,
            rest == d.lx * iy + ix,
            0 <= ix < d.lx,
    ;
    assert(r * c + ix + iy * d.lx == j) by (nonlinear_arith)
        requires
            j == c * r + rest,
            rest == d.lx * iy + ix,
    ;
}

/// Gathering the tiles of a global grid and reordering what has been gathered
/// gives the global grid again.
pub proof fn lemma_gather_reorder<T>(d: Layout, global: Seq<T>, tiles: Seq<Seq<T>>)
    requires
        d.wf(),
        global.len() == d.global_len(),
        tiles.len() == d.procs,
        d.tiles_hold(global, tiles),
    ensures
        d.reordered(d.concatenated(tiles)) == global,
{
    let v = d.concatenated(tiles);
    assert forall|g: int| 0 <= g < d.global_len() implies d.reordered(v)[g] == global[g] by {
        let j = d.gathered_index(g);
        lemma_place_of_global(d, g);
        lemma_slot_of_gathered(d, j);
        let c = d.tile_cells();
        let r = j / c;
        let rest = j % c;
        let ix = rest % d.lx;
        let iy = rest / d.lx;
        assert(d.scattered_index(j) == d.place(r, ix, iy));
        assert(v[j] == d.interior(tiles[r])[rest]);
        assert(d.interior(tiles[r])[rest] == tiles[r][d.cell(ix + 1, iy + 1)]);
    }
    assert(d.reordered(v) =~= global);
}

/// What a process has to do in a gather at rank 0.
#[derive(Debug, PartialEq, Eq)]
pub enum Gather<T> {
    /// This process coordinates: it contributes `sendbuf` and receives
    /// `count` values, the contributions of all ranks in ascending order.
    Root { sendbuf: Vec<T>, count: usize },
    /// This process contributes `sendbuf` to the coordinator `root`.
    Leaf { sendbuf: Vec<T>, root: i32 },
}

/// The mathematical value of a [`Gather`].
pub enum GatherView<T> {
    Root { sendbuf: Seq<T>, count: int },
    Leaf { sendbuf: Seq<T>, root: int },
}

impl<T> View for Gather<T> {
    type V = GatherView<T>;

    open spec fn view(&self) -> GatherView<T> {
        match self {
            Gather::Root { sendbuf, count } => GatherView::Root {
                sendbuf: sendbuf@,
                count: *count as int,
            },
            Gather::Leaf { sendbuf, root } => GatherView::Leaf {
                sendbuf: sendbuf@,
                root: *root as int,
            },
        }
    }
}

impl Layout {
    /// The part of the process with tile `t` in a gather at rank 0.
    pub open spec fn contribution<T>(self, t: Seq<T>) -> GatherView<T> {
        if self.rank == 0 {
            GatherView::Root { sendbuf: self.interior(t), count: self.global_len() }
        } else {
            GatherView::Leaf { sendbuf: self.interior(t), root: 0 }
        }
    }
}

impl MPIinfo {
    /// The cells of the tile without its halo, row by row.
    fn strip_halo<T: Copy>(&self, local_data: &Vec<T>) -> (sendbuf: Vec<T>)
        requires
            local_data@.len() == self@.tile_len(),
        ensures
            sendbuf@ == self@.interior(local_data@),
    {
        let (lx, ly) = self.tile_size();
        let mut sendbuf: Vec<T> = Vec::new();
        let mut iy: usize = 0;
        while iy < ly
            invariant
                self@.valid(),
                lx == self@.lx,
                ly == self@.ly,
                lx + 2 <= usize::MAX,
                self@.tile_len() <= usize::MAX,
                local_data@.len() == self@.tile_len(),
                iy <= ly,
                sendbuf@.len() == iy * lx,
                forall|j: int|
                    #![trigger sendbuf@[j]]
                    0 <= j < sendbuf@.len() ==> sendbuf@[j] == local_data@[self@.cell(
                        j % (lx as int) + 1,
                        j / (lx as int) + 1,
                    )],
            decreases ly - iy,
        {
            let mut ix: usize = 0;
            while ix < lx
                invariant
                    self@.valid(),
                    lx == self@.lx,
                    ly == self@.ly,
                    lx + 2 <= usize::MAX,
                    self@.tile_len() <= usize::MAX,
                    local_data@.len() == self@.tile_len(),
                    iy < ly,
                    ix <= lx,
                    sendbuf@.len() == iy * lx + ix,
                    forall|j: int|
                        #![trigger sendbuf@[j]]
                        0 <= j < sendbuf@.len() ==> sendbuf@[j] == local_data@[self@.cell(
                            j % (lx as int) + 1,
                            j / (lx as int) + 1,
                        )],
                decreases lx - ix,
            {
                proof {
                    lemma_cell_bounds(self@, ix + 1, iy + 1);
                    lemma_fundamental_div_mod_converse(
                        ix + iy * lx,
                        lx as int,
                        iy as int,
                        ix as int,
                    );
                    assert(iy * lx == lx * iy) by (nonlinear_arith);
                }
                let index_from: usize = (ix + 1) + (iy + 1) * (lx + 2);
                sendbuf.push(local_data[index_from]);
                ix = ix + 1;
            }
            assert((iy + 1) * lx == iy * lx + lx) by (nonlinear_arith);
            iy = iy + 1;
        }
        assert(ly * lx == lx * ly) by (nonlinear_arith);
        assert(sendbuf@ =~= self@.interior(local_data@));
        sendbuf
    }

    /// The part of this process in a gather of the tiles at rank 0: what it
    /// contributes, and whether it is the one that receives.
    pub fn gather<T: Copy>(&self, local_data: &Vec<T>) -> (g: Gather<T>)
        requires
            local_data@.len() == self@.tile_len(),
        ensures
            g@ == self@.contribution(local_data@),
    {
        let sendbuf = self.strip_halo(local_data);
        if self.rank() == 0 {
            let side: usize = self.global_size();
            proof {
                lemma_fits(self@);
            }
            Gather::Root { sendbuf, count: side * side }
        } else {
            Gather::Leaf { sendbuf, root: 0 }
        }
    }

    /// Puts gathered data into the order of the global grid: the value of
    /// each cell moves from the place that its rank and its position in the
    /// tile give it to its place in the grid, row by row.
    pub fn reordering<T: Copy>(&self, v: &mut Vec<T>)
        requires
            old(v)@.len() == self@.global_len(),
        ensures
            final(v)@ == self@.reordered(old(v)@),
    {
        let lx: usize = self.local_size_x();
        let ly: usize = self.local_size_y();
        let procs: i32 = self.procs();
        let side: usize = self.global_size();
        let n: usize = v.len();
        let mut v2: Vec<T> = Vec::new();
        let mut c: usize = 0;
        while c < n
            invariant
                n == v@.len(),
                c <= n,
                v2@ == v@.subrange(0, c as int),
            decreases n - c,
        {
            v2.push(v[c]);
            c = c + 1;
        }
        assert(v2@ =~= old(v)@);
        let mut i: usize = 0;
        let mut r: i32 = 0;
        while r < procs
            invariant
                self@.valid(),
                lx == self@.lx,
                ly == self@.ly,
                procs == self@.procs,
                side == self@.side(),
                n == self@.global_len(),
                v@.len() == n,
                v2@ == old(v)@,
                v2@.len() == n,
                0 <= r <= procs,
                i == self@.slot(r as int, 0, 0),
                forall|g: int|
                    #![trigger v@[g]]
                    0 <= g < n && self@.gathered_index(g) < i ==> v@[g] == v2@[self@.gathered_index(
                        g,
                    )],
            decreases procs - r,
        {
            let (sx, sy) = self.tile_origin(r);
            let mut iy: usize = 0;
            while iy < ly
                invariant
                    self@.valid(),
                    lx == self@.lx,
                    ly == self@.ly,
                    procs == self@.procs,
                    side == self@.side(),
                    n == self@.global_len(),
                    v@.len() == n,
                    v2@ == old(v)@,
                v2@.len() == n,
                    0 <= r < procs,
                    sx == self@.at(r as int).origin_x(),
                    sy == self@.at(r as int).origin_y(),
                    iy <= ly,
                    i == self@.slot(r as int, 0, iy as int),
                    forall|g: int|
                        #![trigger v@[g]]
                        0 <= g < n && self@.gathered_index(g) < i ==> v@[g]
                            == v2@[self@.gathered_index(g)],
                decreases ly - iy,
            {
                let mut ix: usize = 0;
                while ix < lx
                    invariant
                        self@.valid(),
                        lx == self@.lx,
                        ly == self@.ly,
                        procs == self@.procs,
                        side == self@.side(),
                        n == self@.global_len(),
                        v@.len() == n,
                        v2@ == old(v)@,
                v2@.len() == n,
                        0 <= r < procs,
                        sx == self@.at(r as int).origin_x(),
                        sy == self@.at(r as int).origin_y(),
                        iy < ly,
                        ix <= lx,
                        i == self@.slot(r as int, ix as int, iy as int),
                        forall|g: int|
                            #![trigger v@[g]]
                            0 <= g < n && self@.gathered_index(g) < i ==> v@[g]
                                == v2@[self@.gathered_index(g)],
                    decreases lx - ix,
                {
                    proof {
                        lemma_tile_bounds(self@.at(r as int));
                        lemma_slot_place(self@, r as int, ix as int, iy as int);
                    }
                    let index: usize = sx + ix + (sy + iy) * side;
                    let ghost before = v@;
                    v.set(index, v2[i]);
                    proof {
                        assert forall|g: int|
                            0 <= g < n && self@.gathered_index(g) < i + 1 implies #[trigger] v@[g]
                            == v2@[self@.gathered_index(g)] by {
                            lemma_place_of_global(self@, g);
                            if g != index {
                                assert(v@[g] == before[g]);
                            }
                        }
                    }
                    i = i + 1;
                    ix = ix + 1;
                }
                assert(self@.slot(r as int, lx as int, iy as int) == self@.slot(
                    r as int,
                    0,
                    iy + 1,
                )) by (nonlinear_arith)
                    requires
                        lx == self@.lx,
                ;
                iy = iy + 1;
            }
            assert(self@.slot(r as int, 0, ly as int) == self@.slot(r + 1, 0, 0))
                by (nonlinear_arith)
                requires
                    ly == self@.ly,
            ;
            r = r + 1;
        }
        proof {
            lemma_tile_bounds(self@);
            assert(i == n) by (nonlinear_arith)
                requires
                    i == procs * (self@.lx * self@.ly) + 0 + 0 * self@.lx,
                    self@.lx * self@.ly * procs == self@.side() * self@.side(),
                    n == self@.side() * self@.side(),
            ;
            assert forall|g: int| 0 <= g < n implies #[trigger] v@[g] == v2@[self@.gathered_index(
                g,
            )] by {
                lemma_place_of_global(self@, g);
            }
            assert(v@ =~= self@.reordered(old(v)@));
        }
    }
}

} // verus!
