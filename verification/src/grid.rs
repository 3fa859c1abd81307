//! The process grid: which tile of the global grid a rank owns, and which
//! ranks are its neighbours.
//!
//! Everything here is a function of the rank, the process count and the grid
//! side, so that all processes agree without talking to each other.

use vstd::prelude::*;
use vstd::arithmetic::div_mod::lemma_fundamental_div_mod;
use vstd::arithmetic::div_mod::lemma_fundamental_div_mod_converse;
use crate::dims::{
    balanced_split,
    compute_dims,
    is_balanced_split,
    is_split,
    lemma_balanced_split_is,
};
use crate::error::ConfigError;

verus! {

/// The decomposition as one process sees it, in mathematical integers: the
/// process `rank` of `procs`, in a grid of `gx` by `gy` processes, owning a
/// tile of `lx` by `ly` cells.
pub struct Layout {
    pub rank: int,
    pub procs: int,
    pub gx: int,
    pub gy: int,
    pub lx: int,
    pub ly: int,
}

impl Layout {
    /// The process grid holds all processes, the rank is one of them, and the
    /// tiles cover a square.
    pub open spec fn wf(self) -> bool {
        &&& 1 <= self.gx
        &&& 1 <= self.gy
        &&& self.gx * self.gy == self.procs
        &&& 0 <= self.rank < self.procs
        &&& 0 <= self.lx
        &&& 0 <= self.ly
        &&& self.lx * self.gx == self.ly * self.gy
    }

    /// A tile with its halo, and the global grid, can be held in memory.
    pub open spec fn fits(self) -> bool {
        (self.side() + 2) * (self.side() + 2) <= usize::MAX
    }

    /// What holds of every decomposition that a process holds.
    pub open spec fn valid(self) -> bool {
        &&& self.wf()
        &&& self.fits()
        &&& self.procs <= i32::MAX
    }

    /// The side of the global grid.
    pub open spec fn side(self) -> int {
        self.lx * self.gx
    }

    /// The same decomposition as process `r` sees it.
    pub open spec fn at(self, r: int) -> Layout {
        Layout { rank: r, ..self }
    }

    /// The column of the process in the process grid.
    pub open spec fn cx(self) -> int {
        self.rank % self.gx
    }

    /// The row of the process in the process grid.
    pub open spec fn cy(self) -> int {
        self.rank / self.gx
    }

    /// The rank at column `x`, row `y` of the process grid.
    pub open spec fn rank_at(self, x: int, y: int) -> int {
        x + y * self.gx
    }

    /// The rank `dx` columns and `dy` rows away, the process grid being
    /// periodic in both directions.
    pub open spec fn neighbor(self, dx: int, dy: int) -> int {
        self.rank_at((self.cx() + dx) % self.gx, (self.cy() + dy) % self.gy)
    }

    /// The global column of the first cell of the tile.
    pub open spec fn origin_x(self) -> int {
        self.cx() * self.lx
    }

    /// The global row of the first cell of the tile.
    pub open spec fn origin_y(self) -> int {
        self.cy() * self.ly
    }

    /// The tile holds the global cell `(x, y)`.
    pub open spec fn owns(self, x: int, y: int) -> bool {
        &&& self.origin_x() <= x < self.origin_x() + self.lx
        &&& self.origin_y() <= y < self.origin_y() + self.ly
    }

    /// The number of cells of a tile with its halo.
    pub open spec fn tile_len(self) -> int {
        (self.lx + 2) * (self.ly + 2)
    }

    /// The index, in a tile with its halo, of column `ix` and row `iy`; the
    /// halo is column and row 0 and the column and row after the last.
    pub open spec fn cell(self, ix: int, iy: int) -> int {
        ix + iy * (self.lx + 2)
    }

    /// The column of the cell with index `k` in a tile with its halo.
    pub open spec fn col_of(self, k: int) -> int {
        k % (self.lx + 2)
    }

    /// The row of the cell with index `k` in a tile with its halo.
    pub open spec fn row_of(self, k: int) -> int {
        k / (self.lx + 2)
    }

    /// `(ix, iy)` is a cell of the tile or of its halo.
    pub open spec fn in_tile(self, ix: int, iy: int) -> bool {
        0 <= ix < self.lx + 2 && 0 <= iy < self.ly + 2
    }

    /// `(ix, iy)` is a cell of the tile itself.
    pub open spec fn in_interior(self, ix: int, iy: int) -> bool {
        1 <= ix <= self.lx && 1 <= iy <= self.ly
    }

    /// The index, in the tile with its halo, of the global cell `(x, y)`.
    pub open spec fn local_index(self, x: int, y: int) -> int {
        self.cell(x - self.origin_x() + 1, y - self.origin_y() + 1)
    }
}

/// The decomposition of a grid of side `l` over a process grid of `gx` by
/// `gy` that process `rank` of `procs` sees, or why there is none.
pub open spec fn layout_with(rank: int, procs: int, gx: int, gy: int, l: int) -> Result<
    Layout,
    ConfigError,
> {
    if procs < 1 || rank < 0 || rank >= procs {
        Err(ConfigError::BadProcessCount)
    } else if gx < 1 || gy < 1 || gx * gy != procs {
        Err(ConfigError::ShapeMismatch)
    } else if l % gx != 0 || l % gy != 0 {
        Err(ConfigError::NotDivisible)
    } else if (l + 2) * (l + 2) > usize::MAX {
        Err(ConfigError::TooLarge)
    } else {
        Ok(Layout { rank, procs, gx, gy, lx: l / gx, ly: l / gy })
    }
}

/// The decomposition of a grid of side `l` over the balanced process grid
/// that process `rank` of `procs` sees, or why there is none.
pub open spec fn layout_of(rank: int, procs: int, l: int) -> Result<Layout, ConfigError> {
    layout_with(rank, procs, balanced_split(procs).0, balanced_split(procs).1, l)
}

/// A rank and its place in the process grid determine each other.
pub proof fn lemma_grid_coord(d: Layout, r: int)
    requires
        d.wf(),
        0 <= r < d.procs,
    ensures
        0 <= d.at(r).cx() < d.gx,
        0 <= d.at(r).cy() < d.gy,
        d.rank_at(d.at(r).cx(), d.at(r).cy()) == r,
{
    let gx = d.gx;
    lemma_fundamental_div_mod(r, gx);
    assert(0 <= r % gx < gx);
    assert(0 <= r / gx < d.gy) by (nonlinear_arith)
        requires
            0 <= r < gx * d.gy,
            1 <= gx,
            r == gx * (r / gx) + r % gx,
            0 <= r % gx < gx,
    ;
    assert(gx * (r / gx) == (r / gx) * gx) by (nonlinear_arith);
}

/// A place in the process grid is the place of the rank it gives.
pub proof fn lemma_rank_at(d: Layout, x: int, y: int)
    requires
        d.wf(),
        0 <= x < d.gx,
        0 <= y < d.gy,
    ensures
        0 <= d.rank_at(x, y) < d.procs,
        d.at(d.rank_at(x, y)).cx() == x,
        d.at(d.rank_at(x, y)).cy() == y,
{
    let gx = d.gx;
    lemma_fundamental_div_mod_converse(x + y * gx, gx, y, x);
    assert(0 <= x + y * gx < gx * d.gy) by (nonlinear_arith)
        requires
            0 <= x < gx,
            0 <= y < d.gy,
    ;
}

/// Every neighbour is a rank of the process group.
pub proof fn lemma_neighbor_is_rank(d: Layout, dx: int, dy: int)
    requires
        d.wf(),
    ensures
        0 <= d.neighbor(dx, dy) < d.procs,
        d.at(d.neighbor(dx, dy)).cx() == (d.cx() + dx) % d.gx,
        d.at(d.neighbor(dx, dy)).cy() == (d.cy() + dy) % d.gy,
{
    let x = (d.cx() + dx) % d.gx;
    let y = (d.cy() + dy) % d.gy;
    assert(0 <= x < d.gx);
    assert(0 <= y < d.gy);
    lemma_rank_at(d, x, y);
}

/// Going `dx` columns and `dy` rows away and then as far back ends where it
/// began: the rank that a process sends to receives from that process.
pub proof fn lemma_neighbor_back(d: Layout, dx: int, dy: int)
    requires
        d.wf(),
    ensures
        d.at(d.neighbor(dx, dy)).neighbor(-dx, -dy) == d.rank,
{
    lemma_grid_coord(d, d.rank);
    lemma_neighbor_is_rank(d, dx, dy);
    let n = d.at(d.neighbor(dx, dy));
    lemma_wrap_back(d.cx(), dx, d.gx);
    lemma_wrap_back(d.cy(), dy, d.gy);
    assert(n.cx() == (d.cx() + dx) % d.gx);
    assert((n.cx() + (-dx)) % d.gx == d.cx());
    assert((n.cy() + (-dy)) % d.gy == d.cy());
}

/// Wrapping around after a step and after the step back gives the start.
pub proof fn lemma_wrap_back(c: int, s: int, n: int)
    requires
        0 <= c < n,
    ensures
        (((c + s) % n) + (-s)) % n == c,
{
    let m = (c + s) % n;
    let q = (c + s) / n;
    lemma_fundamental_div_mod(c + s, n);
    assert(m + (-s) == (-q) * n + c) by (nonlinear_arith)
        requires
            c + s == n * q + m,
    ;
    lemma_fundamental_div_mod_converse(m + (-s), n, -q, c);
}

/// The tile of every rank lies within the global grid, and the index of each
/// of its cells lies within the tile.
pub proof fn lemma_tile_bounds(d: Layout)
    requires
        d.wf(),
    ensures
        0 <= d.origin_x(),
        d.origin_x() + d.lx <= d.side(),
        0 <= d.origin_y(),
        d.origin_y() + d.ly <= d.side(),
        d.lx <= d.side(),
        d.ly <= d.side(),
        d.tile_len() <= (d.side() + 2) * (d.side() + 2),
        d.lx * d.ly * d.procs == d.side() * d.side(),
        0 <= d.side(),
{
    lemma_grid_coord(d, d.rank);
    let cx = d.cx();
    let cy = d.cy();
    assert(0 <= cx * d.lx && cx * d.lx + d.lx <= d.lx * d.gx) by (nonlinear_arith)
        requires
            0 <= cx < d.gx,
            0 <= d.lx,
    ;
    assert(0 <= cy * d.ly && cy * d.ly + d.ly <= d.ly * d.gy) by (nonlinear_arith)
        requires
            0 <= cy < d.gy,
            0 <= d.ly,
    ;
    assert(d.lx <= d.lx * d.gx && d.ly <= d.ly * d.gy) by (nonlinear_arith)
        requires
            1 <= d.gx,
            1 <= d.gy,
            0 <= d.lx,
            0 <= d.ly,
    ;
    let s = d.side();
    assert((d.lx + 2) * (d.ly + 2) <= (s + 2) * (s + 2)) by (nonlinear_arith)
        requires
            0 <= d.lx <= s,
            0 <= d.ly <= s,
    ;
    assert(d.lx * d.ly * d.procs == s * s) by (nonlinear_arith)
        requires
            d.procs == d.gx * d.gy,
            s == d.lx * d.gx,
            s == d.ly * d.gy,
    ;
}

/// Where the global grid fits in memory, so does all that is computed of it.
pub proof fn lemma_fits(d: Layout)
    requires
        d.wf(),
        d.fits(),
    ensures
        d.side() + 2 <= usize::MAX,
        d.side() * d.side() <= usize::MAX,
        d.tile_len() <= usize::MAX,
        d.lx * d.ly <= usize::MAX,
{
    lemma_tile_bounds(d);
    let s = d.side();
    assert(s + 2 <= (s + 2) * (s + 2) && s * s <= (s + 2) * (s + 2)) by (nonlinear_arith)
        requires
            0 <= s,
    ;
    assert(d.lx * d.ly <= (d.lx + 2) * (d.ly + 2)) by (nonlinear_arith)
        requires
            0 <= d.lx,
            0 <= d.ly,
    ;
}

/// The index of a cell of a tile with its halo lies within the tile, and
/// no two cells share an index.
pub proof fn lemma_cell_bounds(d: Layout, ix: int, iy: int)
    requires
        0 <= d.lx,
        0 <= d.ly,
        d.in_tile(ix, iy),
    ensures
        0 <= d.cell(ix, iy) < d.tile_len(),
        d.col_of(d.cell(ix, iy)) == ix,
        d.row_of(d.cell(ix, iy)) == iy,
{
    let w = d.lx + 2;
    assert(0 <= ix + iy * w < w * (d.ly + 2)) by (nonlinear_arith)
        requires
            0 <= ix < w,
            0 <= iy < d.ly + 2,
    ;
    lemma_fundamental_div_mod_converse(ix + iy * w, w, iy, ix);
}

/// An index of a tile with its halo is the index of the cell at its column
/// and row.
pub proof fn lemma_cell_of_index(d: Layout, k: int)
    requires
        0 <= d.lx,
        0 <= d.ly,
        0 <= k < d.tile_len(),
    ensures
        d.in_tile(d.col_of(k), d.row_of(k)),
        d.cell(d.col_of(k), d.row_of(k)) == k,
{
    let w = d.lx + 2;
    lemma_fundamental_div_mod(k, w);
    assert(0 <= k / w < d.ly + 2 && (k / w) * w == w * (k / w)) by (nonlinear_arith)
        requires
            0 <= k < w * (d.ly + 2),
            k == w * (k / w) + k % w,
            0 <= k % w < w,
    ;
}

/// `(a + s) mod n` for a place `a` of a periodic axis of `n` places.
fn wrap(a: i32, s: i32, n: i32) -> (r: i32)
    requires
        0 <= a < n,
    ensures
        r == (a + s) % (n as int),
{
    let t: i64 = a as i64 + s as i64;
    let m: i64 = n as i64;
    if t >= 0 {
        (t % m) as i32
    } else {
        let u: i64 = -t;
        let k: i64 = u % m;
        proof {
            lemma_fundamental_div_mod(u as int, m as int);
            let q = (u as int) / (m as int);
            if k == 0 {
                assert(t == (-q) * m + 0) by (nonlinear_arith)
                    requires
                        u == m * q + k,
                        k == 0,
                        t == -u,
                ;
                lemma_fundamental_div_mod_converse(t as int, m as int, -q, 0);
            } else {
                assert(t == (-q - 1) * m + (m - k)) by (nonlinear_arith)
                    requires
                        u == m * q + k,
                        t == -u,
                ;
                lemma_fundamental_div_mod_converse(t as int, m as int, -q - 1, m - k);
            }
        }
        if k == 0 {
            0
        } else {
            (m - k) as i32
        }
    }
}

/// The decomposition as one process holds it.
pub struct MPIinfo {
    rank: i32,
    procs: i32,
    gx: i32,
    gy: i32,
    local_grid_x: i32,
    local_grid_y: i32,
    local_size_x: usize,
    local_size_y: usize,
}

impl View for MPIinfo {
    type V = Layout;

    closed spec fn view(&self) -> Layout {
        Layout {
            rank: self.rank as int,
            procs: self.procs as int,
            gx: self.gx as int,
            gy: self.gy as int,
            lx: self.local_size_x as int,
            ly: self.local_size_y as int,
        }
    }
}

impl MPIinfo {
    #[verifier::type_invariant]
    spec fn inv(&self) -> bool {
        &&& self@.valid()
        &&& self.local_grid_x == self@.cx()
        &&& self.local_grid_y == self@.cy()
    }

    /// The decomposition of a square grid of side `l` for process `rank` of
    /// `procs`.
    ///
    /// The processes form the balanced grid of `procs`; `l` has to be a
    /// multiple of both of its sides, and the cells of the grid with a halo
    /// around it have to be countable.
    pub fn new(rank: i32, procs: i32, l: usize) -> (r: Result<MPIinfo, ConfigError>)
        ensures
            match layout_of(rank as int, procs as int, l as int) {
                Ok(d) => r matches Ok(t) && t@ == d && d.valid() && d.side() == l
                    && is_balanced_split(d.procs, d.gx, d.gy),
                Err(e) => r matches Err(x) && x == e,
            },
            r matches Err(e) ==> e != ConfigError::ShapeMismatch,
    {
        if procs < 1 || rank < 0 || rank >= procs {
            return Err(ConfigError::BadProcessCount);
        }
        let d2 = match compute_dims(procs, 2) {
            Ok(v) => v,
            Err(e) => {
                return Err(e);
            },
        };
        proof {
            assert(is_split(procs as int, d2[0] as int, d2[1] as int));
            lemma_balanced_split_is(procs as int, d2[0] as int, d2[1] as int);
        }
        MPIinfo::with_dims(rank, procs, d2[0], d2[1], l)
    }

    /// The decomposition of a square grid of side `l` for process `rank` of
    /// `procs`, over a process grid of `gx` columns and `gy` rows that the
    /// caller has chosen.
    ///
    /// The process grid has to hold exactly the processes, `l` has to be a
    /// multiple of both of its sides, and the cells of the grid with a halo
    /// around it have to be countable.
    pub fn with_dims(rank: i32, procs: i32, gx: i32, gy: i32, l: usize) -> (r: Result<
        MPIinfo,
        ConfigError,
    >)
        ensures
            match layout_with(rank as int, procs as int, gx as int, gy as int, l as int) {
                Ok(d) => r matches Ok(t) && t@ == d && d.valid() && d.side() == l,
                Err(e) => r matches Err(x) && x == e,
            },
    {
        if procs < 1 || rank < 0 || rank >= procs {
            return Err(ConfigError::BadProcessCount);
        }
        if gx < 1 || gy < 1 {
            return Err(ConfigError::ShapeMismatch);
        }
        assert(0 <= gx * gy <= 0x7fff_ffff * 0x7fff_ffff) by (nonlinear_arith)
            requires
                1 <= gx <= 0x7fff_ffff,
                1 <= gy <= 0x7fff_ffff,
        ;
        if (gx as i64) * (gy as i64) != procs as i64 {
            return Err(ConfigError::ShapeMismatch);
        }
        if l % (gx as usize) != 0 || l % (gy as usize) != 0 {
            return Err(ConfigError::NotDivisible);
        }
        let fits: bool = match l.checked_add(2) {
            Some(s) => s.checked_mul(s).is_some(),
            None => false,
        };
        if !fits {
            assert((l + 2) * (l + 2) > usize::MAX) by (nonlinear_arith)
                requires
                    l + 2 > usize::MAX || (l + 2) * (l + 2) > usize::MAX,
                    l >= 0,
            ;
            return Err(ConfigError::TooLarge);
        }
        let local_grid_x: i32 = rank % gx;
        let local_grid_y: i32 = rank / gx;
        let local_size_x: usize = l / (gx as usize);
        let local_size_y: usize = l / (gy as usize);
        proof {
            lemma_fundamental_div_mod(l as int, gx as int);
            lemma_fundamental_div_mod(l as int, gy as int);
            assert(local_size_x * gx == l) by (nonlinear_arith)
                requires
                    l == gx * (l as int / gx as int) + l as int % gx as int,
                    l as int % gx as int == 0,
                    local_size_x == l as int / gx as int,
            ;
            assert(local_size_y * gy == l) by (nonlinear_arith)
                requires
                    l == gy * (l as int / gy as int) + l as int % gy as int,
                    l as int % gy as int == 0,
                    local_size_y == l as int / gy as int,
            ;
        }
        Ok(
            MPIinfo {
                rank,
                procs,
                gx,
                gy,
                local_grid_x,
                local_grid_y,
                local_size_x,
                local_size_y,
            },
        )
    }

    /// The rank of this process.
    pub fn rank(&self) -> (r: i32)
        ensures
            r == self@.rank,
            self@.valid(),
    {
        proof {
            use_type_invariant(self);
        }
        self.rank
    }

    /// The number of processes.
    pub fn procs(&self) -> (r: i32)
        ensures
            r == self@.procs,
            self@.valid(),
    {
        proof {
            use_type_invariant(self);
        }
        self.procs
    }

    /// The number of columns of the process grid.
    pub fn gx(&self) -> (r: i32)
        ensures
            r == self@.gx,
            self@.valid(),
    {
        proof {
            use_type_invariant(self);
        }
        self.gx
    }

    /// The number of rows of the process grid.
    pub fn gy(&self) -> (r: i32)
        ensures
            r == self@.gy,
            self@.valid(),
    {
        proof {
            use_type_invariant(self);
        }
        self.gy
    }

    /// The column of this process in the process grid.
    pub fn local_grid_x(&self) -> (r: i32)
        ensures
            r == self@.cx(),
            self@.valid(),
    {
        proof {
            use_type_invariant(self);
        }
        self.local_grid_x
    }

    /// The row of this process in the process grid.
    pub fn local_grid_y(&self) -> (r: i32)
        ensures
            r == self@.cy(),
            self@.valid(),
    {
        proof {
            use_type_invariant(self);
        }
        self.local_grid_y
    }

    /// The number of columns of the tile.
    pub fn local_size_x(&self) -> (r: usize)
        ensures
            r == self@.lx,
            self@.valid(),
    {
        proof {
            use_type_invariant(self);
        }
        self.local_size_x
    }

    /// The number of rows of the tile.
    pub fn local_size_y(&self) -> (r: usize)
        ensures
            r == self@.ly,
            self@.valid(),
    {
        proof {
            use_type_invariant(self);
        }
        self.local_size_y
    }

    /// The side of the global grid.
    pub fn global_size(&self) -> (r: usize)
        ensures
            r == self@.side(),
            self@.valid(),
    {
        proof {
            use_type_invariant(self);
            lemma_tile_bounds(self@);
            lemma_fits(self@);
        }
        self.local_size_x * (self.gx as usize)
    }

    /// The number of cells of a tile with its halo.
    pub fn tile_len(&self) -> (r: usize)
        ensures
            r == self@.tile_len(),
            self@.valid(),
    {
        proof {
            use_type_invariant(self);
            lemma_tile_bounds(self@);
            lemma_fits(self@);
        }
        (self.local_size_x + 2) * (self.local_size_y + 2)
    }

    /// The number of columns and of rows of the tile.
    pub(crate) fn tile_size(&self) -> (s: (usize, usize))
        ensures
            self@.valid(),
            s.0 == self@.lx,
            s.1 == self@.ly,
            s.0 + 2 <= usize::MAX,
            s.1 + 2 <= usize::MAX,
            self@.tile_len() <= usize::MAX,
    {
        let lx: usize = self.local_size_x();
        let ly: usize = self.local_size_y();
        proof {
            lemma_tile_bounds(self@);
            lemma_fits(self@);
        }
        (lx, ly)
    }

    /// The place of rank `r` in the process grid: column, then row.
    pub fn grid_coord(&self, r: i32) -> (c: (i32, i32))
        requires
            0 <= r < self@.procs,
        ensures
            c.0 == self@.at(r as int).cx(),
            c.1 == self@.at(r as int).cy(),
            c.0 + c.1 * self@.gx == r,
            0 <= c.0 < self@.gx,
            0 <= c.1 < self@.gy,
    {
        proof {
            use_type_invariant(self);
            lemma_grid_coord(self@, r as int);
        }
        (r % self.gx, r / self.gx)
    }

    /// The global column and row of the first cell of the tile of rank `r`.
    pub fn tile_origin(&self, r: i32) -> (o: (usize, usize))
        requires
            0 <= r < self@.procs,
        ensures
            o.0 == self@.at(r as int).origin_x(),
            o.1 == self@.at(r as int).origin_y(),
    {
        proof {
            use_type_invariant(self);
            lemma_grid_coord(self@, r as int);
            lemma_tile_bounds(self@.at(r as int));
            lemma_fits(self@);
        }
        let (cx, cy) = self.grid_coord(r);
        ((cx as usize) * self.local_size_x, (cy as usize) * self.local_size_y)
    }

    /// The rank of the process `dx` columns and `dy` rows away from this one.
    /// The process grid wraps around in both directions.
    pub fn get_rank(&self, dx: i32, dy: i32) -> (r: i32)
        ensures
            r == self@.neighbor(dx as int, dy as int),
            0 <= r < self@.procs,
    {
        proof {
            use_type_invariant(self);
            lemma_grid_coord(self@, self@.rank);
            lemma_neighbor_is_rank(self@, dx as int, dy as int);
        }
        let rx: i32 = wrap(self.local_grid_x, dx, self.gx);
        let ry: i32 = wrap(self.local_grid_y, dy, self.gy);
        assert(0 <= ry * self.gx <= self@.procs) by (nonlinear_arith)
            requires
                0 <= ry < self.gy,
                1 <= self.gx,
                self@.procs == self.gx * self.gy,
        ;
        rx + ry * self.gx
    }

    /// The global column and row of the first cell of the tile.
    fn origin(&self) -> (o: (usize, usize))
        ensures
            o.0 == self@.origin_x(),
            o.1 == self@.origin_y(),
    {
        proof {
            use_type_invariant(self);
            lemma_tile_bounds(self@);
            lemma_fits(self@);
            assert(self.local_size_x * self.local_grid_x == self@.origin_x()
                && self.local_size_y * self.local_grid_y == self@.origin_y()) by (nonlinear_arith)
                requires
                    self@.origin_x() == self.local_grid_x * self.local_size_x,
                    self@.origin_y() == self.local_grid_y * self.local_size_y,
            ;
        }
        (
            self.local_size_x * (self.local_grid_x as usize),
            self.local_size_y * (self.local_grid_y as usize),
        )
    }

    /// Whether the global cell `(x, y)` lies in the tile of this process.
    pub fn is_inside(&self, x: usize, y: usize) -> (b: bool)
        ensures
            b == self@.owns(x as int, y as int),
    {
        proof {
            use_type_invariant(self);
            lemma_tile_bounds(self@);
            lemma_fits(self@);
        }
        let (sx, sy) = self.origin();
        let ex: usize = sx + self.local_size_x;
        let ey: usize = sy + self.local_size_y;
        if x < sx || x >= ex || y < sy || y >= ey {
            return false;
        }
        true
    }

    /// The index, in the tile with its halo, of the global cell `(gx, gy)`,
    /// which has to lie in the tile.
    pub fn g2i(&self, gx: usize, gy: usize) -> (k: usize)
        requires
            self@.owns(gx as int, gy as int),
        ensures
            k == self@.local_index(gx as int, gy as int),
            k < self@.tile_len(),
    {
        proof {
            use_type_invariant(self);
            lemma_tile_bounds(self@);
            lemma_fits(self@);
        }
        let (sx, sy) = self.origin();
        let x: usize = gx - sx;
        let y: usize = gy - sy;
        proof {
            lemma_cell_bounds(self@, x + 1, y + 1);
        }
        x + 1 + (y + 1) * (self.local_size_x + 2)
    }
}

} // verus!
