//! Halo exchange: what a process sends to and takes from its four neighbours
//! to refresh the ring of cells around its tile.
//!
//! A refresh is a fixed series of paired transfers. Along the X axis the last
//! column of the tile goes to the right neighbour while the halo column on
//! the left is filled from the left neighbour, then the first column goes to
//! the left while the halo column on the right is filled. Along the Y axis
//! the same is done with whole rows, halo columns included, so that after an
//! X pass the corners are filled too. The transfers are made by the caller:
//! the functions here say what is pending and take what it brought.

use vstd::prelude::*;
use vstd::arithmetic::div_mod::lemma_fundamental_div_mod;
use crate::error::CommunicationError;
use crate::grid::{
    lemma_cell_bounds,
    lemma_cell_of_index,
    lemma_neighbor_back,
    lemma_neighbor_is_rank,
    lemma_tile_bounds,
    Layout,
    MPIinfo,
};

verus! {

/// Which transfers a refresh is made of.
#[derive(Debug, Clone, Copy, PartialEq, Eq, Structural)]
pub enum Plan {
    /// The two transfers along the X axis.
    X,
    /// The two transfers along the Y axis.
    Y,
    /// The X axis, then the Y axis.
    Both,
}

/// One paired transfer of a refresh, named by where the data goes.
#[derive(Debug, Clone, Copy, PartialEq, Eq, Structural)]
pub enum Phase {
    /// The last column goes right; the left halo column comes from the left.
    Right,
    /// The first column goes left; the right halo column comes from the right.
    Left,
    /// The first row goes up; the halo row below comes from below.
    Up,
    /// The last row goes down; the halo row above comes from above.
    Down,
}

/// A paired transfer that has to be made: send `sendbuf` to `dest` and
/// receive as many values from `source`.
#[derive(Debug, PartialEq, Eq)]
pub struct Pending<T> {
    pub plan: Plan,
    pub phase: Phase,
    pub sendbuf: Vec<T>,
    pub dest: i32,
    pub source: i32,
}

/// Where a refresh stands.
#[derive(Debug, PartialEq, Eq)]
pub enum Halo<T> {
    /// A transfer is pending.
    Exchange(Pending<T>),
    /// The halo is up to date.
    Done,
}

/// The mathematical value of a [`Pending`].
pub struct PendingView<T> {
    pub plan: Plan,
    pub phase: Phase,
    pub sendbuf: Seq<T>,
    pub dest: int,
    pub source: int,
}

/// The mathematical value of a [`Halo`].
pub enum HaloView<T> {
    Exchange(PendingView<T>),
    Done,
}

impl<T> View for Pending<T> {
    type V = PendingView<T>;

    open spec fn view(&self) -> PendingView<T> {
        PendingView {
            plan: self.plan,
            phase: self.phase,
            sendbuf: self.sendbuf@,
            dest: self.dest as int,
            source: self.source as int,
        }
    }
}

impl<T> View for Halo<T> {
    type V = HaloView<T>;

    open spec fn view(&self) -> HaloView<T> {
        match self {
            Halo::Exchange(p) => HaloView::Exchange(p@),
            Halo::Done => HaloView::Done,
        }
    }
}

impl Plan {
    /// The transfer that a refresh starts with.
    pub open spec fn first(self) -> Phase {
        match self {
            Plan::X => Phase::Right,
            Plan::Y => Phase::Up,
            Plan::Both => Phase::Right,
        }
    }

    /// `phase` is one of the transfers of the refresh.
    pub open spec fn has(self, phase: Phase) -> bool {
        match self {
            Plan::X => phase == Phase::Right || phase == Phase::Left,
            Plan::Y => phase == Phase::Up || phase == Phase::Down,
            Plan::Both => true,
        }
    }

    /// The transfer that follows `phase`, if the refresh is not over.
    pub open spec fn following(self, phase: Phase) -> Option<Phase> {
        match phase {
            Phase::Right => Some(Phase::Left),
            Phase::Left => if self == Plan::Both {
                Some(Phase::Up)
            } else {
                None
            },
            Phase::Up => Some(Phase::Down),
            Phase::Down => None,
        }
    }
}

impl Layout {
    /// Column `ix` of the tile `t`, without its two halo cells.
    pub open spec fn column<T>(self, t: Seq<T>, ix: int) -> Seq<T> {
        Seq::new(self.ly as nat, |i: int| t[self.cell(ix, i + 1)])
    }

    /// Row `iy` of the tile `t`, with its two halo cells.
    pub open spec fn row<T>(self, t: Seq<T>, iy: int) -> Seq<T> {
        Seq::new((self.lx + 2) as nat, |i: int| t[self.cell(i, iy)])
    }

    /// The tile `t` with `buf` in place of column `ix`, the two halo cells of
    /// the column left as they are.
    pub open spec fn with_column<T>(self, t: Seq<T>, ix: int, buf: Seq<T>) -> Seq<T> {
        Seq::new(
            t.len(),
            |k: int|
                if self.col_of(k) == ix && 1 <= self.row_of(k) <= self.ly {
                    buf[self.row_of(k) - 1]
                } else {
                    t[k]
                },
        )
    }

    /// The tile `t` with `buf` in place of row `iy`, halo cells included.
    pub open spec fn with_row<T>(self, t: Seq<T>, iy: int, buf: Seq<T>) -> Seq<T> {
        Seq::new(
            t.len(),
            |k: int|
                if self.row_of(k) == iy {
                    buf[self.col_of(k)]
                } else {
                    t[k]
                },
        )
    }

    /// The rank that the data of `phase` goes to.
    pub open spec fn dest(self, phase: Phase) -> int {
        match phase {
            Phase::Right => self.neighbor(1, 0),
            Phase::Left => self.neighbor(-1, 0),
            Phase::Up => self.neighbor(0, -1),
            Phase::Down => self.neighbor(0, 1),
        }
    }

    /// The rank that the data of `phase` comes from.
    pub open spec fn source(self, phase: Phase) -> int {
        match phase {
            Phase::Right => self.neighbor(-1, 0),
            Phase::Left => self.neighbor(1, 0),
            Phase::Up => self.neighbor(0, 1),
            Phase::Down => self.neighbor(0, -1),
        }
    }

    /// The number of values that `phase` moves each way.
    pub open spec fn transfer_len(self, phase: Phase) -> int {
        match phase {
            Phase::Right => self.ly,
            Phase::Left => self.ly,
            Phase::Up => self.lx + 2,
            Phase::Down => self.lx + 2,
        }
    }

    /// What the process with tile `t` sends in `phase`.
    pub open spec fn outgoing<T>(self, phase: Phase, t: Seq<T>) -> Seq<T> {
        match phase {
            Phase::Right => self.column(t, self.lx),
            Phase::Left => self.column(t, 1),
            Phase::Up => self.row(t, 1),
            Phase::Down => self.row(t, self.ly),
        }
    }

    /// The tile `t` after `phase` has brought `buf`.
    pub open spec fn incoming<T>(self, phase: Phase, t: Seq<T>, buf: Seq<T>) -> Seq<T> {
        match phase {
            Phase::Right => self.with_column(t, 0, buf),
            Phase::Left => self.with_column(t, self.lx + 1, buf),
            Phase::Up => self.with_row(t, self.ly + 1, buf),
            Phase::Down => self.with_row(t, 0, buf),
        }
    }

    /// The transfer `phase` of the refresh `plan`, as the process with tile
    /// `t` has to make it.
    pub open spec fn exchange<T>(self, plan: Plan, phase: Phase, t: Seq<T>) -> PendingView<T> {
        PendingView {
            plan,
            phase,
            sendbuf: self.outgoing(phase, t),
            dest: self.dest(phase),
            source: self.source(phase),
        }
    }

    /// The first step of the refresh `plan` of the tile `t`.
    pub open spec fn begin<T>(self, plan: Plan, t: Seq<T>) -> HaloView<T> {
        HaloView::Exchange(self.exchange(plan, plan.first(), t))
    }

    /// The tile and the next step once the transfer `phase` of the refresh
    /// `plan` has brought `buf` for the tile `t`.
    pub open spec fn receive<T>(self, t: Seq<T>, plan: Plan, phase: Phase, buf: Seq<T>) -> Result<
        (Seq<T>, HaloView<T>),
        CommunicationError,
    > {
        if !plan.has(phase) || buf.len() != self.transfer_len(phase) {
            Err(CommunicationError::Desynchronized)
        } else {
            let tile = self.incoming(phase, t, buf);
            match plan.following(phase) {
                Some(next) => Ok((tile, HaloView::Exchange(self.exchange(plan, next, tile)))),
                None => Ok((tile, HaloView::Done)),
            }
        }
    }
}

impl Layout {
    /// All tiles, one for each rank, after every process has made the
    /// transfer `phase`: each has taken what its source has sent.
    pub open spec fn round<T>(self, phase: Phase, tiles: Seq<Seq<T>>) -> Seq<Seq<T>> {
        Seq::new(
            tiles.len(),
            |r: int|
                self.at(r).incoming(
                    phase,
                    tiles[r],
                    self.at(self.at(r).source(phase)).outgoing(
                        phase,
                        tiles[self.at(r).source(phase)],
                    ),
                ),
        )
    }

    /// All tiles after every process has refreshed its halo: the X axis,
    /// then the Y axis.
    pub open spec fn refreshed<T>(self, tiles: Seq<Seq<T>>) -> Seq<Seq<T>> {
        self.round(
            Phase::Down,
            self.round(Phase::Up, self.round(Phase::Left, self.round(Phase::Right, tiles))),
        )
    }

    /// The global column that column `ix` of the tile with its halo shows,
    /// the global grid being periodic.
    pub open spec fn global_x(self, ix: int) -> int {
        (self.origin_x() + ix - 1) % self.side()
    }

    /// The global row that row `iy` of the tile with its halo shows, the
    /// global grid being periodic.
    pub open spec fn global_y(self, iy: int) -> int {
        (self.origin_y() + iy - 1) % self.side()
    }

    /// The value of the global grid `global` that belongs in column `ix` and
    /// row `iy` of the tile with its halo.
    pub open spec fn seen<T>(self, global: Seq<T>, ix: int, iy: int) -> T {
        global[self.global_x(ix) + self.global_y(iy) * self.side()]
    }

    /// In the tiles of all ranks, the columns `x0` to `x1` of the rows `y0`
    /// to `y1` hold the values of the global grid that belong there.
    pub open spec fn shows<T>(
        self,
        global: Seq<T>,
        tiles: Seq<Seq<T>>,
        x0: int,
        x1: int,
        y0: int,
        y1: int,
    ) -> bool {
        &&& tiles.len() == self.procs
        &&& forall|r: int| 0 <= r < self.procs ==> (#[trigger] tiles[r]).len() == self.tile_len()
        &&& forall|r: int, ix: int, iy: int|
            #![trigger tiles[r][self.cell(ix, iy)]]
            0 <= r < self.procs && x0 <= ix <= x1 && y0 <= iy <= y1 ==> tiles[r][self.cell(ix, iy)]
                == self.at(r).seen(global, ix, iy)
    }
}

/// On a periodic axis of `n` tiles of `l` cells, the cell `e` of the tile
/// `k` places away from tile `c` is the cell `k * l + e` of tile `c`.
proof fn lemma_wrap_cells(c: int, k: int, n: int, l: int, e: int)
    requires
        0 < n,
        0 < l,
    ensures
        (((c + k) % n) * l + e) % (l * n) == (c * l + k * l + e) % (l * n),
{
    let q = (c + k) / n;
    let m = l * n;
    lemma_fundamental_div_mod(c + k, n);
    assert(((c + k) % n) * l + e == m * (-q) + (c * l + k * l + e)) by (nonlinear_arith)
        requires
            c + k == n * q + (c + k) % n,
            m == l * n,
    ;
    assert(0 < m) by (nonlinear_arith)
        requires
            0 < n,
            0 < l,
            m == l * n,
    ;
    vstd::arithmetic::div_mod::lemma_mod_multiples_vanish(-q, c * l + k * l + e, m);
}

/// The tile `dx` columns and `dy` rows away shows, `dx` tile widths and `dy`
/// tile heights further, what this tile shows.
proof fn lemma_seen_from_neighbor<T>(d: Layout, global: Seq<T>, dx: int, dy: int, ix: int, iy: int)
    requires
        d.wf(),
        0 < d.lx,
        0 < d.ly,
    ensures
        d.at(d.neighbor(dx, dy)).seen(global, ix, iy) == d.seen(
            global,
            ix + dx * d.lx,
            iy + dy * d.ly,
        ),
{
    lemma_neighbor_is_rank(d, dx, dy);
    let n = d.at(d.neighbor(dx, dy));
    lemma_wrap_cells(d.cx(), dx, d.gx, d.lx, ix - 1);
    lemma_wrap_cells(d.cy(), dy, d.gy, d.ly, iy - 1);
    assert(n.side() == d.side());
    assert(d.side() == d.lx * d.gx && d.side() == d.ly * d.gy);
    assert(n.origin_x() == ((d.cx() + dx) % d.gx) * d.lx);
    assert(n.origin_y() == ((d.cy() + dy) % d.gy) * d.ly);
    assert(n.global_x(ix) == d.global_x(ix + dx * d.lx));
    assert(n.global_y(iy) == d.global_y(iy + dy * d.ly));
}

/// One transfer, made by all processes, fills one more line of halo cells
/// with the values of the global grid that belong there, and leaves the rest
/// of each tile as it was.
proof fn lemma_round<T>(
    d: Layout,
    global: Seq<T>,
    tiles: Seq<Seq<T>>,
    phase: Phase,
    x0: int,
    x1: int,
    y0: int,
    y1: int,
)
    requires
        d.wf(),
        0 < d.lx,
        0 < d.ly,
        d.shows(global, tiles, x0, x1, y0, y1),
        match phase {
            Phase::Right => x0 == 1 && x1 == d.lx && y0 == 1 && y1 == d.ly,
            Phase::Left => x0 == 0 && x1 == d.lx && y0 == 1 && y1 == d.ly,
            Phase::Up => x0 == 0 && x1 == d.lx + 1 && y0 == 1 && y1 == d.ly,
            Phase::Down => x0 == 0 && x1 == d.lx + 1 && y0 == 1 && y1 == d.ly + 1,
        },
    ensures
        match phase {
            Phase::Right => d.shows(global, d.round(phase, tiles), 0, d.lx, 1, d.ly),
            Phase::Left => d.shows(global, d.round(phase, tiles), 0, d.lx + 1, 1, d.ly),
            Phase::Up => d.shows(global, d.round(phase, tiles), 0, d.lx + 1, 1, d.ly + 1),
            Phase::Down => d.shows(global, d.round(phase, tiles), 0, d.lx + 1, 0, d.ly + 1),
        },
{
    let after = d.round(phase, tiles);
    let (nx0, nx1, ny0, ny1): (int, int, int, int) = match phase {
        Phase::Right => (0int, d.lx, 1int, d.ly),
        Phase::Left => (0int, d.lx + 1, 1int, d.ly),
        Phase::Up => (0int, d.lx + 1, 1int, d.ly + 1),
        Phase::Down => (0int, d.lx + 1, 0int, d.ly + 1),
    };
    assert forall|r: int| 0 <= r < d.procs implies (#[trigger] after[r]).len() == d.tile_len() by {
        assert(tiles[r].len() == d.tile_len());
    }
    assert forall|r: int, ix: int, iy: int|
        0 <= r < d.procs && nx0 <= ix <= nx1 && ny0 <= iy <= ny1 implies #[trigger] after[r][d.cell(
        ix,
        iy,
    )] == d.at(r).seen(global, ix, iy) by {
        let e = d.at(r);
        let s = e.source(phase);
        let k = d.cell(ix, iy);
        lemma_cell_bounds(d, ix, iy);
        assert(tiles[r].len() == d.tile_len());
        assert(e.col_of(k) == ix && e.row_of(k) == iy);
        match phase {
            Phase::Right => {
                lemma_neighbor_is_rank(e, -1, 0);
                lemma_seen_from_neighbor(e, global, -1, 0, d.lx, iy);
                if ix == 0 {
                    assert(tiles[s][d.cell(d.lx, iy)] == d.at(s).seen(global, d.lx, iy));
                    assert(e.column(tiles[s], d.lx)[iy - 1] == tiles[s][d.cell(d.lx, iy - 1 + 1)]);
                } else {
                    assert(tiles[r][d.cell(ix, iy)] == e.seen(global, ix, iy));
                }
            },
            Phase::Left => {
                lemma_neighbor_is_rank(e, 1, 0);
                lemma_seen_from_neighbor(e, global, 1, 0, 1, iy);
                if ix == d.lx + 1 {
                    assert(tiles[s][d.cell(1, iy)] == d.at(s).seen(global, 1, iy));
                    assert(e.column(tiles[s], 1)[iy - 1] == tiles[s][d.cell(1, iy - 1 + 1)]);
                } else {
                    assert(tiles[r][d.cell(ix, iy)] == e.seen(global, ix, iy));
                }
            },
            Phase::Up => {
                lemma_neighbor_is_rank(e, 0, 1);
                lemma_seen_from_neighbor(e, global, 0, 1, ix, 1);
                if iy == d.ly + 1 {
                    assert(tiles[s][d.cell(ix, 1)] == d.at(s).seen(global, ix, 1));
                    assert(e.row(tiles[s], 1)[ix] == tiles[s][d.cell(ix, 1)]);
                } else {
                    assert(tiles[r][d.cell(ix, iy)] == e.seen(global, ix, iy));
                }
            },
            Phase::Down => {
                lemma_neighbor_is_rank(e, 0, -1);
                lemma_seen_from_neighbor(e, global, 0, -1, ix, d.ly);
                if iy == 0 {
                    assert(tiles[s][d.cell(ix, d.ly)] == d.at(s).seen(global, ix, d.ly));
                    assert(e.row(tiles[s], d.ly)[ix] == tiles[s][d.cell(ix, d.ly)]);
                } else {
                    assert(tiles[r][d.cell(ix, iy)] == e.seen(global, ix, iy));
                }
            },
        }
    }
}

/// Tiles that hold their part of a global grid show it in all their cells,
/// the halo aside.
pub proof fn lemma_held_is_shown<T>(d: Layout, global: Seq<T>, tiles: Seq<Seq<T>>)
    requires
        d.wf(),
        tiles.len() == d.procs,
        forall|r: int| 0 <= r < d.procs ==> (#[trigger] tiles[r]).len() == d.tile_len(),
        d.tiles_hold(global, tiles),
    ensures
        d.shows(global, tiles, 1, d.lx, 1, d.ly),
{
    assert forall|r: int, ix: int, iy: int|
        0 <= r < d.procs && 1 <= ix <= d.lx && 1 <= iy <= d.ly implies #[trigger] tiles[r][d.cell(
        ix,
        iy,
    )] == d.at(r).seen(global, ix, iy) by {
        let e = d.at(r);
        lemma_tile_bounds(e);
        assert(tiles[r][d.cell(ix - 1 + 1, iy - 1 + 1)] == global[d.place(r, ix - 1, iy - 1)]);
        vstd::arithmetic::div_mod::lemma_small_mod(
            (e.origin_x() + ix - 1) as nat,
            d.side() as nat,
        );
        vstd::arithmetic::div_mod::lemma_small_mod(
            (e.origin_y() + iy - 1) as nat,
            d.side() as nat,
        );
    }
}

/// What a process makes of the values that its source has sent is its tile
/// after the transfer has been made by all.
pub proof fn lemma_receive_in_round<T>(d: Layout, tiles: Seq<Seq<T>>, plan: Plan, phase: Phase)
    requires
        d.wf(),
        plan.has(phase),
        tiles.len() == d.procs,
    ensures
        d.receive(
            tiles[d.rank],
            plan,
            phase,
            d.at(d.source(phase)).outgoing(phase, tiles[d.source(phase)]),
        ) matches Ok(step) && step.0 == d.round(phase, tiles)[d.rank],
{
}

/// In every transfer of a refresh, the rank that a process receives from
/// sends to that process, and the rank that it sends to receives from it.
pub proof fn lemma_transfers_pair(d: Layout, phase: Phase)
    requires
        d.wf(),
    ensures
        0 <= d.source(phase) < d.procs,
        0 <= d.dest(phase) < d.procs,
        d.at(d.source(phase)).dest(phase) == d.rank,
        d.at(d.dest(phase)).source(phase) == d.rank,
{
    lemma_neighbor_is_rank(d, 1, 0);
    lemma_neighbor_is_rank(d, -1, 0);
    lemma_neighbor_is_rank(d, 0, 1);
    lemma_neighbor_is_rank(d, 0, -1);
    lemma_neighbor_back(d, 1, 0);
    lemma_neighbor_back(d, -1, 0);
    lemma_neighbor_back(d, 0, 1);
    lemma_neighbor_back(d, 0, -1);
}

/// Where every tile holds its part of a global grid, a refresh by all
/// processes, the X axis first, leaves in every cell of every halo, the
/// corners too, the value of the cell next to it in the periodic grid.
pub proof fn lemma_refresh<T>(d: Layout, global: Seq<T>, tiles: Seq<Seq<T>>)
    requires
        d.wf(),
        0 < d.lx,
        0 < d.ly,
        d.shows(global, tiles, 1, d.lx, 1, d.ly),
    ensures
        d.shows(global, d.refreshed(tiles), 0, d.lx + 1, 0, d.ly + 1),
{
    let t1 = d.round(Phase::Right, tiles);
    lemma_round(d, global, tiles, Phase::Right, 1, d.lx, 1, d.ly);
    let t2 = d.round(Phase::Left, t1);
    lemma_round(d, global, t1, Phase::Left, 0, d.lx, 1, d.ly);
    let t3 = d.round(Phase::Up, t2);
    lemma_round(d, global, t2, Phase::Up, 0, d.lx + 1, 1, d.ly);
    lemma_round(d, global, t3, Phase::Down, 0, d.lx + 1, 1, d.ly + 1);
}

impl Plan {
    fn first_phase(self) -> (p: Phase)
        ensures
            p == self.first(),
    {
        match self {
            Plan::X => Phase::Right,
            Plan::Y => Phase::Up,
            Plan::Both => Phase::Right,
        }
    }

    fn has_phase(self, phase: Phase) -> (b: bool)
        ensures
            b == self.has(phase),
    {
        match self {
            Plan::X => match phase {
                Phase::Right => true,
                Phase::Left => true,
                _ => false,
            },
            Plan::Y => match phase {
                Phase::Up => true,
                Phase::Down => true,
                _ => false,
            },
            Plan::Both => true,
        }
    }

    fn following_phase(self, phase: Phase) -> (n: Option<Phase>)
        ensures
            n == self.following(phase),
    {
        match phase {
            Phase::Right => Some(Phase::Left),
            Phase::Left => match self {
                Plan::Both => Some(Phase::Up),
                _ => None,
            },
            Phase::Up => Some(Phase::Down),
            Phase::Down => None,
        }
    }
}

impl MPIinfo {
    /// Column `ix` of the tile, without its two halo cells.
    fn pack_column<T: Copy>(&self, local_data: &Vec<T>, ix: usize) -> (buf: Vec<T>)
        requires
            local_data@.len() == self@.tile_len(),
            ix < self@.lx + 2,
        ensures
            buf@ == self@.column(local_data@, ix as int),
    {
        let (lx, ly) = self.tile_size();
        let mut buf: Vec<T> = Vec::new();
        let mut i: usize = 0;
        while i < ly
            invariant
                self@.valid(),
                lx == self@.lx,
                ly == self@.ly,
                lx + 2 <= usize::MAX,
                self@.tile_len() <= usize::MAX,
                ix < lx + 2,
                local_data@.len() == self@.tile_len(),
                i <= ly,
                buf@.len() == i,
                forall|j: int| 0 <= j < i ==> buf@[j] == local_data@[self@.cell(ix as int, j + 1)],
            decreases ly - i,
        {
            proof {
                lemma_cell_bounds(self@, ix as int, i + 1);
            }
            let index: usize = ix + (i + 1) * (lx + 2);
            buf.push(local_data[index]);
            i = i + 1;
        }
        assert(buf@ =~= self@.column(local_data@, ix as int));
        buf
    }

    /// Row `iy` of the tile, with its two halo cells.
    fn pack_row<T: Copy>(&self, local_data: &Vec<T>, iy: usize) -> (buf: Vec<T>)
        requires
            local_data@.len() == self@.tile_len(),
            iy < self@.ly + 2,
        ensures
            buf@ == self@.row(local_data@, iy as int),
    {
        let (lx, ly) = self.tile_size();
        let mut buf: Vec<T> = Vec::new();
        let mut i: usize = 0;
        while i < lx + 2
            invariant
                self@.valid(),
                lx == self@.lx,
                ly == self@.ly,
                lx + 2 <= usize::MAX,
                self@.tile_len() <= usize::MAX,
                iy < ly + 2,
                local_data@.len() == self@.tile_len(),
                i <= lx + 2,
                buf@.len() == i,
                forall|j: int| 0 <= j < i ==> buf@[j] == local_data@[self@.cell(j, iy as int)],
            decreases lx + 2 - i,
        {
            proof {
                lemma_cell_bounds(self@, i as int, iy as int);
            }
            let index: usize = i + iy * (lx + 2);
            buf.push(local_data[index]);
            i = i + 1;
        }
        assert(buf@ =~= self@.row(local_data@, iy as int));
        buf
    }

    /// Puts `buf` in place of column `ix` of the tile, the two halo cells of
    /// the column left as they are.
    fn unpack_column<T: Copy>(&self, local_data: &mut Vec<T>, ix: usize, buf: &Vec<T>)
        requires
            old(local_data)@.len() == self@.tile_len(),
            ix < self@.lx + 2,
            buf@.len() == self@.ly,
        ensures
            final(local_data)@ == self@.with_column(old(local_data)@, ix as int, buf@),
    {
        let (lx, ly) = self.tile_size();
        let mut i: usize = 0;
        while i < ly
            invariant
                self@.valid(),
                lx == self@.lx,
                ly == self@.ly,
                lx + 2 <= usize::MAX,
                self@.tile_len() <= usize::MAX,
                ix < lx + 2,
                buf@.len() == ly,
                local_data@.len() == self@.tile_len(),
                local_data@.len() == old(local_data)@.len(),
                i <= ly,
                forall|k: int|
                    #![trigger local_data@[k]]
                    0 <= k < local_data@.len() ==> local_data@[k] == if self@.col_of(k) == ix && 1
                        <= self@.row_of(k) <= i {
                        buf@[self@.row_of(k) - 1]
                    } else {
                        old(local_data)@[k]
                    },
            decreases ly - i,
        {
            proof {
                lemma_cell_bounds(self@, ix as int, i + 1);
            }
            let index: usize = ix + (i + 1) * (lx + 2);
            let ghost before = local_data@;
            local_data.set(index, buf[i]);
            proof {
                assert forall|k: int| 0 <= k < local_data@.len() implies #[trigger] local_data@[k]
                    == if self@.col_of(k) == ix && 1 <= self@.row_of(k) <= i + 1 {
                    buf@[self@.row_of(k) - 1]
                } else {
                    old(local_data)@[k]
                } by {
                    lemma_cell_of_index(self@, k);
                    if k != index {
                        assert(local_data@[k] == before[k]);
                    }
                }
            }
            i = i + 1;
        }
        assert(local_data@ =~= self@.with_column(old(local_data)@, ix as int, buf@));
    }

    /// Puts `buf` in place of row `iy` of the tile, halo cells included.
    fn unpack_row<T: Copy>(&self, local_data: &mut Vec<T>, iy: usize, buf: &Vec<T>)
        requires
            old(local_data)@.len() == self@.tile_len(),
            iy < self@.ly + 2,
            buf@.len() == self@.lx + 2,
        ensures
            final(local_data)@ == self@.with_row(old(local_data)@, iy as int, buf@),
    {
        let (lx, ly) = self.tile_size();
        let mut i: usize = 0;
        while i < lx + 2
            invariant
                self@.valid(),
                lx == self@.lx,
                ly == self@.ly,
                lx + 2 <= usize::MAX,
                self@.tile_len() <= usize::MAX,
                iy < ly + 2,
                buf@.len() == lx + 2,
                local_data@.len() == self@.tile_len(),
                local_data@.len() == old(local_data)@.len(),
                i <= lx + 2,
                forall|k: int|
                    #![trigger local_data@[k]]
                    0 <= k < local_data@.len() ==> local_data@[k] == if self@.row_of(k) == iy
                        && self@.col_of(k) < i {
                        buf@[self@.col_of(k)]
                    } else {
                        old(local_data)@[k]
                    },
            decreases lx + 2 - i,
        {
            proof {
                lemma_cell_bounds(self@, i as int, iy as int);
            }
            let index: usize = i + iy * (lx + 2);
            let ghost before = local_data@;
            local_data.set(index, buf[i]);
            proof {
                assert forall|k: int| 0 <= k < local_data@.len() implies #[trigger] local_data@[k]
                    == if self@.row_of(k) == iy && self@.col_of(k) < i + 1 {
                    buf@[self@.col_of(k)]
                } else {
                    old(local_data)@[k]
                } by {
                    lemma_cell_of_index(self@, k);
                    if k != index {
                        assert(local_data@[k] == before[k]);
                    }
                }
            }
            i = i + 1;
        }
        proof {
            assert forall|k: int| 0 <= k < local_data@.len() implies self@.col_of(k) < lx + 2 by {
                lemma_cell_of_index(self@, k);
            }
            assert(local_data@ =~= self@.with_row(old(local_data)@, iy as int, buf@));
        }
    }

    /// The transfer `phase` of the refresh `plan`, for the tile as it is.
    fn exchange<T: Copy>(&self, plan: Plan, phase: Phase, local_data: &Vec<T>) -> (p: Pending<T>)
        requires
            local_data@.len() == self@.tile_len(),
        ensures
            p@ == self@.exchange(plan, phase, local_data@),
    {
        let (lx, ly) = self.tile_size();
        match phase {
            Phase::Right => Pending {
                plan,
                phase,
                sendbuf: self.pack_column(local_data, lx),
                dest: self.get_rank(1, 0),
                source: self.get_rank(-1, 0),
            },
            Phase::Left => Pending {
                plan,
                phase,
                sendbuf: self.pack_column(local_data, 1),
                dest: self.get_rank(-1, 0),
                source: self.get_rank(1, 0),
            },
            Phase::Up => Pending {
                plan,
                phase,
                sendbuf: self.pack_row(local_data, 1),
                dest: self.get_rank(0, -1),
                source: self.get_rank(0, 1),
            },
            Phase::Down => Pending {
                plan,
                phase,
                sendbuf: self.pack_row(local_data, ly),
                dest: self.get_rank(0, 1),
                source: self.get_rank(0, -1),
            },
        }
    }

    /// Starts a refresh of the halo columns: the first of the two transfers
    /// along the X axis is pending.
    pub fn sendrecv_x<T: Copy>(&self, local_data: &Vec<T>) -> (h: Halo<T>)
        requires
            local_data@.len() == self@.tile_len(),
        ensures
            h@ == self@.begin(Plan::X, local_data@),
    {
        Halo::Exchange(self.exchange(Plan::X, Plan::X.first_phase(), local_data))
    }

    /// Starts a refresh of the halo rows: the first of the two transfers
    /// along the Y axis is pending. For the corners to be right, the halo
    /// columns have to be up to date.
    pub fn sendrecv_y<T: Copy>(&self, local_data: &Vec<T>) -> (h: Halo<T>)
        requires
            local_data@.len() == self@.tile_len(),
        ensures
            h@ == self@.begin(Plan::Y, local_data@),
    {
        Halo::Exchange(self.exchange(Plan::Y, Plan::Y.first_phase(), local_data))
    }

    /// Starts a refresh of the whole halo: the X axis, then the Y axis.
    pub fn sendrecv<T: Copy>(&self, local_data: &Vec<T>) -> (h: Halo<T>)
        requires
            local_data@.len() == self@.tile_len(),
        ensures
            h@ == self@.begin(Plan::Both, local_data@),
    {
        Halo::Exchange(self.exchange(Plan::Both, Plan::Both.first_phase(), local_data))
    }

    /// Goes on with a refresh once the transfer `phase` of `plan` has been
    /// made and has brought `recvbuf`.
    ///
    /// The values are put into the halo cells that the transfer fills, and
    /// the result names the transfer that is pending next, packed from the
    /// tile as it then is. A buffer of the wrong length, or a transfer that
    /// the refresh does not hold, is an error and changes nothing.
    pub fn receive<T: Copy>(
        &self,
        local_data: &mut Vec<T>,
        plan: Plan,
        phase: Phase,
        recvbuf: &Vec<T>,
    ) -> (r: Result<Halo<T>, CommunicationError>)
        requires
            old(local_data)@.len() == self@.tile_len(),
        ensures
            match self@.receive(old(local_data)@, plan, phase, recvbuf@) {
                Ok((tile, next)) => r matches Ok(h) && h@ == next && final(local_data)@ == tile,
                Err(e) => r matches Err(x) && x == e && final(local_data)@ == old(local_data)@,
            },
    {
        let (lx, ly) = self.tile_size();
        let expected: usize = match phase {
            Phase::Right => ly,
            Phase::Left => ly,
            Phase::Up => lx + 2,
            Phase::Down => lx + 2,
        };
        if !plan.has_phase(phase) || recvbuf.len() != expected {
            return Err(CommunicationError::Desynchronized);
        }
        match phase {
            Phase::Right => self.unpack_column(local_data, 0, recvbuf),
            Phase::Left => self.unpack_column(local_data, lx + 1, recvbuf),
            Phase::Up => self.unpack_row(local_data, ly + 1, recvbuf),
            Phase::Down => self.unpack_row(local_data, 0, recvbuf),
        }
        match plan.following_phase(phase) {
            Some(next) => Ok(Halo::Exchange(self.exchange(plan, next, local_data))),
            None => Ok(Halo::Done),
        }
    }
}

} // verus!
