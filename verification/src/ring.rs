//! The decomposition of a periodic line of cells: every process owns one
//! stretch of it, with one halo cell at each end.
//!
//! This is the one-dimensional counterpart of the process grid. A gather
//! needs no reordering here: the contributions of the ranks, one after the
//! other, are the line itself.

use vstd::prelude::*;
use vstd::arithmetic::div_mod::lemma_fundamental_div_mod;
use vstd::arithmetic::div_mod::lemma_fundamental_div_mod_converse;
use crate::error::{CommunicationError, ConfigError};
use crate::gather::{Gather, GatherView};

verus! {

/// The decomposition of a line as one process sees it, in mathematical
/// integers: the process `rank` of `procs`, owning `size` cells.
pub struct Stretch {
    pub rank: int,
    pub procs: int,
    pub size: int,
}

/// The two paired transfers that refresh the halo of a stretch.
#[derive(Debug, Clone, Copy, PartialEq, Eq, Structural)]
pub enum Side {
    /// The last cell goes right; the halo cell on the left comes from the
    /// left.
    Right,
    /// The first cell goes left; the halo cell on the right comes from the
    /// right.
    Left,
}

/// Where the refresh of the halo of a stretch stands.
#[derive(Debug, PartialEq, Eq)]
pub enum RingStep<T> {
    /// A transfer is pending: send `value` to `dest` and receive one value
    /// from `source`.
    Exchange { side: Side, value: T, dest: i32, source: i32 },
    /// The halo is up to date.
    Done,
}

/// The mathematical value of a [`RingStep`].
pub enum RingStepView<T> {
    Exchange { side: Side, value: T, dest: int, source: int },
    Done,
}

impl<T> View for RingStep<T> {
    type V = RingStepView<T>;

    open spec fn view(&self) -> RingStepView<T> {
        match self {
            RingStep::Exchange { side, value, dest, source } => RingStepView::Exchange {
                side: *side,
                value: *value,
                dest: *dest as int,
                source: *source as int,
            },
            RingStep::Done => RingStepView::Done,
        }
    }
}

impl Stretch {
    /// The rank is one of the processes, and owns a stretch.
    pub open spec fn wf(self) -> bool {
        &&& 0 <= self.rank < self.procs
        &&& 0 <= self.size
    }

    /// What holds of every decomposition that [`Ring::new`] hands out.
    pub open spec fn valid(self) -> bool {
        &&& self.wf()
        &&& self.procs <= i32::MAX
        &&& self.size * self.procs + 2 <= usize::MAX
    }

    /// The same decomposition as process `r` sees it.
    pub open spec fn at(self, r: int) -> Stretch {
        Stretch { rank: r, ..self }
    }

    /// The length of the whole line.
    pub open spec fn length(self) -> int {
        self.size * self.procs
    }

    /// The number of cells of a stretch with its halo.
    pub open spec fn lattice_len(self) -> int {
        self.size + 2
    }

    /// The rank `d` places away, the line being periodic.
    pub open spec fn neighbor(self, d: int) -> int {
        (self.rank + d) % self.procs
    }

    /// The global index of the first cell of the stretch.
    pub open spec fn origin(self) -> int {
        self.rank * self.size
    }

    /// The stretch holds the global cell `g`.
    pub open spec fn owns(self, g: int) -> bool {
        self.origin() <= g < self.origin() + self.size
    }

    /// The index, in the stretch with its halo, of the global cell `g`.
    pub open spec fn local_index(self, g: int) -> int {
        g - self.origin() + 1
    }

    /// The cells of the stretch `t` without its halo.
    pub open spec fn interior<T>(self, t: Seq<T>) -> Seq<T> {
        t.subrange(1, self.size + 1)
    }

    /// The rank that the data of `side` goes to.
    pub open spec fn dest(self, side: Side) -> int {
        match side {
            Side::Right => self.neighbor(1),
            Side::Left => self.neighbor(-1),
        }
    }

    /// The rank that the data of `side` comes from.
    pub open spec fn source(self, side: Side) -> int {
        match side {
            Side::Right => self.neighbor(-1),
            Side::Left => self.neighbor(1),
        }
    }

    /// What the process with stretch `t` sends in `side`.
    pub open spec fn outgoing<T>(self, side: Side, t: Seq<T>) -> T {
        match side {
            Side::Right => t[self.size],
            Side::Left => t[1],
        }
    }

    /// The stretch `t` after `side` has brought `value`.
    pub open spec fn incoming<T>(self, side: Side, t: Seq<T>, value: T) -> Seq<T> {
        match side {
            Side::Right => t.update(0, value),
            Side::Left => t.update(self.size + 1, value),
        }
    }

    /// The transfer `side`, as the process with stretch `t` has to make it.
    pub open spec fn exchange<T>(self, side: Side, t: Seq<T>) -> RingStepView<T> {
        RingStepView::Exchange {
            side,
            value: self.outgoing(side, t),
            dest: self.dest(side),
            source: self.source(side),
        }
    }

    /// The next step once `side` has been made: what is sent comes from the
    /// stretch `t`, which the refresh does not change.
    pub open spec fn following<T>(self, side: Side, t: Seq<T>) -> RingStepView<T> {
        match side {
            Side::Right => self.exchange(Side::Left, t),
            Side::Left => RingStepView::Done,
        }
    }

    /// The part of the process with stretch `t` in a gather at rank 0.
    pub open spec fn contribution<T>(self, t: Seq<T>) -> GatherView<T> {
        if self.rank == 0 {
            GatherView::Root { sendbuf: self.interior(t), count: self.length() }
        } else {
            GatherView::Leaf { sendbuf: self.interior(t), root: 0 }
        }
    }

    /// All stretches, one for each rank, after every process has made the
    /// transfer `side`, sending from `from` and receiving into `into`.
    pub open spec fn round<T>(self, side: Side, from: Seq<Seq<T>>, into: Seq<Seq<T>>) -> Seq<
        Seq<T>,
    > {
        Seq::new(
            into.len(),
            |r: int|
                self.at(r).incoming(
                    side,
                    into[r],
                    self.at(self.at(r).source(side)).outgoing(side, from[self.at(r).source(side)]),
                ),
        )
    }

    /// Every stretch of `tiles`, one for each rank, holds its part of the
    /// line `global`.
    pub open spec fn tiles_hold<T>(self, global: Seq<T>, tiles: Seq<Seq<T>>) -> bool {
        &&& tiles.len() == self.procs
        &&& forall|r: int| 0 <= r < self.procs ==> (#[trigger] tiles[r]).len() == self.lattice_len()
        &&& forall|r: int, i: int|
            #![trigger tiles[r][i + 1]]
            0 <= r < self.procs && 0 <= i < self.size ==> tiles[r][i + 1] == global[self.at(
                r,
            ).origin() + i]
    }

    /// What a gather hands to the coordinator: the contributions of all
    /// ranks, one after the other in ascending order.
    pub open spec fn concatenated<T>(self, tiles: Seq<Seq<T>>) -> Seq<T> {
        Seq::new(
            self.length() as nat,
            |j: int| self.interior(tiles[j / self.size])[j % self.size],
        )
    }
}

/// The decomposition of a line of `l` cells that process `rank` of `procs`
/// sees, or why there is none.
pub open spec fn stretch_of(rank: int, procs: int, l: int) -> Result<Stretch, ConfigError> {
    if procs < 1 || rank < 0 || rank >= procs {
        Err(ConfigError::BadProcessCount)
    } else if l % procs != 0 {
        Err(ConfigError::NotDivisible)
    } else if l + 2 > usize::MAX {
        Err(ConfigError::TooLarge)
    } else {
        Ok(Stretch { rank, procs, size: l / procs })
    }
}

/// Every neighbour is a rank, and the rank that a process sends to receives
/// from that process.
pub proof fn lemma_ring_pairs(d: Stretch, side: Side)
    requires
        d.wf(),
    ensures
        0 <= d.source(side) < d.procs,
        0 <= d.dest(side) < d.procs,
        d.at(d.source(side)).dest(side) == d.rank,
        d.at(d.dest(side)).source(side) == d.rank,
{
    crate::grid::lemma_wrap_back(d.rank, 1, d.procs);
    crate::grid::lemma_wrap_back(d.rank, -1, d.procs);
}

/// Where every stretch holds its part of a line, the two transfers, made by
/// all processes, leave in both halo cells of every stretch the values of
/// the cells next to it in the periodic line.
pub proof fn lemma_ring_refresh<T>(d: Stretch, global: Seq<T>, tiles: Seq<Seq<T>>, r: int)
    requires
        d.wf(),
        0 < d.size,
        global.len() == d.length(),
        d.tiles_hold(global, tiles),
        0 <= r < d.procs,
    ensures
        ({
            let after = d.round(Side::Left, tiles, d.round(Side::Right, tiles, tiles));
            &&& after[r][0] == global[(d.at(r).origin() - 1) % d.length()]
            &&& after[r][d.size + 1] == global[(d.at(r).origin() + d.size) % d.length()]
            &&& forall|i: int| 1 <= i <= d.size ==> #[trigger] after[r][i] == tiles[r][i]
        }),
{
    let e = d.at(r);
    let n = d.procs;
    let s = d.size;
    let left = e.neighbor(-1);
    let right = e.neighbor(1);
    assert(tiles[r].len() == d.lattice_len());
    // the cell before the first one is the last cell of the rank on the left
    lemma_fundamental_div_mod(r - 1, n);
    let ql = (r - 1) / n;
    assert(r * s - 1 == ql * (s * n) + (left * s + s - 1)) by (nonlinear_arith)
        requires
            r - 1 == n * ql + left,
    ;
    assert(0 <= left * s + s - 1 < s * n) by (nonlinear_arith)
        requires
            0 <= left < n,
            0 < s,
    ;
    lemma_fundamental_div_mod_converse(r * s - 1, s * n, ql, left * s + s - 1);
    assert(tiles[left][s - 1 + 1] == global[d.at(left).origin() + (s - 1)]);
    // the cell after the last one is the first cell of the rank on the right
    lemma_fundamental_div_mod(r + 1, n);
    let qr = (r + 1) / n;
    assert(r * s + s == qr * (s * n) + right * s) by (nonlinear_arith)
        requires
            r + 1 == n * qr + right,
    ;
    assert(0 <= right * s < s * n) by (nonlinear_arith)
        requires
            0 <= right < n,
            0 < s,
    ;
    lemma_fundamental_div_mod_converse(r * s + s, s * n, qr, right * s);
    assert(tiles[right][0int + 1] == global[d.at(right).origin() + 0int]);
}

/// The contributions of all ranks, one after the other, are the line.
pub proof fn lemma_ring_gather<T>(d: Stretch, global: Seq<T>, tiles: Seq<Seq<T>>)
    requires
        d.wf(),
        global.len() == d.length(),
        d.tiles_hold(global, tiles),
    ensures
        d.concatenated(tiles) == global,
{
    let v = d.concatenated(tiles);
    assert forall|j: int| 0 <= j < d.length() implies v[j] == global[j] by {
        let s = d.size;
        assert(0 < s) by (nonlinear_arith)
            requires
                0 <= j < s * d.procs,
                0 <= s,
                0 < d.procs,
        ;
        lemma_fundamental_div_mod(j, s);
        let r = j / s;
        let i = j % s;
        assert(0 <= r < d.procs) by (nonlinear_arith)
            requires
                0 <= j < s * d.procs,
                j == s * r + i,
                0 <= i < s,
        ;
        assert(tiles[r].len() == d.lattice_len());
        assert(tiles[r][i + 1] == global[d.at(r).origin() + i]);
        assert(r * s == s * r) by (nonlinear_arith);
    }
    assert(v =~= global);
}

/// The decomposition of a line as one process holds it.
pub struct Ring {
    rank: i32,
    procs: i32,
    local_size: usize,
}

impl View for Ring {
    type V = Stretch;

    closed spec fn view(&self) -> Stretch {
        Stretch { rank: self.rank as int, procs: self.procs as int, size: self.local_size as int }
    }
}

impl Ring {
    #[verifier::type_invariant]
    spec fn inv(&self) -> bool {
        self@.valid()
    }

    /// The decomposition of a line of `l` cells for process `rank` of
    /// `procs`; `l` has to be a multiple of `procs`, and the cells of the
    /// line with a halo have to be countable.
    pub fn new(rank: i32, procs: i32, l: usize) -> (r: Result<Ring, ConfigError>)
        ensures
            match stretch_of(rank as int, procs as int, l as int) {
                Ok(d) => r matches Ok(t) && t@ == d && d.valid() && d.length() == l,
                Err(e) => r matches Err(x) && x == e,
            },
    {
        if procs < 1 || rank < 0 || rank >= procs {
            return Err(ConfigError::BadProcessCount);
        }
        if l % (procs as usize) != 0 {
            return Err(ConfigError::NotDivisible);
        }
        if l > usize::MAX - 2 {
            return Err(ConfigError::TooLarge);
        }
        let local_size: usize = l / (procs as usize);
        proof {
            lemma_fundamental_div_mod(l as int, procs as int);
            assert(local_size * procs == l) by (nonlinear_arith)
                requires
                    l == procs * (l as int / procs as int) + l as int % procs as int,
                    l as int % procs as int == 0,
                    local_size == l as int / procs as int,
            ;
        }
        Ok(Ring { rank, procs, local_size })
    }

    /// The rank of this process.
    pub fn rank(&self) -> (r: i32)
        ensures
            r == self@.rank,
            self@.valid(),
    {
        proof {
            use_type_invariant(self);
        }
        self.rank
    }

    /// The number of processes.
    pub fn procs(&self) -> (r: i32)
        ensures
            r == self@.procs,
            self@.valid(),
    {
        proof {
            use_type_invariant(self);
        }
        self.procs
    }

    /// The number of cells of the stretch.
    pub fn local_size(&self) -> (r: usize)
        ensures
            r == self@.size,
            r + 2 <= usize::MAX,
            self@.valid(),
    {
        proof {
            use_type_invariant(self);
            assert(self@.size <= self@.size * self@.procs) by (nonlinear_arith)
                requires
                    0 <= self@.size,
                    1 <= self@.procs,
            ;
        }
        self.local_size
    }

    /// The number of cells of the stretch with its halo.
    pub fn lattice_len(&self) -> (r: usize)
        ensures
            r == self@.lattice_len(),
    {
        self.local_size() + 2
    }

    /// The rank `d` places away on the periodic line.
    fn get_rank(&self, d: i32) -> (r: i32)
        requires
            d == 1 || d == -1,
        ensures
            r == self@.neighbor(d as int),
            0 <= r < self@.procs,
    {
        proof {
            use_type_invariant(self);
        }
        let t: i32 = if d == 1 {
            if self.rank == self.procs - 1 {
                0
            } else {
                self.rank + 1
            }
        } else {
            if self.rank == 0 {
                self.procs - 1
            } else {
                self.rank - 1
            }
        };
        proof {
            let n = self.procs as int;
            let q: int = if t == self.rank + d {
                0
            } else {
                d as int
            };
            assert(self.rank + d == q * n + t) by (nonlinear_arith)
                requires
                    (q == 0 && t == self.rank + d) || (q == d && d == 1 && t == 0 && self.rank + 1
                        == n) || (q == d && d == -1 && t == n - 1 && self.rank == 0),
            ;
            lemma_fundamental_div_mod_converse(self.rank + d, n, q, t as int);
        }
        t
    }

    /// The rank on the left.
    pub fn left(&self) -> (r: i32)
        ensures
            r == self@.neighbor(-1),
            0 <= r < self@.procs,
    {
        self.get_rank(-1)
    }

    /// The rank on the right.
    pub fn right(&self) -> (r: i32)
        ensures
            r == self@.neighbor(1),
            0 <= r < self@.procs,
    {
        self.get_rank(1)
    }

    /// Whether the global cell `g` lies in the stretch of this process.
    pub fn is_inside(&self, g: usize) -> (b: bool)
        ensures
            b == self@.owns(g as int),
    {
        let s: usize = self.local_size();
        proof {
            use_type_invariant(self);
            assert(0 <= self.rank * s && self.rank * s + s <= s * self@.procs)
                by (nonlinear_arith)
                requires
                    0 <= self.rank < self@.procs,
                    0 <= s,
            ;
        }
        let start: usize = (self.rank as usize) * s;
        start <= g && g < start + s
    }

    /// The index, in the stretch with its halo, of the global cell `g`,
    /// which has to lie in the stretch.
    pub fn g2i(&self, g: usize) -> (k: usize)
        requires
            self@.owns(g as int),
        ensures
            k == self@.local_index(g as int),
            1 <= k <= self@.size,
    {
        let s: usize = self.local_size();
        proof {
            use_type_invariant(self);
            assert(0 <= self.rank * s && self.rank * s + s <= s * self@.procs)
                by (nonlinear_arith)
                requires
                    0 <= self.rank < self@.procs,
                    0 <= s,
            ;
        }
        g - (self.rank as usize) * s + 1
    }

    /// The transfer `side`, for the stretch as it is.
    fn exchange<T: Copy>(&self, side: Side, lattice: &Vec<T>) -> (step: RingStep<T>)
        requires
            lattice@.len() == self@.lattice_len(),
        ensures
            step@ == self@.exchange(side, lattice@),
    {
        let s: usize = self.local_size();
        match side {
            Side::Right => RingStep::Exchange {
                side,
                value: lattice[s],
                dest: self.right(),
                source: self.left(),
            },
            Side::Left => RingStep::Exchange {
                side,
                value: lattice[1],
                dest: self.left(),
                source: self.right(),
            },
        }
    }

    /// Starts a refresh of the two halo cells: the first of the two
    /// transfers is pending.
    pub fn sendrecv<T: Copy>(&self, lattice: &Vec<T>) -> (step: RingStep<T>)
        requires
            lattice@.len() == self@.lattice_len(),
        ensures
            step@ == self@.exchange(Side::Right, lattice@),
    {
        self.exchange(Side::Right, lattice)
    }

    /// Goes on with a refresh once the transfer `side` has been made and has
    /// brought `value`: the value is put into the halo cell of `orig` that
    /// the transfer fills, and the result names the transfer that is pending
    /// next, which sends from `lattice`.
    pub fn receive<T: Copy>(&self, lattice: &Vec<T>, orig: &mut Vec<T>, side: Side, value: T) -> (step:
        RingStep<T>)
        requires
            lattice@.len() == self@.lattice_len(),
            old(orig)@.len() == self@.lattice_len(),
        ensures
            final(orig)@ == self@.incoming(side, old(orig)@, value),
            step@ == self@.following(side, lattice@),
    {
        let s: usize = self.local_size();
        match side {
            Side::Right => {
                orig.set(0, value);
                self.exchange(Side::Left, lattice)
            },
            Side::Left => {
                orig.set(s + 1, value);
                RingStep::Done
            },
        }
    }

    /// The part of this process in a gather of the stretches at rank 0: what
    /// it contributes, and whether it is the one that receives.
    pub fn gather<T: Copy>(&self, lattice: &Vec<T>) -> (g: Gather<T>)
        requires
            lattice@.len() == self@.lattice_len(),
        ensures
            g@ == self@.contribution(lattice@),
    {
        let s: usize = self.local_size();
        let mut sendbuf: Vec<T> = Vec::new();
        let mut i: usize = 0;
        while i < s
            invariant
                i <= s,
                s + 2 == lattice@.len(),
                sendbuf@ == lattice@.subrange(1, i + 1),
            decreases s - i,
        {
            sendbuf.push(lattice[i + 1]);
            assert(sendbuf@ =~= lattice@.subrange(1, i + 2));
            i = i + 1;
        }
        if self.rank() == 0 {
            proof {
                use_type_invariant(self);
            }
            Gather::Root { sendbuf, count: s * (self.procs() as usize) }
        } else {
            Gather::Leaf { sendbuf, root: 0 }
        }
    }

    /// One step of a field on the line: for every cell of the stretch, the
    /// kernel is given the cell on its left, the cell itself and the cell on
    /// its right as `orig` holds them, and what it returns becomes the value
    /// of the cell in `lattice`. The halo of `lattice` is left as it is. The
    /// kernel has to accept these cells, and no others.
    pub fn calc<T: Copy, F: Fn(T, T, T) -> T>(&self, orig: &Vec<T>, lattice: &mut Vec<T>, kernel: F)
        requires
            orig@.len() == self@.lattice_len(),
            old(lattice)@.len() == self@.lattice_len(),
            forall|i: int|
                1 <= i <= self@.size ==> call_requires(
                    kernel,
                    (#[trigger] orig@[i - 1], orig@[i], orig@[i + 1]),
                ),
        ensures
            final(lattice)@.len() == self@.lattice_len(),
            forall|i: int|
                #![trigger final(lattice)@[i]]
                0 <= i < self@.lattice_len() ==> if 1 <= i <= self@.size {
                    call_ensures(kernel, (orig@[i - 1], orig@[i], orig@[i + 1]), final(lattice)@[i])
                } else {
                    final(lattice)@[i] == old(lattice)@[i]
                },
    {
        let s: usize = self.local_size();
        let mut i: usize = 1;
        while i <= s
            invariant
                s == self@.size,
                s + 2 <= usize::MAX,
                orig@.len() == s + 2,
                lattice@.len() == s + 2,
                forall|i: int|
                    1 <= i <= s ==> call_requires(
                        kernel,
                        (#[trigger] orig@[i - 1], orig@[i], orig@[i + 1]),
                    ),
                1 <= i <= s + 1,
                forall|j: int|
                    #![trigger lattice@[j]]
                    0 <= j < s + 2 ==> if 1 <= j < i {
                        call_ensures(kernel, (orig@[j - 1], orig@[j], orig@[j + 1]), lattice@[j])
                    } else {
                        lattice@[j] == old(lattice)@[j]
                    },
            decreases s + 1 - i,
        {
            let value = kernel(orig[i - 1], orig[i], orig[i + 1]);
            lattice.set(i, value);
            i = i + 1;
        }
    }
}

} // verus!
