//! The text of the dumps: numbers in decimal, tiles and grids as rows of
//! cells, and the names of the dump files.
//!
//! A dump is a list of pieces. Each piece is written in a turn of its own, so
//! that the text of a rank reaches the coordinator piece by piece, in order.

use vstd::prelude::*;
use vstd::string::*;
use crate::grid::{Layout, MPIinfo};
use crate::stdout::{
    after_schedule,
    joined,
    lemma_joined_concat,
    lemma_schedule_collects,
    texts_of,
    Report,
};

verus! {

/// The character of the digit `d`.
pub open spec fn digit(d: nat) -> u8 {
    ('0' as u8 + d) as u8
}

/// The decimal digits of `n`, the most significant first.
pub open spec fn digits(n: nat) -> Seq<u8>
    decreases n,
{
    if n < 10 {
        seq![digit(n)]
    } else {
        digits(n / 10).push(digit(n % 10))
    }
}

/// `count` times the digit zero.
pub open spec fn zeros(count: int) -> Seq<u8> {
    Seq::new(
        if count > 0 {
            count as nat
        } else {
            0
        },
        |i: int| '0' as u8,
    )
}

/// The sign of `x` as text: a minus for a negative number, else nothing.
pub open spec fn sign(x: int) -> Seq<u8> {
    if x < 0 {
        seq!['-' as u8]
    } else {
        Seq::empty()
    }
}

/// The absolute value of `x`.
pub open spec fn magnitude(x: int) -> nat {
    if x < 0 {
        (-x) as nat
    } else {
        x as nat
    }
}

/// `x` in decimal, filled with zeros behind the sign up to `width`
/// characters.
pub open spec fn padded(x: int, width: int) -> Seq<u8> {
    let d = digits(magnitude(x));
    sign(x) + zeros(width - sign(x).len() - d.len()) + d
}

/// `x` in decimal.
pub open spec fn decimal(x: int) -> Seq<u8> {
    padded(x, 0)
}

/// A cell of a dump: a blank, then the value in at least three characters.
pub open spec fn cell_text(x: int) -> Seq<u8> {
    seq![' ' as u8] + padded(x, 3)
}

/// The end of a line.
pub open spec fn newline() -> Seq<u8> {
    seq!['\n' as u8]
}

/// The line that opens the dump of a rank: `rank=`, the rank, and the end of
/// the line.
pub open spec fn tag_text(rank: int) -> Seq<u8> {
    seq!['r' as u8, 'a' as u8, 'n' as u8, 'k' as u8, '=' as u8] + decimal(rank) + newline()
}

/// The pieces of a dump of `height` rows of `width` cells, the cell in
/// column `ix` and row `iy` being `data[ix + iy * width]`: every cell, the
/// end of each row, and an empty line at the end.
pub open spec fn grid_pieces(data: Seq<i32>, width: int, height: int) -> Seq<Seq<u8>> {
    Seq::new(
        ((width + 1) * height + 1) as nat,
        |k: int|
            if k == (width + 1) * height || k % (width + 1) == width {
                newline()
            } else {
                cell_text(data[k % (width + 1) + (k / (width + 1)) * width] as int)
            },
    )
}

/// The name of the dump file number `index`: the prefix, the number in at
/// least three digits, and `.dat`.
pub open spec fn file_name_text(prefix: Seq<u8>, index: int) -> Seq<u8> {
    prefix + padded(index, 3) + seq!['.' as u8, 'd' as u8, 'a' as u8, 't' as u8]
}

/// The digits of a number of two digits or more are those of its tenth,
/// then its last digit; `low` stands for what follows them.
proof fn lemma_digits_step(n: nat, low: Seq<u8>)
    requires
        n >= 10,
    ensures
        digits(n) + low == digits(n / 10) + (seq![digit(n % 10)] + low),
{
    assert(digits(n) + low =~= digits(n / 10) + (seq![digit(n % 10)] + low));
}

/// Appends the decimal digits of `n` to `out`, filled with zeros up to
/// `width` digits.
fn push_digits(out: &mut Vec<u8>, n: u64, width: usize)
    ensures
        final(out)@ == old(out)@ + zeros(width - digits(n as nat).len()) + digits(n as nat),
{
    // the digits, the least significant first
    let mut low: Vec<u8> = Vec::new();
    let mut m: u64 = n;
    while m >= 10
        invariant
            digits(n as nat) == digits(m as nat) + Seq::new(
                low@.len(),
                |i: int| low@[low@.len() - 1 - i],
            ),
        decreases m,
    {
        let ghost before = low@;
        let last: u8 = '0' as u8 + (m % 10) as u8;
        low.push(last);
        proof {
            let r0 = Seq::new(before.len(), |i: int| before[before.len() - 1 - i]);
            let r1 = Seq::new(low@.len(), |i: int| low@[low@.len() - 1 - i]);
            assert(r1 =~= seq![last] + r0);
            lemma_digits_step(m as nat, r0);
        }
        m = m / 10;
    }
    low.push('0' as u8 + m as u8);
    proof {
        let r = Seq::new(low@.len(), |i: int| low@[low@.len() - 1 - i]);
        let r0 = Seq::new((low@.len() - 1) as nat, |i: int| low@[low@.len() - 2 - i]);
        assert(r =~= seq![digit(m as nat)] + r0);
        assert(digits(n as nat) =~= r);
    }
    let count: usize = low.len();
    let ghost start = out@;
    let mut fill: usize = count;
    while fill < width
        invariant
            count <= fill,
            fill <= width || fill == count,
            out@ == start + zeros(fill - count),
        decreases width - fill,
    {
        out.push('0' as u8);
        fill = fill + 1;
        assert(out@ =~= start + zeros(fill - count));
    }
    assert(out@ =~= start + zeros(width - count));
    let ghost filled = out@;
    let mut i: usize = count;
    while i > 0
        invariant
            i <= count,
            count == low@.len(),
            digits(n as nat) == Seq::new(low@.len(), |j: int| low@[low@.len() - 1 - j]),
            out@ == filled + digits(n as nat).subrange(0, count - i),
        decreases i,
    {
        i = i - 1;
        out.push(low[i]);
        assert(out@ =~= filled + digits(n as nat).subrange(0, count - i));
    }
    assert(digits(n as nat).subrange(0, count as int) =~= digits(n as nat));
}

/// Appends `x` in decimal to `out`, filled with zeros behind the sign up to
/// `width` characters.
fn push_padded(out: &mut Vec<u8>, x: i64, width: usize)
    requires
        x > i64::MIN,
    ensures
        final(out)@ == old(out)@ + padded(x as int, width as int),
{
    if x < 0 {
        out.push('-' as u8);
        let room: usize = if width > 0 {
            width - 1
        } else {
            0
        };
        push_digits(out, (-x) as u64, room);
        proof {
            let d = digits(magnitude(x as int));
            assert(zeros(room - d.len()) =~= zeros(width - 1 - d.len()));
            assert(out@ =~= old(out)@ + padded(x as int, width as int));
        }
    } else {
        push_digits(out, x as u64, width);
        assert(out@ =~= old(out)@ + padded(x as int, width as int));
    }
}

/// A cell of a dump: a blank, then `x` in at least three characters.
pub fn cell(x: i32) -> (text: Vec<u8>)
    ensures
        text@ == cell_text(x as int),
{
    let mut text: Vec<u8> = Vec::new();
    text.push(' ' as u8);
    push_padded(&mut text, x as i64, 3);
    assert(text@ =~= cell_text(x as int));
    text
}

/// The line that opens the dump of `rank`.
pub fn tag(rank: i32) -> (text: Vec<u8>)
    ensures
        text@ == tag_text(rank as int),
{
    let mut text: Vec<u8> = Vec::new();
    text.push('r' as u8);
    text.push('a' as u8);
    text.push('n' as u8);
    text.push('k' as u8);
    text.push('=' as u8);
    push_padded(&mut text, rank as i64, 0);
    text.push('\n' as u8);
    assert(text@ =~= tag_text(rank as int));
    text
}

/// The name of the dump file number `index` with the given prefix.
pub fn file_name(prefix: &str, index: usize) -> (name: Vec<u8>)
    ensures
        name@ == file_name_text(prefix.spec_bytes(), index as int),
{
    let bytes: &[u8] = prefix.as_bytes();
    let mut name: Vec<u8> = Vec::new();
    let mut i: usize = 0;
    while i < bytes.len()
        invariant
            i <= bytes.len(),
            name@ == bytes@.subrange(0, i as int),
        decreases bytes.len() - i,
    {
        name.push(bytes[i]);
        i = i + 1;
    }
    assert(name@ =~= bytes@);
    let ghost start = name@;
    push_digits(&mut name, index as u64, 3);
    name.push('.' as u8);
    name.push('d' as u8);
    name.push('a' as u8);
    name.push('t' as u8);
    proof {
        assert(sign(index as int) =~= Seq::<u8>::empty());
        assert(name@ =~= file_name_text(prefix.spec_bytes(), index as int));
    }
    name
}

/// The pieces of a list of texts, each as a sequence of bytes.
pub open spec fn texts(pieces: Seq<Vec<u8>>) -> Seq<Seq<u8>> {
    Seq::new(pieces.len(), |k: int| pieces[k]@)
}

/// Appends the pieces of a dump of `height` rows of `width` cells of `data`.
fn grid_dump(data: &Vec<i32>, width: usize, height: usize, pieces: &mut Vec<Vec<u8>>)
    requires
        data@.len() == width * height,
    ensures
        texts(final(pieces)@) == texts(old(pieces)@) + grid_pieces(
            data@,
            width as int,
            height as int,
        ),
{
    let ghost start = pieces@;
    let ghost want = grid_pieces(data@, width as int, height as int);
    let size: usize = data.len();
    let mut iy: usize = 0;
    while iy < height
        invariant
            size == width * height,
            data@.len() == size,
            want == grid_pieces(data@, width as int, height as int),
            iy <= height,
            pieces@.len() == start.len() + (width + 1) * iy,
            forall|j: int|
                #![trigger pieces@[j]]
                0 <= j < pieces@.len() ==> if j < start.len() {
                    pieces@[j] == start[j]
                } else {
                    pieces@[j]@ == want[j - start.len()]
                },
        decreases height - iy,
    {
        proof {
            assert((width + 1) * iy + (width + 1) <= (width + 1) * height && iy * (width + 1) == (
            width + 1) * iy) by (nonlinear_arith)
                requires
                    iy < height,
            ;
            assert(width * iy + width <= width * height && iy * width == width * iy)
                by (nonlinear_arith)
                requires
                    iy < height,
            ;
        }
        let mut ix: usize = 0;
        while ix < width
            invariant
                size == width * height,
                data@.len() == size,
                    (width + 1) * iy + (width + 1) <= (width + 1) * height,
                iy * (width + 1) == (width + 1) * iy,
                width * iy + width <= width * height,
                iy * width == width * iy,
                want == grid_pieces(data@, width as int, height as int),
                iy < height,
                ix <= width,
                pieces@.len() == start.len() + (width + 1) * iy + ix,
                forall|j: int|
                    #![trigger pieces@[j]]
                    0 <= j < pieces@.len() ==> if j < start.len() {
                        pieces@[j] == start[j]
                    } else {
                        pieces@[j]@ == want[j - start.len()]
                    },
            decreases width - ix,
        {
            let ghost before = pieces@;
            let ghost here = (width + 1) * iy + ix;
            proof {
                vstd::arithmetic::div_mod::lemma_fundamental_div_mod_converse(
                    here,
                    width + 1,
                    iy as int,
                    ix as int,
                );
            }
            let index: usize = ix + iy * width;
            pieces.push(cell(data[index]));
            proof {
                assert forall|j: int| 0 <= j < pieces@.len() implies if j < start.len() {
                    #[trigger] pieces@[j] == start[j]
                } else {
                    pieces@[j]@ == want[j - start.len()]
                } by {
                    if j < before.len() {
                        assert(pieces@[j] == before[j]);
                    }
                }
            }
            ix = ix + 1;
        }
        let ghost before = pieces@;
        let ghost here = (width + 1) * iy + width;
        let mut end: Vec<u8> = Vec::new();
        end.push('\n' as u8);
        pieces.push(end);
        proof {
            vstd::arithmetic::div_mod::lemma_fundamental_div_mod_converse(
                here,
                width + 1,
                iy as int,
                width as int,
            );
            assert((width + 1) * (iy + 1) == here + 1) by (nonlinear_arith)
                requires
                    here == (width + 1) * iy + width,
            ;
            assert(end@ =~= newline());
            assert forall|j: int| 0 <= j < pieces@.len() implies if j < start.len() {
                #[trigger] pieces@[j] == start[j]
            } else {
                pieces@[j]@ == want[j - start.len()]
            } by {
                if j < before.len() {
                    assert(pieces@[j] == before[j]);
                }
            }
        }
        iy = iy + 1;
    }
    let ghost before = pieces@;
    let mut end: Vec<u8> = Vec::new();
    end.push('\n' as u8);
    pieces.push(end);
    proof {
        assert(end@ =~= newline());
        assert forall|j: int| 0 <= j < pieces@.len() implies if j < start.len() {
            #[trigger] pieces@[j] == start[j]
        } else {
            pieces@[j]@ == want[j - start.len()]
        } by {
            if j < before.len() {
                assert(pieces@[j] == before[j]);
            }
        }
        assert(texts(pieces@) =~= texts(start) + want);
    }
}

/// One turn of a dump: the rank whose turn it is, and the pieces that this
/// process would write in it.
#[derive(Debug, PartialEq, Eq)]
pub struct Dump {
    pub rank: i32,
    pub pieces: Vec<Vec<u8>>,
}

impl Layout {
    /// The pieces that the process with tile `t` writes in the turn of
    /// `rank`: the line that names the rank, then the tile with its halo.
    pub open spec fn local_pieces(self, rank: int, t: Seq<i32>) -> Seq<Seq<u8>> {
        seq![tag_text(rank)] + grid_pieces(t, self.lx + 2, self.ly + 2)
    }

    /// The pieces of a dump of the global grid `v`.
    pub open spec fn global_pieces(self, v: Seq<i32>) -> Seq<Seq<u8>> {
        grid_pieces(v, self.side(), self.side())
    }
}

impl MPIinfo {
    /// The pieces that this process writes in the turn of `rank` when every
    /// process dumps its tile: the line that names the rank, each cell of
    /// the tile with its halo, the end of each row, and an empty line.
    pub fn dump_local_sub(&self, rank: i32, local_data: &Vec<i32>) -> (pieces: Vec<Vec<u8>>)
        requires
            local_data@.len() == self@.tile_len(),
        ensures
            texts(pieces@) == self@.local_pieces(rank as int, local_data@),
    {
        let (lx, ly) = self.tile_size();
        let mut pieces: Vec<Vec<u8>> = Vec::new();
        pieces.push(tag(rank));
        grid_dump(local_data, lx + 2, ly + 2, &mut pieces);
        assert(texts(pieces@) =~= self@.local_pieces(rank as int, local_data@));
        pieces
    }

    /// The turns of a dump of all tiles, in the order in which every process
    /// has to take them: one turn for each rank, in ascending order.
    pub fn dump_local(&self, local_data: &Vec<i32>) -> (turns: Vec<Dump>)
        requires
            local_data@.len() == self@.tile_len(),
        ensures
            turns@.len() == self@.procs,
            forall|i: int|
                #![trigger turns@[i]]
                0 <= i < turns@.len() ==> turns@[i].rank == i && texts(turns@[i].pieces@)
                    == self@.local_pieces(i, local_data@),
    {
        let procs: i32 = self.procs();
        let mut turns: Vec<Dump> = Vec::new();
        let mut i: i32 = 0;
        while i < procs
            invariant
                local_data@.len() == self@.tile_len(),
                procs == self@.procs,
                0 <= i <= procs,
                turns@.len() == i,
                forall|j: int|
                    #![trigger turns@[j]]
                    0 <= j < turns@.len() ==> turns@[j].rank == j && texts(turns@[j].pieces@)
                        == self@.local_pieces(j, local_data@),
            decreases procs - i,
        {
            let pieces = self.dump_local_sub(i, local_data);
            turns.push(Dump { rank: i, pieces });
            i = i + 1;
        }
        turns
    }

    /// The pieces of a dump of the global grid.
    pub fn dump_global(&self, global_data: &Vec<i32>) -> (pieces: Vec<Vec<u8>>)
        requires
            global_data@.len() == self@.side() * self@.side(),
        ensures
            texts(pieces@) == self@.global_pieces(global_data@),
    {
        let side: usize = self.global_size();
        let mut pieces: Vec<Vec<u8>> = Vec::new();
        grid_dump(global_data, side, side, &mut pieces);
        assert(texts(pieces@) =~= self@.global_pieces(global_data@));
        pieces
    }
}

impl Layout {
    /// The number of pieces of the dump of one tile: the line that names the
    /// rank, every cell of the tile with its halo, the end of each row, and
    /// the empty line.
    pub open spec fn pieces_per_rank(self) -> int {
        (self.lx + 3) * (self.ly + 2) + 2
    }

    /// The turns of a dump of all tiles, `tiles[r]` being the tile of rank
    /// `r`: for each rank in ascending order, each piece of its dump in a
    /// turn of its own.
    pub open spec fn dump_schedule(self, tiles: Seq<Seq<i32>>) -> Seq<(int, Seq<u8>)> {
        Seq::new(
            (self.procs * self.pieces_per_rank()) as nat,
            |k: int|
                (
                    k / self.pieces_per_rank(),
                    self.local_pieces(
                        k / self.pieces_per_rank(),
                        tiles[k / self.pieces_per_rank()],
                    )[k % self.pieces_per_rank()],
                ),
        )
    }

    /// The text of the dump of the tile `t` of rank `r`: the line that names
    /// the rank, then the tile with its halo.
    pub open spec fn dump_text(self, r: int, t: Seq<i32>) -> Seq<u8> {
        joined(self.local_pieces(r, t))
    }

    /// The dumps of the tiles of the ranks below `n`, one after the other.
    pub open spec fn report(self, tiles: Seq<Seq<i32>>, n: nat) -> Seq<u8>
        decreases n,
    {
        if n == 0 {
            Seq::empty()
        } else {
            self.report(tiles, (n - 1) as nat) + self.dump_text(n - 1, tiles[n - 1])
        }
    }
}

/// The texts of the turns of a dump of the tiles of the ranks below `n`,
/// joined, are the dumps of these tiles one after the other.
pub proof fn lemma_dump_schedule(d: Layout, tiles: Seq<Seq<i32>>, n: nat)
    requires
        d.wf(),
        n <= d.procs,
    ensures
        0 <= n * d.pieces_per_rank() <= d.dump_schedule(tiles).len(),
        joined(texts_of(d.dump_schedule(tiles), (n * d.pieces_per_rank()) as nat)) == d.report(
            tiles,
            n,
        ),
        forall|k: int|
            0 <= k < d.dump_schedule(tiles).len() ==> 0 <= (#[trigger] d.dump_schedule(tiles)[k]).0
                < d.procs,
    decreases n,
{
    let c = d.pieces_per_rank();
    let sched = d.dump_schedule(tiles);
    assert(c >= 2) by (nonlinear_arith)
        requires
            c == (d.lx + 3) * (d.ly + 2) + 2,
            d.lx >= 0,
            d.ly >= 0,
    ;
    assert(0 <= n * c <= d.procs * c) by (nonlinear_arith)
        requires
            0 <= n <= d.procs,
            c >= 0,
    ;
    assert forall|k: int| 0 <= k < sched.len() implies 0 <= (#[trigger] sched[k]).0 < d.procs by {
        vstd::arithmetic::div_mod::lemma_fundamental_div_mod(k, c);
        assert(0 <= k / c < d.procs) by (nonlinear_arith)
            requires
                0 <= k < d.procs * c,
                k == c * (k / c) + k % c,
                0 <= k % c < c,
        ;
    }
    if n == 0 {
        assert(texts_of(sched, 0) =~= Seq::<Seq<u8>>::empty());
    } else {
        let r = n - 1;
        lemma_dump_schedule(d, tiles, r as nat);
        assert(r * c + c == n * c) by (nonlinear_arith)
            requires
                r == n - 1,
        ;
        let head = texts_of(sched, (r * c) as nat);
        let all = texts_of(sched, (n * c) as nat);
        let pieces = d.local_pieces(r, tiles[r]);
        assert(pieces.len() == c) by (nonlinear_arith)
            requires
                pieces.len() == 1 + ((d.lx + 2 + 1) * (d.ly + 2) + 1),
                c == (d.lx + 3) * (d.ly + 2) + 2,
        ;
        assert(all =~= head + pieces) by {
            assert forall|k: int| r * c <= k < n * c implies all[k] == pieces[k - r * c] by {
                vstd::arithmetic::div_mod::lemma_fundamental_div_mod_converse(k, c, r, k - r * c);
            }
        }
        lemma_joined_concat(head, pieces);
    }
}

/// Where all processes dump their tiles, taking the turns in the order of
/// the ranks and writing each piece in a turn of its own, the coordinator
/// ends with the dumps of all tiles, each once, in the order of the ranks:
/// for each rank the line that names it, followed by its tile.
pub proof fn lemma_dump_collects(
    d: Layout,
    root: Report,
    writers: Seq<Report>,
    tiles: Seq<Seq<i32>>,
)
    requires
        d.wf(),
        root.is_root(),
        root.knows(root.rank),
        root.procs == d.procs,
        writers.len() == root.procs,
        forall|r: int|
            0 <= r < root.procs && r != root.rank ==> (#[trigger] writers[r]).rank == r
                && writers[r].root_rank == root.rank && writers[r].procs == root.procs,
    ensures
        after_schedule(
            root,
            writers,
            d.dump_schedule(tiles),
            d.dump_schedule(tiles).len(),
        ) == root.appended(d.report(tiles, d.procs as nat)),
{
    lemma_dump_schedule(d, tiles, d.procs as nat);
    let sched = d.dump_schedule(tiles);
    assert(sched.len() == d.procs * d.pieces_per_rank());
    lemma_schedule_collects(root, writers, sched, sched.len());
}

} // verus!
