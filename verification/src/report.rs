//! What the coordinator holds after a dump of all tiles: where the line that
//! names a rank stands in it, and that it stands there only.

use vstd::prelude::*;
use crate::grid::Layout;
use crate::stdout::{after_schedule, joined, lemma_joined_concat, Report};
use crate::text::lemma_dump_collects;
use crate::text::{cell_text, digit, digits, grid_pieces, newline, padded, sign, tag_text, zeros};

verus! {

/// The text holds the pattern from place `i` on.
pub open spec fn occurs_at(text: Seq<u8>, pattern: Seq<u8>, i: int) -> bool {
    &&& 0 <= i
    &&& i + pattern.len() <= text.len()
    &&& text.subrange(i, i + pattern.len()) == pattern
}

/// A byte of the dump of a grid: a blank, a sign, a digit or the end of a
/// line.
pub open spec fn is_plain(b: u8) -> bool {
    b == ' ' as u8 || b == '-' as u8 || b == '\n' as u8 || ('0' as u8 <= b <= '9' as u8)
}

/// Every byte of the text is a byte of the dump of a grid.
pub open spec fn all_plain(text: Seq<u8>) -> bool {
    forall|i: int| 0 <= i < text.len() ==> is_plain(#[trigger] text[i])
}

/// The number that decimal digits stand for.
pub open spec fn number(s: Seq<u8>) -> int
    decreases s.len(),
{
    if s.len() == 0 {
        0
    } else {
        number(s.drop_last()) * 10 + (s.last() - '0' as u8)
    }
}

/// The decimal digits of a number are digits, at least one, and stand for
/// the number.
pub proof fn lemma_digits(n: nat)
    ensures
        digits(n).len() >= 1,
        forall|i: int| 0 <= i < digits(n).len() ==> '0' as u8 <= #[trigger] digits(n)[i] <= '9' as u8,
        number(digits(n)) == n,
    decreases n,
{
    if n < 10 {
        assert(digits(n) =~= seq![digit(n)]);
        assert(seq![digit(n)].drop_last() =~= Seq::<u8>::empty());
        assert(number(Seq::<u8>::empty()) == 0);
        assert(number(digits(n)) == number(digits(n).drop_last()) * 10 + (digits(n).last() - '0' as u8));
    } else {
        lemma_digits(n / 10);
        let d = digits(n / 10);
        assert(digits(n) == d.push(digit(n % 10)));
        assert(digits(n).drop_last() =~= d);
        assert(digits(n).last() == digit(n % 10));
        assert forall|i: int| 0 <= i < digits(n).len() implies '0' as u8 <= #[trigger] digits(
            n,
        )[i] <= '9' as u8 by {
            if i < d.len() {
                assert(digits(n)[i] == d[i]);
            }
        }
    }
}

/// Numbers with the same decimal digits are the same number.
pub proof fn lemma_digits_differ(a: nat, b: nat)
    requires
        digits(a) == digits(b),
    ensures
        a == b,
{
    lemma_digits(a);
    lemma_digits(b);
}

/// A cell of a dump holds plain bytes only.
pub proof fn lemma_cell_plain(x: int)
    ensures
        all_plain(cell_text(x)),
        cell_text(x).len() >= 1,
{
    let m = crate::text::magnitude(x);
    lemma_digits(m);
    let t = cell_text(x);
    let s = sign(x);
    let p = padded(x, 3);
    let z = zeros(3 - s.len() - digits(m).len());
    assert(p == s + z + digits(m));
    assert forall|i: int| 0 <= i < t.len() implies is_plain(#[trigger] t[i]) by {
        if i >= 1 {
            let j = i - 1;
            assert(t[i] == p[j]);
            if j < s.len() {
                assert(p[j] == s[j]);
            } else if j < s.len() + z.len() {
                assert(p[j] == z[j - s.len()]);
            } else {
                assert(p[j] == digits(m)[j - s.len() - z.len()]);
            }
        }
    }
}

/// Plain texts joined are a plain text.
pub proof fn lemma_joined_plain(pieces: Seq<Seq<u8>>)
    requires
        forall|k: int| 0 <= k < pieces.len() ==> all_plain(#[trigger] pieces[k]),
    ensures
        all_plain(joined(pieces)),
    decreases pieces.len(),
{
    if pieces.len() > 0 {
        lemma_joined_plain(pieces.drop_last());
        let head = joined(pieces.drop_last());
        let last = pieces.last();
        assert(all_plain(last));
        assert forall|i: int| 0 <= i < joined(pieces).len() implies is_plain(
            #[trigger] joined(pieces)[i],
        ) by {
            if i < head.len() {
                assert(joined(pieces)[i] == head[i]);
            } else {
                assert(joined(pieces)[i] == last[i - head.len()]);
            }
        }
    }
}

/// The dump of a grid is a plain text, and not empty.
pub proof fn lemma_grid_plain(data: Seq<i32>, width: int, height: int)
    requires
        0 <= width,
        0 <= height,
    ensures
        all_plain(joined(grid_pieces(data, width, height))),
        joined(grid_pieces(data, width, height)).len() >= 1,
{
    let pieces = grid_pieces(data, width, height);
    assert((width + 1) * height >= 0) by (nonlinear_arith)
        requires
            0 <= width,
            0 <= height,
    ;
    assert forall|k: int| 0 <= k < pieces.len() implies all_plain(#[trigger] pieces[k]) by {
        let i = k % (width + 1) + (k / (width + 1)) * width;
        lemma_cell_plain(data[i] as int);
    }
    lemma_joined_plain(pieces);
    let last = pieces.last();
    assert(last == newline());
    assert(joined(pieces) == joined(pieces.drop_last()) + last);
}

/// The line that names a rank: the letter `r` stands at its start and
/// nowhere else in it, the digits of the rank follow the fifth byte, and the
/// end of the line follows the digits.
pub proof fn lemma_tag(r: int)
    requires
        0 <= r,
    ensures
        tag_text(r).len() == 6 + digits(r as nat).len(),
        tag_text(r)[0] == 'r' as u8,
        forall|j: int| 1 <= j < tag_text(r).len() ==> #[trigger] tag_text(r)[j] != 'r' as u8,
        forall|j: int|
            0 <= j < digits(r as nat).len() ==> #[trigger] tag_text(r)[5 + j] == digits(
                r as nat,
            )[j],
        tag_text(r)[5 + digits(r as nat).len() as int] == '\n' as u8,
{
    let dg = digits(r as nat);
    lemma_digits(r as nat);
    assert(crate::text::magnitude(r) == r as nat);
    assert(sign(r) =~= Seq::<u8>::empty());
    assert(zeros(0 - sign(r).len() - dg.len()) =~= Seq::<u8>::empty());
    assert(padded(r, 0) =~= dg);
    let head = seq!['r' as u8, 'a' as u8, 'n' as u8, 'k' as u8, '=' as u8];
    let t = tag_text(r);
    assert(t == head + dg + newline());
    assert(t.len() == 6 + dg.len());
    assert forall|j: int| 0 <= j < dg.len() implies #[trigger] t[5 + j] == dg[j] by {}
    assert forall|j: int| 1 <= j < t.len() implies #[trigger] t[j] != 'r' as u8 by {
        if j < 5 {
            assert(t[j] == head[j]);
        } else if j < 5 + dg.len() {
            assert(t[j] == dg[j - 5]);
        }
    }
}

impl Layout {
    /// The tile with its halo as the dump of a grid shows it.
    pub open spec fn tile_text(self, t: Seq<i32>) -> Seq<u8> {
        joined(grid_pieces(t, self.lx + 2, self.ly + 2))
    }
}

/// The dump of a tile is the line that names the rank, then the tile, which
/// is plain text and not empty.
pub proof fn lemma_dump_text(d: Layout, r: int, t: Seq<i32>)
    requires
        0 <= d.lx,
        0 <= d.ly,
    ensures
        d.dump_text(r, t) == tag_text(r) + d.tile_text(t),
        all_plain(d.tile_text(t)),
        d.tile_text(t).len() >= 1,
{
    let pieces = grid_pieces(t, d.lx + 2, d.ly + 2);
    let first = seq![tag_text(r)];
    lemma_joined_concat(first, pieces);
    assert(first.drop_last() =~= Seq::<Seq<u8>>::empty());
    assert(joined(Seq::<Seq<u8>>::empty()) =~= Seq::<u8>::empty());
    assert(joined(first) == joined(first.drop_last()) + first.last());
    assert(joined(first) =~= tag_text(r));
    lemma_grid_plain(t, d.lx + 2, d.ly + 2);
}

/// The dumps of the ranks below `m` stand at the start of the dumps of the
/// ranks below `n`, for `m` up to `n`.
pub proof fn lemma_report_prefix(d: Layout, tiles: Seq<Seq<i32>>, m: nat, n: nat)
    requires
        m <= n,
    ensures
        d.report(tiles, m).len() <= d.report(tiles, n).len(),
        d.report(tiles, n).subrange(0, d.report(tiles, m).len() as int) == d.report(tiles, m),
    decreases n,
{
    if m == n {
        assert(d.report(tiles, n).subrange(0, d.report(tiles, n).len() as int) =~= d.report(
            tiles,
            n,
        ));
    } else {
        lemma_report_prefix(d, tiles, m, (n - 1) as nat);
        let shorter = d.report(tiles, (n - 1) as nat);
        let len = d.report(tiles, m).len() as int;
        assert(d.report(tiles, n).subrange(0, len) =~= shorter.subrange(0, len));
    }
}

/// The dump of rank `r` stands in the dumps of the ranks below `n`, for `r`
/// below `n`, where the dumps of the ranks below `r` end.
pub proof fn lemma_report_holds_dump(d: Layout, tiles: Seq<Seq<i32>>, r: nat, n: nat)
    requires
        r < n,
    ensures
        occurs_at(
            d.report(tiles, n),
            d.dump_text(r as int, tiles[r as int]),
            d.report(tiles, r).len() as int,
        ),
{
    lemma_report_prefix(d, tiles, r + 1, n);
    let whole = d.report(tiles, n);
    let upto = d.report(tiles, r + 1);
    let start = d.report(tiles, r).len() as int;
    let dump = d.dump_text(r as int, tiles[r as int]);
    assert(upto == d.report(tiles, r) + dump);
    assert(whole.subrange(start, start + dump.len()) =~= whole.subrange(
        0,
        upto.len() as int,
    ).subrange(start, start + dump.len()));
    assert(upto.subrange(start, start + dump.len()) =~= dump);
}

/// In the dumps of the ranks below `n`, the letter `r` stands only where
/// the dump of a rank begins.
pub proof fn lemma_letter_starts_dump(d: Layout, tiles: Seq<Seq<i32>>, n: nat, i: int) -> (r: nat)
    requires
        0 <= d.lx,
        0 <= d.ly,
        0 <= i < d.report(tiles, n).len(),
        d.report(tiles, n)[i] == 'r' as u8,
    ensures
        r < n,
        i == d.report(tiles, r).len(),
    decreases n,
{
    let before = d.report(tiles, (n - 1) as nat);
    if i < before.len() {
        assert(d.report(tiles, n)[i] == before[i]);
        lemma_letter_starts_dump(d, tiles, (n - 1) as nat, i)
    } else {
        let dump = d.dump_text(n - 1, tiles[n - 1]);
        lemma_dump_text(d, n - 1, tiles[n - 1]);
        lemma_tag(n - 1);
        let j = i - before.len();
        assert(d.report(tiles, n)[i] == dump[j]);
        let tag = tag_text(n - 1);
        if j >= tag.len() {
            assert(dump[j] == d.tile_text(tiles[n - 1])[j - tag.len()]);
            assert(is_plain(d.tile_text(tiles[n - 1])[j - tag.len()]));
        } else {
            assert(dump[j] == tag[j]);
        }
        (n - 1) as nat
    }
}

/// After a dump of all tiles, the line that names a rank stands in what the
/// coordinator holds exactly once: where the dumps of the lower ranks end,
/// and there it is followed by the tile of that rank.
pub proof fn lemma_tag_once(d: Layout, tiles: Seq<Seq<i32>>, q: int, i: int)
    requires
        d.wf(),
        0 <= q < d.procs,
    ensures
        occurs_at(
            d.report(tiles, d.procs as nat),
            tag_text(q) + d.tile_text(tiles[q]),
            d.report(tiles, q as nat).len() as int,
        ),
        occurs_at(d.report(tiles, d.procs as nat), tag_text(q), d.report(tiles, q as nat).len() as int),
        occurs_at(d.report(tiles, d.procs as nat), tag_text(q), i) ==> i == d.report(
            tiles,
            q as nat,
        ).len(),
{
    let n = d.procs as nat;
    let whole = d.report(tiles, n);
    let here = d.report(tiles, q as nat).len() as int;
    let tq = tag_text(q);
    lemma_tag(q);
    lemma_dump_text(d, q, tiles[q]);
    lemma_report_holds_dump(d, tiles, q as nat, n);
    let dq = d.dump_text(q, tiles[q]);
    assert(whole.subrange(here, here + tq.len()) =~= dq.subrange(0, tq.len() as int)) by {
        assert(whole.subrange(here, here + dq.len()) == dq);
        assert forall|j: int| 0 <= j < tq.len() implies whole[here + j] == dq[j] by {
            assert(whole.subrange(here, here + dq.len())[j] == whole[here + j]);
        }
    }
    assert(dq.subrange(0, tq.len() as int) =~= tq);
    if occurs_at(whole, tq, i) {
        assert(whole.subrange(i, i + tq.len())[0] == whole[i]);
        let r = lemma_letter_starts_dump(d, tiles, n, i);
        lemma_tag(r as int);
        lemma_dump_text(d, r as int, tiles[r as int]);
        lemma_report_holds_dump(d, tiles, r, n);
        lemma_digits(q as nat);
        lemma_digits(r as nat);
        let tr = tag_text(r as int);
        let dr = d.dump_text(r as int, tiles[r as int]);
        let a = digits(q as nat);
        let b = digits(r as nat);
        let la = a.len() as int;
        let lb = b.len() as int;
        // what stands at the place, read as the one line and as the other
        assert forall|j: int| 0 <= j < tq.len() implies whole[i + j] == #[trigger] tq[j] by {
            assert(whole.subrange(i, i + tq.len())[j] == whole[i + j]);
        }
        assert forall|j: int| 0 <= j < tr.len() implies whole[i + j] == #[trigger] tr[j] by {
            assert(whole.subrange(i, i + dr.len())[j] == whole[i + j]);
            assert(dr[j] == tr[j]);
        }
        if la < lb {
            assert(tq[5 + la] == '\n' as u8);
            assert(tr[5 + la] == b[la]);
            assert(whole[i + (5 + la)] == tq[5 + la]);
            assert(whole[i + (5 + la)] == tr[5 + la]);
            assert(false);
        } else if lb < la {
            assert(tr[5 + lb] == '\n' as u8);
            assert(tq[5 + lb] == a[lb]);
            assert(whole[i + (5 + lb)] == tq[5 + lb]);
            assert(whole[i + (5 + lb)] == tr[5 + lb]);
            assert(false);
        } else {
            assert forall|j: int| 0 <= j < la implies a[j] == b[j] by {
                assert(tq[5 + j] == a[j]);
                assert(tr[5 + j] == b[j]);
                assert(whole[i + (5 + j)] == tq[5 + j]);
                assert(whole[i + (5 + j)] == tr[5 + j]);
            }
            assert(a =~= b);
            lemma_digits_differ(q as nat, r as nat);
        }
    }
}

/// Where the coordinator starts with nothing and all processes dump their
/// tiles, taking the same turns, the coordinator ends with the line that
/// names each rank exactly once, followed by the tile of that rank, the
/// ranks in ascending order.
pub proof fn lemma_dump_names_each_rank_once(
    d: Layout,
    root: Report,
    writers: Seq<Report>,
    tiles: Seq<Seq<i32>>,
    q: int,
    i: int,
)
    requires
        d.wf(),
        root.is_root(),
        root.knows(root.rank),
        root.procs == d.procs,
        root.stdout.len() == 0,
        writers.len() == root.procs,
        forall|r: int|
            0 <= r < root.procs && r != root.rank ==> (#[trigger] writers[r]).rank == r
                && writers[r].root_rank == root.rank && writers[r].procs == root.procs,
        0 <= q < d.procs,
    ensures
        ({
            let out = after_schedule(
                root,
                writers,
                d.dump_schedule(tiles),
                d.dump_schedule(tiles).len(),
            ).stdout;
            let here = d.report(tiles, q as nat).len() as int;
            &&& out == d.report(tiles, d.procs as nat)
            &&& occurs_at(out, tag_text(q) + d.tile_text(tiles[q]), here)
            &&& occurs_at(out, tag_text(q), i) ==> i == here
            &&& q + 1 < d.procs ==> here < d.report(tiles, (q + 1) as nat).len()
        }),
{
    lemma_dump_collects(d, root, writers, tiles);
    assert(root.stdout + d.report(tiles, d.procs as nat) =~= d.report(tiles, d.procs as nat));
    lemma_tag_once(d, tiles, q, i);
    lemma_dump_text(d, q, tiles[q]);
}

} // verus!
