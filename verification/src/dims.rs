//! Splitting a process count into a process grid.
//!
//! Every process computes the split from the process count alone, so the
//! result has to be a function of it: the sides are positive, their product
//! is the process count, they come in non-increasing order, and no other
//! such sides have a smaller ratio of the longest to the shortest. Of the
//! grids that are equally close to equal, the one with the shortest last side
//! is taken, then the one with the shortest side before it, and so on. A
//! caller may set some of the sides beforehand; the others are then chosen
//! in the same way for the processes that are left.

use vstd::prelude::*;
use vstd::arithmetic::div_mod::lemma_fundamental_div_mod;
use vstd::arithmetic::div_mod::lemma_fundamental_div_mod_converse;
use crate::error::ConfigError;

verus! {

/// `a` by `b` processes are `p` processes, the longer side first.
pub open spec fn is_split(p: int, a: int, b: int) -> bool {
    1 <= b <= a && a * b == p
}

/// `a` by `b` is the split of `p` that is closest to a square: no other split
/// has a shorter long side.
pub open spec fn is_balanced_split(p: int, a: int, b: int) -> bool {
    &&& is_split(p, a, b)
    &&& forall|c: int, d: int| #[trigger] is_split(p, c, d) ==> a <= c
}

/// The balanced split of `p`, for `p >= 1`.
pub open spec fn balanced_split(p: int) -> (int, int) {
    choose|s: (int, int)| is_balanced_split(p, s.0, s.1)
}

/// The product of the entries of `s`.
pub open spec fn product(s: Seq<int>) -> int
    decreases s.len(),
{
    if s.len() == 0 {
        1
    } else {
        product(s.drop_last()) * s.last()
    }
}

/// `s` holds `n` sides, none shorter than `lo`, in non-increasing order,
/// whose product is `p`.
pub open spec fn fits(p: int, n: int, lo: int, s: Seq<int>) -> bool {
    &&& s.len() == n
    &&& forall|i: int| 0 <= i < s.len() ==> s[i] >= lo
    &&& forall|i: int, j: int| 0 <= i <= j < s.len() ==> s[i] >= s[j]
    &&& product(s) == p
}

/// `s` is a process grid of `n` dimensions for `p` processes: `n` positive
/// sides in non-increasing order whose product is `p`.
pub open spec fn is_sides(p: int, n: int, s: Seq<int>) -> bool {
    fits(p, n, 1, s)
}

/// The sides `s` are at least as close to equal as the sides `t`: the ratio
/// of the longest to the shortest is no larger.
pub open spec fn closer(s: Seq<int>, t: Seq<int>) -> bool {
    s.first() * t.last() <= t.first() * s.last()
}

/// `s` is a process grid of `n` dimensions for `p` processes whose sides are
/// as close to equal as possible: no other grid has a smaller ratio of the
/// longest side to the shortest.
pub open spec fn is_balanced_sides(p: int, n: int, s: Seq<int>) -> bool {
    &&& is_sides(p, n, s)
    &&& forall|t: Seq<int>| #[trigger] is_sides(p, n, t) ==> closer(s, t)
}

/// The sides `s` come no later than the sides `t` when grids are ordered by
/// their last side, then by the side before it, and so on.
pub open spec fn comes_first(s: Seq<int>, t: Seq<int>) -> bool
    decreases s.len(),
{
    if s.len() == 0 || t.len() == 0 {
        true
    } else if s.last() != t.last() {
        s.last() < t.last()
    } else {
        comes_first(s.drop_last(), t.drop_last())
    }
}

/// `s` is the process grid of `n` dimensions for `p` processes: its sides
/// are as close to equal as possible, and of all such grids it is the one
/// that comes first.
pub open spec fn is_balanced_grid(p: int, n: int, s: Seq<int>) -> bool {
    &&& is_balanced_sides(p, n, s)
    &&& forall|t: Seq<int>| #[trigger] is_balanced_sides(p, n, t) ==> comes_first(s, t)
}

/// The entries of `v` as mathematical integers.
pub open spec fn ints(v: Seq<i32>) -> Seq<int> {
    Seq::new(v.len(), |i: int| v[i] as int)
}

/// A process count has at most one balanced split.
pub proof fn lemma_balanced_split_unique(p: int, a: int, b: int, c: int, d: int)
    requires
        is_balanced_split(p, a, b),
        is_balanced_split(p, c, d),
    ensures
        a == c,
        b == d,
{
    assert(is_split(p, a, b));
    assert(is_split(p, c, d));
    assert(b == d) by (nonlinear_arith)
        requires
            a == c,
            a >= 1,
            a * b == p,
            c * d == p,
    ;
}

/// Whoever holds a balanced split of `p` holds `balanced_split(p)`.
pub proof fn lemma_balanced_split_is(p: int, a: int, b: int)
    requires
        is_balanced_split(p, a, b),
    ensures
        balanced_split(p) == (a, b),
{
    let s = (a, b);
    assert(is_balanced_split(p, s.0, s.1));
    let t = balanced_split(p);
    assert(is_balanced_split(p, t.0, t.1));
    lemma_balanced_split_unique(p, a, b, t.0, t.1);
}

/// A product of positive sides is positive.
pub proof fn lemma_product_positive(s: Seq<int>)
    requires
        forall|i: int| 0 <= i < s.len() ==> s[i] >= 1,
    ensures
        product(s) >= 1,
    decreases s.len(),
{
    if s.len() > 0 {
        lemma_product_positive(s.drop_last());
        assert(product(s.drop_last()) * s.last() >= 1) by (nonlinear_arith)
            requires
                product(s.drop_last()) >= 1,
                s.last() >= 1,
        ;
    }
}

/// The product of one side is the side, and the product of two sides is
/// their product.
pub proof fn lemma_product_small(a: int, b: int)
    ensures
        product(seq![a]) == a,
        product(seq![a, b]) == a * b,
{
    assert(seq![a].drop_last() =~= Seq::<int>::empty());
    assert(product(Seq::<int>::empty()) == 1);
    assert(seq![a].last() == a);
    assert(product(seq![a]) == product(seq![a].drop_last()) * a);
    assert(seq![a, b].drop_last() =~= seq![a]);
    assert(seq![a, b].last() == b);
    assert(product(seq![a, b]) == product(seq![a, b].drop_last()) * b);
}

/// One more side multiplies the product by it.
pub proof fn lemma_product_push(s: Seq<int>, side: int)
    ensures
        product(s.push(side)) == product(s) * side,
{
    assert(s.push(side).drop_last() =~= s);
    assert(s.push(side).last() == side);
}

/// Sides without the last one are sides of the quotient, none shorter than
/// the last one; and the last side is at most the square root.
proof fn lemma_split_last(p: int, n: int, lo: int, t: Seq<int>)
    requires
        fits(p, n, lo, t),
        n >= 2,
        lo >= 1,
    ensures
        t.last() >= lo,
        p % t.last() == 0,
        t.last() * t.last() <= p,
        fits(p / t.last(), n - 1, t.last(), t.drop_last()),
        t.drop_last().first() == t.first(),
{
    let m = t.last();
    let r = t.drop_last();
    assert forall|i: int| 0 <= i < r.len() implies r[i] >= m by {
        assert(r[i] == t[i]);
    }
    assert forall|i: int| 0 <= i < r.len() implies r[i] >= 1 by {
        assert(r[i] == t[i]);
    }
    let rr = r.drop_last();
    assert forall|i: int| 0 <= i < rr.len() implies rr[i] >= 1 by {
        assert(rr[i] == t[i]);
    }
    lemma_product_positive(rr);
    assert(product(r) == product(rr) * r.last());
    assert(r.last() == t[n - 2]);
    assert(product(t) == product(r) * m);
    assert(m * m <= p) by (nonlinear_arith)
        requires
            p == product(r) * m,
            product(r) == product(rr) * r.last(),
            product(rr) >= 1,
            r.last() >= m,
            m >= 1,
    ;
    lemma_fundamental_div_mod_converse(p, m, product(r), 0);
}

/// Sides with one more side at the end, no longer than any of them, are
/// sides of the product.
proof fn lemma_push_last(q: int, k: int, m: int, lo: int, w: Seq<int>)
    requires
        fits(q, k, m, w),
        k >= 1,
        m >= lo,
    ensures
        fits(q * m, k + 1, lo, w.push(m)),
        w.push(m).first() == w.first(),
        w.push(m).last() == m,
{
    let c = w.push(m);
    assert(c.drop_last() =~= w);
    assert(product(c) == product(w) * m);
}

/// The process count in one side, then ones: sides in any number of
/// dimensions.
proof fn lemma_sides_exist(p: int, n: int)
    requires
        p >= 1,
        n >= 1,
    ensures
        is_sides(p, n, Seq::new(n as nat, |i: int| if i == 0 { p } else { 1 })),
    decreases n,
{
    let s = Seq::new(n as nat, |i: int| if i == 0 { p } else { 1 });
    if n == 1 {
        assert(s =~= seq![p]);
        lemma_product_small(p, 0);
    } else {
        let r = Seq::new((n - 1) as nat, |i: int| if i == 0 { p } else { 1 });
        lemma_sides_exist(p, n - 1);
        assert(s.drop_last() =~= r);
        assert(product(s) == product(r) * 1);
    }
}

/// Every grid comes no later than itself.
proof fn lemma_comes_first_self(s: Seq<int>)
    ensures
        comes_first(s, s),
    decreases s.len(),
{
    if s.len() > 0 {
        lemma_comes_first_self(s.drop_last());
    }
}

/// Of two grids of the same number of sides, only one comes first.
pub proof fn lemma_comes_first_one(s: Seq<int>, t: Seq<int>)
    requires
        s.len() == t.len(),
        comes_first(s, t),
        comes_first(t, s),
    ensures
        s == t,
    decreases s.len(),
{
    if s.len() > 0 {
        lemma_comes_first_one(s.drop_last(), t.drop_last());
        assert(s =~= s.drop_last().push(s.last()));
        assert(t =~= t.drop_last().push(t.last()));
    } else {
        assert(s =~= t);
    }
}

/// A process count has one process grid in each number of dimensions.
pub proof fn lemma_balanced_grid_unique(p: int, n: int, s: Seq<int>, t: Seq<int>)
    requires
        is_balanced_grid(p, n, s),
        is_balanced_grid(p, n, t),
    ensures
        s == t,
{
    assert(is_balanced_sides(p, n, s));
    assert(is_balanced_sides(p, n, t));
    lemma_comes_first_one(s, t);
}

/// Grids with the same last side come in the order of what is before it.
proof fn lemma_comes_first_push(w: Seq<int>, m: int, t: Seq<int>)
    requires
        t.len() >= 1,
        t.last() == m,
        comes_first(w, t.drop_last()),
    ensures
        comes_first(w.push(m), t),
{
    assert(w.push(m).drop_last() =~= w);
    assert(w.push(m).last() == m);
}

/// Where one grid is closer to equal than a second, and the second at least
/// as close as a third, the first is closer than the third.
proof fn lemma_closer_chain(a0: int, al: int, b0: int, bl: int, t0: int, tl: int)
    requires
        a0 >= 1,
        al >= 1,
        b0 >= 1,
        bl >= 1,
        t0 >= 1,
        tl >= 1,
        a0 * bl < b0 * al,
        b0 * tl <= t0 * bl,
    ensures
        a0 * tl < t0 * al,
{
    assert((a0 * bl) * tl < (b0 * al) * tl) by (nonlinear_arith)
        requires
            a0 * bl < b0 * al,
            tl >= 1,
    ;
    assert((b0 * tl) * al <= (t0 * bl) * al) by (nonlinear_arith)
        requires
            b0 * tl <= t0 * bl,
            al >= 1,
    ;
    assert((a0 * tl) * bl < (t0 * al) * bl) by (nonlinear_arith)
        requires
            (a0 * bl) * tl < (b0 * al) * tl,
            (b0 * tl) * al <= (t0 * bl) * al,
    ;
    assert(a0 * tl < t0 * al) by (nonlinear_arith)
        requires
            (a0 * tl) * bl < (t0 * al) * bl,
            bl >= 1,
    ;
}

/// `n` sides that are all `c`.
pub open spec fn equal_sides(n: int, c: int) -> Seq<int> {
    Seq::new(n as nat, |i: int| c)
}

/// The product of equal sides grows with the side.
proof fn lemma_equal_sides_grow(n: int, a: int, b: int)
    requires
        0 <= n,
        1 <= a < b,
    ensures
        1 <= product(equal_sides(n, a)) <= product(equal_sides(n, b)),
        n >= 1 ==> product(equal_sides(n, a)) < product(equal_sides(n, b)),
    decreases n,
{
    if n > 0 {
        lemma_equal_sides_grow(n - 1, a, b);
        assert(equal_sides(n, a).drop_last() =~= equal_sides(n - 1, a));
        assert(equal_sides(n, b).drop_last() =~= equal_sides(n - 1, b));
        let x = product(equal_sides(n - 1, a));
        let y = product(equal_sides(n - 1, b));
        assert(product(equal_sides(n, a)) == x * a);
        assert(product(equal_sides(n, b)) == y * b);
        assert(1 <= x * a && x * a < y * b) by (nonlinear_arith)
            requires
                1 <= x <= y,
                1 <= a < b,
        ;
    }
}

/// Where the processes fill a grid whose sides are all equal, that grid is
/// the only one whose sides are as close to equal as possible: sixteen
/// processes in four dimensions are two by two by two by two.
pub proof fn lemma_equal_sides(p: int, n: int, c: int, s: Seq<int>)
    requires
        n >= 1,
        c >= 1,
        product(equal_sides(n, c)) == p,
        is_balanced_sides(p, n, s),
    ensures
        s == equal_sides(n, c),
{
    let e = equal_sides(n, c);
    assert(is_sides(p, n, e));
    assert(closer(s, e));
    assert(s.first() >= 1 && s.last() >= 1);
    assert(s.first() <= s.last()) by (nonlinear_arith)
        requires
            s.first() * c <= c * s.last(),
            c >= 1,
    ;
    let d = s.first();
    assert forall|i: int| 0 <= i < n implies s[i] == d by {
        assert(s[0] >= s[i] && s[i] >= s[n - 1]);
    }
    assert(s =~= equal_sides(n, d));
    if d < c {
        lemma_equal_sides_grow(n, d, c);
    } else if c < d {
        lemma_equal_sides_grow(n, c, d);
    }
}

/// In two dimensions the sides that are as close to equal as possible are
/// the balanced split.
pub proof fn lemma_balanced_sides_split(p: int, s: Seq<int>)
    requires
        is_balanced_sides(p, 2, s),
    ensures
        is_balanced_split(p, s[0], s[1]),
        s =~= seq![s[0], s[1]],
{
    let a = s[0];
    let b = s[1];
    assert(s =~= seq![a, b]);
    lemma_product_small(a, b);
    assert(is_sides(p, 2, s));
    assert(a >= b) by {
        assert(s[0] >= s[1]);
    }
    assert(is_split(p, a, b));
    assert forall|c: int, d: int| #[trigger] is_split(p, c, d) implies a <= c by {
        let t = seq![c, d];
        lemma_product_small(c, d);
        assert(is_sides(p, 2, t));
        assert(closer(s, t));
        assert(a <= c) by (nonlinear_arith)
            requires
                a * d <= c * b,
                a * b == c * d,
                a >= 1,
                b >= 1,
                c >= 1,
                d >= 1,
        ;
    }
}

/// Every process count has a balanced split: two sides, the longer first,
/// whose product is the process count.
pub proof fn lemma_balanced_split(p: int)
    requires
        1 <= p,
    ensures
        is_balanced_split(p, balanced_split(p).0, balanced_split(p).1),
        balanced_split(p).0 * balanced_split(p).1 == p,
        1 <= balanced_split(p).1 <= balanced_split(p).0,
{
    assert(p % 1 == 0);
    assert forall|c: int, d: int| #[trigger] is_split(p, c, d) && d < 2 implies d <= 1 by {}
    let s = lemma_search_split(p, 2, 1);
    lemma_balanced_split_is(p, s.0, s.1);
}

/// A split with a longer short side has a shorter long side.
proof fn lemma_split_order(p: int, a: int, b: int, c: int, d: int)
    requires
        is_split(p, a, b),
        is_split(p, c, d),
        d <= b,
    ensures
        a <= c,
{
    assert(a <= c) by (nonlinear_arith)
        requires
            1 <= d <= b,
            1 <= a,
            1 <= c,
            a * b == c * d,
    ;
}

/// The short side of a split is at most the square root.
proof fn lemma_short_side(p: int, c: int, d: int, k: int)
    requires
        is_split(p, c, d),
        1 <= k,
        k * k > p,
    ensures
        d < k,
{
    assert(d < k) by (nonlinear_arith)
        requires
            1 <= d <= c,
            c * d == p,
            1 <= k,
            k * k > p,
    ;
}

/// Looks for the balanced split of `p` among the short sides from `k` on,
/// `best` being the longest short side below `k`.
proof fn lemma_search_split(p: int, k: int, best: int) -> (s: (int, int))
    requires
        1 <= best < k <= p + 1,
        best * best <= p,
        p % best == 0,
        forall|c: int, d: int| #[trigger] is_split(p, c, d) && d < k ==> d <= best,
    ensures
        is_balanced_split(p, s.0, s.1),
    decreases p + 1 - k,
{
    if k * k > p {
        let a = p / best;
        lemma_fundamental_div_mod(p, best);
        assert(a * best == p && best <= a) by (nonlinear_arith)
            requires
                p == best * (p / best) + p % best,
                p % best == 0,
                a == p / best,
                best * best <= p,
                best >= 1,
        ;
        assert(is_split(p, a, best));
        assert forall|c: int, d: int| #[trigger] is_split(p, c, d) implies a <= c by {
            lemma_short_side(p, c, d, k);
            lemma_split_order(p, a, best, c, d);
        }
        (a, best)
    } else {
        assert(k <= p) by (nonlinear_arith)
            requires
                k * k <= p,
                k >= 1,
        ;
        let next = if p % k == 0 {
            k
        } else {
            best
        };
        assert forall|c: int, d: int| #[trigger] is_split(p, c, d) && d < k + 1 implies d
            <= next by {
            if d == k {
                assert(p % k == 0) by (nonlinear_arith)
                    requires
                        c * d == p,
                        d == k,
                        k >= 1,
                ;
            }
        }
        lemma_search_split(p, k + 1, next)
    }
}

/// Among the grids of `n` dimensions for `p` processes with no side shorter
/// than `lo`, one whose longest side is as short as possible, if there is
/// any.
fn least_first(p: i32, n: i32, lo: i32) -> (r: Option<Vec<i32>>)
    requires
        p >= 1,
        n >= 1,
        lo >= 1,
    ensures
        r matches Some(v) ==> fits(p as int, n as int, lo as int, ints(v@)),
        r matches Some(v) ==> forall|t: Seq<int>| #[trigger]
            fits(p as int, n as int, lo as int, t) ==> v@[0] <= t.first(),
        r matches Some(v) ==> forall|t: Seq<int>| #[trigger]
            fits(p as int, n as int, lo as int, t) && t.first() == v@[0] ==> comes_first(
                ints(v@),
                t,
            ),
        r is None ==> forall|t: Seq<int>| !#[trigger] fits(p as int, n as int, lo as int, t),
    decreases n,
{
    if n == 1 {
        proof {
            assert forall|t: Seq<int>| #[trigger] fits(p as int, 1, lo as int, t) implies t.first()
                == p && p >= lo && t == seq![p as int] by {
                assert(t =~= seq![t[0]]);
                lemma_product_small(t[0], 0);
            }
            lemma_comes_first_self(seq![p as int]);
        }
        if p >= lo {
            let mut v: Vec<i32> = Vec::new();
            v.push(p);
            proof {
                assert(ints(v@) =~= seq![p as int]);
                lemma_product_small(p as int, 0);
            }
            Some(v)
        } else {
            None
        }
    } else {
        let mut found: bool = false;
        let mut best: Vec<i32> = Vec::new();
        let mut m: i32 = lo;
        while m <= p / m
            invariant
                p >= 1,
                n >= 2,
                1 <= lo <= m,
                found ==> fits(p as int, n as int, lo as int, ints(best@)),
                found ==> ints(best@).last() < m,
                forall|t: Seq<int>| #[trigger]
                    fits(p as int, n as int, lo as int, t) && t.last() < m ==> found && best@[0]
                        <= t.first(),
                forall|t: Seq<int>| #[trigger]
                    fits(p as int, n as int, lo as int, t) && t.last() < m && t.first() == best@[0]
                        ==> comes_first(ints(best@), t),
            decreases p + 1 - m,
        {
            assert(m * m <= p && m <= p && m <= 46340) by (nonlinear_arith)
                requires
                    m <= p / m,
                    m >= 1,
                    1 <= p <= 0x7fff_ffff,
            ;
            let ghost was_found = found;
            let ghost old_best = best@;
            let mut sub: Option<Vec<i32>> = None;
            if p % m == 0 {
                sub = least_first(p / m, n - 1, m);
            }
            let ghost sub_is = sub;
            let ghost mut improved = false;
            match sub {
                Some(w) => {
                    proof {
                        lemma_fundamental_div_mod(p as int, m as int);
                        assert((p / m) * m == p) by (nonlinear_arith)
                            requires
                                p == m * (p as int / m as int) + p as int % m as int,
                                p as int % m as int == 0,
                        ;
                        lemma_push_last((p / m) as int, n - 1, m as int, lo as int, ints(w@));
                        assert(ints(w@.push(m)) =~= ints(w@).push(m as int));
                        assert(ints(w@)[0] == w@[0]);
                    }
                    let improve: bool = if found {
                        w[0] < best[0]
                    } else {
                        true
                    };
                    if improve {
                        let mut c: Vec<i32> = w;
                        c.push(m);
                        best = c;
                        found = true;
                        proof {
                            improved = true;
                        }
                    }
                },
                None => {},
            }
            proof {
                assert forall|t: Seq<int>| #[trigger]
                    fits(p as int, n as int, lo as int, t) && t.last() < m + 1 implies found
                    && best@[0] <= t.first() by {
                    if t.last() == m {
                        lemma_split_last(p as int, n as int, lo as int, t);
                        assert(fits((p / m) as int, n - 1, m as int, t.drop_last()));
                        assert(sub_is is Some);
                    } else {
                        assert(was_found && old_best[0] <= t.first());
                    }
                }
                assert forall|t: Seq<int>| #[trigger]
                    fits(p as int, n as int, lo as int, t) && t.last() < m + 1 && t.first()
                    == best@[0] implies comes_first(ints(best@), t) by {
                    if t.last() == m {
                        lemma_split_last(p as int, n as int, lo as int, t);
                        assert(fits((p / m) as int, n - 1, m as int, t.drop_last()));
                        if improved {
                            let w = sub_is->Some_0;
                            assert(comes_first(ints(w@), t.drop_last()));
                            lemma_comes_first_push(ints(w@), m as int, t);
                        } else {
                            assert(ints(best@).last() < t.last());
                        }
                    } else {
                        assert(was_found && old_best[0] <= t.first());
                        assert(!improved);
                    }
                }
            }
            m = m + 1;
        }
        proof {
            assert(m * m > p) by (nonlinear_arith)
                requires
                    m > p / m,
                    m >= 1,
                    p >= 1,
            ;
            assert forall|t: Seq<int>| #[trigger]
                fits(p as int, n as int, lo as int, t) implies t.last() < m by {
                lemma_split_last(p as int, n as int, lo as int, t);
                assert(t.last() < m) by (nonlinear_arith)
                    requires
                        t.last() * t.last() <= p,
                        m * m > p,
                        m >= 1,
                        t.last() >= 1,
                ;
            }
        }
        if found {
            Some(best)
        } else {
            None
        }
    }
}

/// Sides that are all two or more have a product of at least two to the
/// power of their number.
proof fn lemma_product_of_long_sides(t: Seq<int>)
    requires
        forall|i: int| 0 <= i < t.len() ==> t[i] >= 2,
    ensures
        product(t) >= vstd::arithmetic::power2::pow2(t.len()),
    decreases t.len(),
{
    if t.len() == 0 {
        vstd::arithmetic::power2::lemma2_to64();
    } else {
        lemma_product_of_long_sides(t.drop_last());
        vstd::arithmetic::power2::lemma_pow2_unfold(t.len());
        let x = product(t.drop_last());
        let y = vstd::arithmetic::power2::pow2((t.len() - 1) as nat);
        assert(x * t.last() >= 2 * y) by (nonlinear_arith)
            requires
                x >= y,
                y >= 0,
                t.last() >= 2,
        ;
    }
}

/// In thirty-one dimensions or more, a grid for a process count that the
/// machine can hold has a side of one.
proof fn lemma_many_sides_end_in_one(p: int, k: int, t: Seq<int>)
    requires
        is_sides(p, k, t),
        k >= 31,
        1 <= p <= 0x7fff_ffff,
    ensures
        t.last() == 1,
{
    if t.last() >= 2 {
        assert forall|i: int| 0 <= i < t.len() implies t[i] >= 2 by {
            assert(t[i] >= t[k - 1]);
        }
        lemma_product_of_long_sides(t);
        vstd::arithmetic::power2::lemma2_to64();
        if k > 31 {
            vstd::arithmetic::power2::lemma_pow2_strictly_increases(31, k as nat);
        }
    }
}

/// In thirty-one dimensions or more, the process grid of one more
/// dimension is the process grid with a side of one added.
pub proof fn lemma_one_more_dimension(p: int, k: int, s: Seq<int>)
    requires
        is_balanced_grid(p, k, s),
        k >= 31,
        1 <= p <= 0x7fff_ffff,
    ensures
        is_balanced_grid(p, k + 1, s.push(1)),
{
    let c = s.push(1);
    lemma_push_last(p, k, 1, 1, s);
    assert(p * 1 == p);
    lemma_many_sides_end_in_one(p, k, s);
    assert forall|t: Seq<int>| #[trigger] is_sides(p, k + 1, t) implies closer(c, t) by {
        lemma_many_sides_end_in_one(p, k + 1, t);
        lemma_split_last(p, k + 1, 1, t);
        assert(p / 1 == p);
        let r = t.drop_last();
        assert(is_sides(p, k, r));
        lemma_many_sides_end_in_one(p, k, r);
        assert(closer(s, r));
        assert(c.first() == s.first());
        assert(c.last() == 1);
    }
    assert forall|t: Seq<int>| #[trigger] is_balanced_sides(p, k + 1, t) implies comes_first(
        c,
        t,
    ) by {
        assert(is_sides(p, k + 1, t));
        lemma_many_sides_end_in_one(p, k + 1, t);
        lemma_split_last(p, k + 1, 1, t);
        assert(p / 1 == p);
        let r = t.drop_last();
        assert(is_sides(p, k, r));
        lemma_many_sides_end_in_one(p, k, r);
        // without its last side, the grid is as close to equal as any
        assert forall|u: Seq<int>| #[trigger] is_sides(p, k, u) implies closer(r, u) by {
            lemma_many_sides_end_in_one(p, k, u);
            lemma_push_last(p, k, 1, 1, u);
            assert(is_sides(p, k + 1, u.push(1)));
            assert(closer(t, u.push(1)));
        }
        assert(is_balanced_sides(p, k, r));
        assert(comes_first(s, r));
        lemma_comes_first_push(s, 1, t);
    }
}

/// The process grid of `n` dimensions for `p` processes.
fn balanced_sides(p: i32, n: i32) -> (v: Vec<i32>)
    requires
        p >= 1,
        n >= 1,
    ensures
        is_balanced_grid(p as int, n as int, ints(v@)),
{
    if n <= 31 {
        return search_sides(p, n);
    }
    // beyond thirty dimensions there is nothing left but sides of one
    let mut v = search_sides(p, 31);
    let mut k: i32 = 31;
    while k < n
        invariant
            1 <= p,
            31 <= k <= n,
            is_balanced_grid(p as int, k as int, ints(v@)),
        decreases n - k,
    {
        proof {
            lemma_one_more_dimension(p as int, k as int, ints(v@));
            assert(ints(v@.push(1i32)) =~= ints(v@).push(1int));
        }
        v.push(1);
        k = k + 1;
    }
    v
}

/// The process grid of `n` dimensions for `p` processes, found by trying
/// every shortest side.
fn search_sides(p: i32, n: i32) -> (v: Vec<i32>)
    requires
        p >= 1,
        n >= 1,
    ensures
        is_balanced_grid(p as int, n as int, ints(v@)),
{
    if n == 1 {
        let mut v: Vec<i32> = Vec::new();
        v.push(p);
        proof {
            assert(ints(v@) =~= seq![p as int]);
            lemma_product_small(p as int, 0);
            lemma_comes_first_self(seq![p as int]);
            assert forall|t: Seq<int>| #[trigger] is_sides(p as int, 1, t) implies closer(
                ints(v@),
                t,
            ) && t == seq![p as int] by {
                assert(t =~= seq![t[0]]);
                lemma_product_small(t[0], 0);
            }
            assert forall|t: Seq<int>| #[trigger]
                is_balanced_sides(p as int, 1, t) implies comes_first(ints(v@), t) by {
                assert(is_sides(p as int, 1, t));
            }
        }
        return v;
    }
    let mut found: bool = false;
    let mut best: Vec<i32> = Vec::new();
    let mut m: i32 = 1;
    while m <= p / m
        invariant
            p >= 1,
            n >= 2,
            1 <= m,
            found ==> is_sides(p as int, n as int, ints(best@)),
            found ==> ints(best@).last() < m,
            forall|t: Seq<int>| #[trigger]
                is_sides(p as int, n as int, t) && t.last() < m ==> found && closer(ints(best@), t),
            forall|t: Seq<int>| #[trigger]
                is_sides(p as int, n as int, t) && t.last() < m && closer(t, ints(best@))
                    ==> comes_first(ints(best@), t),
        decreases p + 1 - m,
    {
        assert(m * m <= p && m <= p && m <= 46340) by (nonlinear_arith)
            requires
                m <= p / m,
                m >= 1,
                1 <= p <= 0x7fff_ffff,
        ;
        let ghost was_found = found;
        let ghost old_best = ints(best@);
        let mut sub: Option<Vec<i32>> = None;
        if p % m == 0 {
            sub = least_first(p / m, n - 1, m);
        }
        let ghost sub_is = sub;
        let ghost mut improved = false;
        match sub {
            Some(w) => {
                proof {
                    lemma_fundamental_div_mod(p as int, m as int);
                    assert((p / m) * m == p) by (nonlinear_arith)
                        requires
                            p == m * (p as int / m as int) + p as int % m as int,
                            p as int % m as int == 0,
                    ;
                    lemma_push_last((p / m) as int, n - 1, m as int, 1, ints(w@));
                    assert(ints(w@.push(m)) =~= ints(w@).push(m as int));
                    assert(ints(w@)[0] == w@[0]);
                    if found {
                        assert(ints(best@).first() >= 1 && ints(best@).last() >= 1);
                    }
                }
                let improve: bool = if found {
                    let last: i32 = best[best.len() - 1];
                    assert(0 <= w[0] * last <= 0x7fff_ffff * 0x7fff_ffff && 0 <= best[0] * m
                        <= 0x7fff_ffff * 0x7fff_ffff) by (nonlinear_arith)
                        requires
                            1 <= w[0] <= 0x7fff_ffff,
                            1 <= last <= 0x7fff_ffff,
                            1 <= best[0] <= 0x7fff_ffff,
                            1 <= m <= 0x7fff_ffff,
                    ;
                    (w[0] as i64) * (last as i64) < (best[0] as i64) * (m as i64)
                } else {
                    true
                };
                if improve {
                    let mut c: Vec<i32> = w;
                    c.push(m);
                    best = c;
                    found = true;
                    proof {
                        improved = true;
                    }
                }
            },
            None => {},
        }
        proof {
            let b = ints(best@);
            assert forall|t: Seq<int>| #[trigger]
                is_sides(p as int, n as int, t) && t.last() < m + 1 implies found && closer(b, t)
                && (closer(t, b) ==> comes_first(b, t)) by {
                assert(t.first() >= 1 && t.last() >= 1);
                if t.last() == m {
                    lemma_split_last(p as int, n as int, 1, t);
                    assert(fits((p / m) as int, n - 1, m as int, t.drop_last()));
                    assert(sub_is is Some);
                    let w = sub_is->Some_0;
                    let w0 = w@[0] as int;
                    assert(w0 <= t.first());
                    if improved {
                        assert(b.first() == w0 && b.last() == m);
                        assert(w0 * m <= t.first() * m) by (nonlinear_arith)
                            requires
                                w0 <= t.first(),
                                m >= 1,
                        ;
                        if closer(t, b) {
                            assert(t.first() <= w0) by (nonlinear_arith)
                                requires
                                    t.first() * m <= w0 * m,
                                    m >= 1,
                            ;
                            assert(comes_first(ints(w@), t.drop_last()));
                            lemma_comes_first_push(ints(w@), m as int, t);
                        }
                    } else {
                        assert(b == old_best && was_found);
                        assert(b.first() * m <= w0 * b.last());
                        assert(b.first() * m <= t.first() * b.last()) by (nonlinear_arith)
                            requires
                                b.first() * m <= w0 * b.last(),
                                w0 <= t.first(),
                                b.last() >= 1,
                        ;
                        assert(b.last() < t.last());
                    }
                } else {
                    assert(was_found && closer(old_best, t));
                    if improved {
                        let w0 = sub_is->Some_0@[0] as int;
                        assert(b.first() == w0 && b.last() == m);
                        assert(old_best.first() >= 1 && old_best.last() >= 1);
                        lemma_closer_chain(
                            w0,
                            m as int,
                            old_best.first(),
                            old_best.last(),
                            t.first(),
                            t.last(),
                        );
                    }
                }
            }
        }
        m = m + 1;
    }
    proof {
        assert(m * m > p) by (nonlinear_arith)
            requires
                m > p / m,
                m >= 1,
                p >= 1,
        ;
        assert forall|t: Seq<int>| #[trigger] is_sides(p as int, n as int, t) implies t.last()
            < m by {
            lemma_split_last(p as int, n as int, 1, t);
            assert(t.last() < m) by (nonlinear_arith)
                requires
                    t.last() * t.last() <= p,
                    m * m > p,
                    m >= 1,
                    t.last() >= 1,
            ;
        }
        lemma_sides_exist(p as int, n as int);
        assert forall|t: Seq<int>| #[trigger]
            is_balanced_sides(p as int, n as int, t) implies comes_first(ints(best@), t) by {
            assert(is_sides(p as int, n as int, t));
            assert(closer(t, ints(best@)));
        }
    }
    best
}

/// Splits `p` processes into a grid of `ndims` dimensions: positive sides in
/// non-increasing order whose product is `p`, as close to equal as possible.
/// Where several grids are as close, the one with the shortest last side is
/// taken, then the one with the shortest side before it, and so on.
///
/// In two dimensions that is the balanced split. A process count or a number
/// of dimensions below one is refused.
pub fn compute_dims(p: i32, ndims: i32) -> (r: Result<Vec<i32>, ConfigError>)
    ensures
        match r {
            Ok(v) => p >= 1 && ndims >= 1 && is_balanced_grid(p as int, ndims as int, ints(v@)),
            Err(e) => if p < 1 {
                e == ConfigError::BadProcessCount
            } else {
                ndims < 1 && e == ConfigError::UnsupportedShape
            },
        },
        r matches Ok(v) ==> v.len() == ndims,
        ndims == 2 ==> (r matches Ok(v) ==> is_balanced_split(p as int, v[0] as int, v[1] as int)),
{
    if p < 1 {
        Err(ConfigError::BadProcessCount)
    } else if ndims < 1 {
        Err(ConfigError::UnsupportedShape)
    } else {
        let v = balanced_sides(p, ndims);
        proof {
            if ndims == 2 {
                lemma_balanced_sides_split(p as int, ints(v@));
            }
        }
        Ok(v)
    }
}

/// A side as it counts in the product of the sides that the caller has set:
/// a side that is left to be chosen counts as one.
pub open spec fn preset(side: int) -> int {
    if side != 0 {
        side
    } else {
        1
    }
}

/// The product of the sides that the caller has set in `dims`; a side that
/// is zero is left to be chosen.
pub open spec fn preset_product(dims: Seq<int>) -> int
    decreases dims.len(),
{
    if dims.len() == 0 {
        1
    } else {
        preset_product(dims.drop_last()) * preset(dims.last())
    }
}

/// The number of sides that `dims` leaves to be chosen.
pub open spec fn free_count(dims: Seq<int>) -> int
    decreases dims.len(),
{
    if dims.len() == 0 {
        0
    } else if dims.last() == 0 {
        free_count(dims.drop_last()) + 1
    } else {
        free_count(dims.drop_last())
    }
}

/// The sides of `after` at the places that `before` leaves to be chosen, in
/// their order.
pub open spec fn free_sides(before: Seq<int>, after: Seq<int>) -> Seq<int>
    decreases before.len(),
{
    if before.len() == 0 {
        Seq::empty()
    } else if before.last() == 0 {
        free_sides(before.drop_last(), after.drop_last()).push(after.last())
    } else {
        free_sides(before.drop_last(), after.drop_last())
    }
}

/// Why a request for a process grid of `ndims` dimensions for `nnodes`
/// processes, with the sides `dims` set beforehand, cannot be met; `None`
/// where it can.
pub open spec fn request_error(nnodes: int, ndims: int, dims: Seq<int>) -> Option<ConfigError> {
    if nnodes < 1 {
        Some(ConfigError::BadProcessCount)
    } else if ndims < 1 || dims.len() != ndims || exists|i: int|
        0 <= i < dims.len() && #[trigger] dims[i] < 0 {
        Some(ConfigError::UnsupportedShape)
    } else if nnodes % preset_product(dims) != 0 || (free_count(dims) == 0 && preset_product(dims)
        != nnodes) {
        Some(ConfigError::ShapeMismatch)
    } else {
        None
    }
}

/// The grid `after` meets the request `before` for `nnodes` processes: the
/// sides that were set are kept, and the sides that were left to be chosen
/// are, in their order, the process grid for the processes that the set
/// sides leave.
pub open spec fn meets_request(nnodes: int, before: Seq<int>, after: Seq<int>) -> bool {
    &&& after.len() == before.len()
    &&& forall|i: int| 0 <= i < before.len() && before[i] != 0 ==> after[i] == before[i]
    &&& free_count(before) >= 1 ==> is_balanced_grid(
        nnodes / preset_product(before),
        free_count(before),
        free_sides(before, after),
    )
}

/// The product of the set sides of a whole request is at least that of its
/// beginning.
proof fn lemma_preset_grows(dims: Seq<int>, i: int)
    requires
        0 <= i <= dims.len(),
        forall|k: int| 0 <= k < dims.len() ==> dims[k] >= 0,
    ensures
        preset_product(dims) >= preset_product(dims.take(i)) >= 1,
    decreases dims.len(),
{
    if dims.len() == 0 {
        assert(dims.take(i) =~= dims);
    } else if i == dims.len() {
        assert(dims.take(i) =~= dims);
        lemma_preset_grows(dims.drop_last(), i - 1);
        assert(preset_product(dims.drop_last()) * preset(dims.last()) >= 1) by (nonlinear_arith)
            requires
                preset_product(dims.drop_last()) >= 1,
                preset(dims.last()) >= 1,
        ;
    } else {
        lemma_preset_grows(dims.drop_last(), i);
        assert(dims.drop_last().take(i) =~= dims.take(i));
        assert(preset_product(dims.drop_last()) * preset(dims.last()) >= preset_product(
            dims.take(i),
        )) by (nonlinear_arith)
            requires
                preset_product(dims.drop_last()) >= preset_product(dims.take(i)) >= 1,
                preset(dims.last()) >= 1,
        ;
    }
}

/// Fills `dims` with a process grid of `ndims` dimensions for `nnodes`
/// processes.
///
/// `dims` has to hold `ndims` entries, none below zero. A side that is set
/// is kept; the sides that are zero are chosen here, as close to equal as
/// possible and in non-increasing order, so that the product of all sides
/// is `nnodes`. Where the set sides leave no such choice, the request is
/// refused. On an error `dims` is left as it was.
pub fn mpi_dims_create(nnodes: i32, ndims: i32, dims: &mut Vec<i32>) -> (r: Result<
    (),
    ConfigError,
>)
    ensures
        match r {
            Ok(_) => request_error(nnodes as int, ndims as int, ints(old(dims)@)) is None
                && meets_request(nnodes as int, ints(old(dims)@), ints(final(dims)@)),
            Err(e) => request_error(nnodes as int, ndims as int, ints(old(dims)@)) == Some(e)
                && final(dims)@ == old(dims)@,
        },
{
    let ghost before = ints(dims@);
    if nnodes < 1 {
        return Err(ConfigError::BadProcessCount);
    }
    if ndims < 1 || dims.len() != ndims as usize {
        return Err(ConfigError::UnsupportedShape);
    }
    let n: usize = dims.len();
    let mut i: usize = 0;
    while i < n
        invariant
            nnodes >= 1,
            ndims >= 1,
            n == ndims,
            n == dims@.len(),
            i <= n,
            dims@ == old(dims)@,
            before == ints(dims@),
            forall|k: int| 0 <= k < i ==> before[k] >= 0,
        decreases n - i,
    {
        if dims[i] < 0 {
            assert(before[i as int] < 0);
            return Err(ConfigError::UnsupportedShape);
        }
        i = i + 1;
    }
    let mut prod: i64 = 1;
    let mut free: usize = 0;
    i = 0;
    while i < n
        invariant
            ndims >= 1,
            n == ndims,
            n == dims@.len(),
            n <= 0x7fff_ffff,
            i <= n,
            nnodes >= 1,
            dims@ == old(dims)@,
            before == ints(dims@),
            forall|k: int| 0 <= k < n ==> before[k] >= 0,
            prod == preset_product(before.take(i as int)),
            1 <= prod <= nnodes,
            free == free_count(before.take(i as int)),
            free <= i,
        decreases n - i,
    {
        let x: i32 = dims[i];
        proof {
            assert(before.take(i + 1).drop_last() =~= before.take(i as int));
            assert(before.take(i + 1).last() == x);
        }
        if x != 0 {
            assert(x == before[i as int] && x >= 1);
            assert(1 <= prod * x <= 0x7fff_ffff * 0x7fff_ffff) by (nonlinear_arith)
                requires
                    1 <= prod <= 0x7fff_ffff,
                    1 <= x <= 0x7fff_ffff,
            ;
            if prod * (x as i64) > nnodes as i64 {
                proof {
                    lemma_preset_grows(before, i + 1);
                    vstd::arithmetic::div_mod::lemma_small_mod(
                        nnodes as nat,
                        preset_product(before) as nat,
                    );
                }
                return Err(ConfigError::ShapeMismatch);
            }
            prod = prod * (x as i64);
        } else {
            free = free + 1;
        }
        i = i + 1;
    }
    assert(before.take(n as int) =~= before);
    if (nnodes as i64) % prod != 0 {
        return Err(ConfigError::ShapeMismatch);
    }
    if free == 0 {
        if prod != nnodes as i64 {
            return Err(ConfigError::ShapeMismatch);
        }
        return Ok(());
    }
    let q: i32 = ((nnodes as i64) / prod) as i32;
    proof {
        lemma_fundamental_div_mod(nnodes as int, prod as int);
        assert(1 <= q <= nnodes) by (nonlinear_arith)
            requires
                nnodes == prod * (nnodes as int / prod as int) + nnodes as int % prod as int,
                nnodes as int % prod as int == 0,
                q == nnodes as int / prod as int,
                1 <= prod <= nnodes,
        ;
    }
    let sides = balanced_sides(q, free as i32);
    let mut j: usize = 0;
    i = 0;
    while i < n
        invariant
            n == dims@.len(),
            n == before.len(),
            i <= n,
            before == ints(old(dims)@),
            sides@.len() == free,
            free == free_count(before),
            j == free_count(before.take(i as int)),
            j <= free,
            forall|k: int| i <= k < n ==> dims@[k] == old(dims)@[k],
            forall|k: int| 0 <= k < i && before[k] != 0 ==> dims@[k] == old(dims)@[k],
            free_sides(before.take(i as int), ints(dims@).take(i as int)) == ints(sides@).take(
                j as int,
            ),
        decreases n - i,
    {
        proof {
            assert(before.take(i + 1).drop_last() =~= before.take(i as int));
            assert(before.take(i + 1).last() == before[i as int]);
            lemma_free_count_take(before, i + 1);
        }
        let ghost cur = ints(dims@);
        if dims[i] == 0 {
            let side: i32 = sides[j];
            dims.set(i, side);
            proof {
                let now = ints(dims@);
                assert(now.take(i + 1).drop_last() =~= cur.take(i as int));
                assert(now.take(i + 1).last() == side);
                assert(ints(sides@).take(j + 1) =~= ints(sides@).take(j as int).push(side as int));
            }
            j = j + 1;
        } else {
            proof {
                assert(cur.take(i + 1).drop_last() =~= cur.take(i as int));
            }
        }
        i = i + 1;
    }
    proof {
        assert(before.take(n as int) =~= before);
        assert(ints(dims@).take(n as int) =~= ints(dims@));
        assert(ints(sides@).take(j as int) =~= ints(sides@));
    }
    Ok(())
}

/// The beginning of a request leaves no more sides to be chosen than the
/// whole.
proof fn lemma_free_count_take(dims: Seq<int>, i: int)
    requires
        0 <= i <= dims.len(),
    ensures
        0 <= free_count(dims.take(i)) <= free_count(dims),
        free_count(dims.take(i)) <= i,
    decreases dims.len(),
{
    if dims.len() == 0 {
        assert(dims.take(i) =~= dims);
    } else if i == dims.len() {
        assert(dims.take(i) =~= dims);
        lemma_free_count_take(dims.drop_last(), i - 1);
        assert(dims.drop_last().take(i - 1) =~= dims.drop_last());
    } else {
        lemma_free_count_take(dims.drop_last(), i);
        assert(dims.drop_last().take(i) =~= dims.take(i));
    }
}

} // verus!
