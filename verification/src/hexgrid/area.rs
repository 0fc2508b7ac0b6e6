//! The cells around a position.

use vstd::prelude::*;
use vstd::arithmetic::div_mod::{lemma_fundamental_div_mod, lemma_mod_pos_bound};
use itertools::Itertools;
use crate::hexgrid::geometry::{
    adjacent, ascending, disc, disc_listing, hex_distance, lemma_disc, lemma_disc_in_square,
    lemma_distance_symmetric, lemma_distance_zero, lemma_ring, lex_less, ring, ring_listing,
    wide_distance,
};
use crate::hexgrid::{pos_iter_to_cells, positions_of, CellGen, Hexgrid, Pos, XYCont};

verus! {

/// The sum of the first `n` vectors of `v2`, each scaled by its factor in `v1`.
pub open spec fn weighted_sum(v1: Seq<i32>, v2: Seq<Pos>, n: int) -> (int, int)
    decreases n,
{
    if n <= 0 {
        (0, 0)
    } else {
        let rest = weighted_sum(v1, v2, n - 1);
        (rest.0 + v1[n - 1] * v2[n - 1].x, rest.1 + v1[n - 1] * v2[n - 1].y)
    }
}

/// Every product and every partial sum of the weighted sum fits the coordinate type.
pub open spec fn weighted_sum_fits(v1: Seq<i32>, v2: Seq<Pos>) -> bool {
    forall|k: int|
        #![trigger weighted_sum(v1, v2, k + 1)]
        0 <= k < v1.len() ==> {
            &&& i32::MIN <= v1[k] * v2[k].x <= i32::MAX
            &&& i32::MIN <= v1[k] * v2[k].y <= i32::MAX
            &&& i32::MIN <= weighted_sum(v1, v2, k + 1).0 <= i32::MAX
            &&& i32::MIN <= weighted_sum(v1, v2, k + 1).1 <= i32::MAX
        }
}

/// The sum of the vectors of `v2`, each scaled by its factor in `v1`.
pub fn v_mul_reduce(v1: &Vec<i32>, v2: &Vec<XYCont<i32>>) -> (r: XYCont<i32>)
    requires
        v1.len() <= v2.len(),
        weighted_sum_fits(v1@, v2@),
    ensures
        r.x == weighted_sum(v1@, v2@, v1.len() as int).0,
        r.y == weighted_sum(v1@, v2@, v1.len() as int).1,
{
    let mut ret = XYCont { x: 0, y: 0 };
    let mut i: usize = 0;
    while i < v1.len()
        invariant
            i <= v1.len() <= v2.len(),
            weighted_sum_fits(v1@, v2@),
            ret.x == weighted_sum(v1@, v2@, i as int).0,
            ret.y == weighted_sum(v1@, v2@, i as int).1,
        decreases v1.len() - i,
    {
        proof {
            let next = weighted_sum(v1@, v2@, i + 1);
            assert(i32::MIN <= next.0 <= i32::MAX);
        }
        ret = ret + (v1[i] * v2[i]);
        i = i + 1;
    }
    ret
}

/// All pairs of offsets between `lo` and `hi`, the first offset changing slowest.
///
/// Calls `Itertools::multi_cartesian_product` on two copies of the range
/// `lo..=hi`. The body is not verified; the contract is taken on trust. It
/// states what that adaptor yields for two equal ranges: one vector of two
/// items for each pair, in the order in which the rightmost range is run
/// through fastest.
#[verifier::external_body]
fn offset_pairs(lo: i32, hi: i32) -> (r: Vec<Vec<i32>>)
    requires
        lo <= hi,
        (hi - lo + 1) * (hi - lo + 1) <= usize::MAX,
    ensures
        r@.len() == (hi - lo + 1) * (hi - lo + 1),
        forall|k: int|
            0 <= k < r@.len() ==> (#[trigger] r@[k])@ == seq![
                (lo + k / (hi - lo + 1)) as i32,
                (lo + k % (hi - lo + 1)) as i32,
            ],
{
    (0..2).map(|_| lo..=hi).multi_cartesian_product().collect()
}

spec fn in_square(p: Pos, q: Pos, range: int) -> bool {
    &&& -range <= q.x - p.x <= range
    &&& -range <= q.y - p.y <= range
}

spec fn square_index(p: Pos, q: Pos, range: int) -> int {
    (q.x - p.x + range) * (2 * range + 1) + (q.y - p.y + range)
}

proof fn lemma_square_index(a: int, b: int, k: int, n: int)
    requires
        0 < n,
        0 <= b < n,
        0 <= k,
        a * n + b == k,
    ensures
        a == k / n,
        b == k % n,
{
    lemma_fundamental_div_mod(k, n);
    lemma_mod_pos_bound(k, n);
    let a2 = k / n;
    let b2 = k % n;
    assert(n * a2 == a2 * n) by (nonlinear_arith);
    if a < a2 {
        assert((a + 1) * n <= a2 * n) by (nonlinear_arith)
            requires
                a + 1 <= a2,
                0 < n,
        ;
        assert((a + 1) * n == a * n + n) by (nonlinear_arith);
    } else if a2 < a {
        assert((a2 + 1) * n <= a * n) by (nonlinear_arith)
            requires
                a2 + 1 <= a,
                0 < n,
        ;
        assert((a2 + 1) * n == a2 * n + n) by (nonlinear_arith);
    }
}

proof fn lemma_square_order(a1: int, b1: int, a2: int, b2: int, n: int)
    requires
        0 < n,
        0 <= b1 < n,
        0 <= b2 < n,
        a1 * n + b1 < a2 * n + b2,
    ensures
        a1 < a2 || (a1 == a2 && b1 < b2),
{
    if a1 > a2 {
        assert((a2 + 1) * n <= a1 * n) by (nonlinear_arith)
            requires
                a2 + 1 <= a1,
                0 < n,
        ;
        assert((a2 + 1) * n == a2 * n + n) by (nonlinear_arith);
    }
}

proof fn lemma_square_bound(a: int, b: int, n: int)
    requires
        0 <= a < n,
        0 <= b < n,
    ensures
        0 <= a * n + b < n * n,
{
    assert(0 <= a * n) by (nonlinear_arith)
        requires
            0 <= a,
            0 < n,
    ;
    assert((a + 1) * n <= n * n) by (nonlinear_arith)
        requires
            a + 1 <= n,
            0 < n,
    ;
    assert((a + 1) * n == a * n + n) by (nonlinear_arith);
}

/// The positions within `range` steps of `p`, in rising order.
fn disc_positions(p: Pos, range: i32) -> (close: Vec<Pos>)
    requires
        range >= 0 ==> (2 * range + 1) * (2 * range + 1) <= usize::MAX,
    ensures
        disc_listing(p, range as int, close@),
        range >= 0 ==> close.len() <= (2 * range + 1) * (2 * range + 1),
        range < 0 ==> close.len() == 0,
{
    let mut close: Vec<Pos> = Vec::new();
    if range < 0 {
        proof {
            assert forall|q: Pos| hex_distance(p, q) <= range implies #[trigger] close@.contains(
                q,
            ) by {
                lemma_distance_zero(p, q);
            }
        }
        return close;
    }
    let v1 = XYCont { x: 1, y: 0 };
    let v2 = XYCont { x: 0, y: 1 };
    let unit_vectors = vec![v1, v2];
    let pairs = offset_pairs(-range, range);
    let ghost n: int = 2 * range + 1;
    let ghost r: int = range as int;
    let mut k: usize = 0;
    while k < pairs.len()
        invariant
            0 <= range,
            r == range,
            n == 2 * r + 1,
            k <= pairs.len() == n * n,
            close.len() <= k,
            unit_vectors@ == seq![XYCont { x: 1i32, y: 0i32 }, XYCont { x: 0i32, y: 1i32 }],
            forall|j: int|
                0 <= j < pairs@.len() ==> (#[trigger] pairs@[j])@ == seq![
                    (-r + j / n) as i32,
                    (-r + j % n) as i32,
                ],
            forall|i: int, j: int|
                0 <= i < j < close.len() ==> square_index(p, close[i], r) < square_index(
                    p,
                    close[j],
                    r,
                ),
            forall|i: int|
                0 <= i < close.len() ==> in_square(p, #[trigger] close[i], r) && square_index(
                    p,
                    close[i],
                    r,
                ) < k && hex_distance(p, close[i]) <= r,
            forall|q: Pos|
                in_square(p, q, r) && square_index(p, q, r) < k && hex_distance(p, q) <= r
                    ==> #[trigger] close@.contains(q),
        decreases pairs.len() - k,
    {
        let v = &pairs[k];
        let ghost ki: int = k as int;
        let ghost dx: int = -r + ki / n;
        let ghost dy: int = -r + ki % n;
        let ghost before = close@;
        proof {
            lemma_fundamental_div_mod(ki, n);
            lemma_mod_pos_bound(ki, n);
            assert(n * (ki / n) == (ki / n) * n) by (nonlinear_arith);
            if ki / n >= n {
                assert((ki / n) * n >= n * n) by (nonlinear_arith)
                    requires
                        ki / n >= n,
                        n > 0,
                ;
            }
            assert(0 <= ki / n) by (nonlinear_arith)
                requires
                    0 <= ki,
                    0 < n,
            ;
            assert(v@ == seq![dx as i32, dy as i32]);
            assert(v@[0] == dx && v@[1] == dy);
            reveal_with_fuel(weighted_sum, 3);
            assert(v@[0] * 1 == v@[0] && v@[0] * 0 == 0 && v@[1] * 1 == v@[1] && v@[1] * 0 == 0)
                by (nonlinear_arith);
            assert(weighted_sum(v@, unit_vectors@, 0) == (0int, 0int));
            assert(weighted_sum(v@, unit_vectors@, 1) == (dx, 0int));
            assert(weighted_sum(v@, unit_vectors@, 2) == (dx, dy));
        }
        let off = v_mul_reduce(v, &unit_vectors);
        let qx: i64 = off.x as i64 + p.x as i64;
        let qy: i64 = off.y as i64 + p.y as i64;
        let mut pushed = false;
        if -0x8000_0000 <= qx && qx <= 0x7fff_ffff && -0x8000_0000 <= qy && qy <= 0x7fff_ffff {
            let q = off + p;
            proof {
                assert(q.x - p.x + r == ki / n);
                assert(square_index(p, q, r) == (ki / n) * n + ki % n);
                assert(square_index(p, q, r) == k);
            }
            if wide_distance(q, p) <= range as i64 {
                close.push(q);
                pushed = true;
                proof {
                    lemma_distance_symmetric(p, q);
                }
            }
        }
        proof {
            assert forall|q: Pos|
                in_square(p, q, r) && square_index(p, q, r) < k + 1 && hex_distance(p, q)
                    <= r implies #[trigger] close@.contains(q) by {
                if square_index(p, q, r) < k {
                    assert(before.contains(q));
                    let i = choose|i: int| 0 <= i < before.len() && before[i] == q;
                    assert(close@[i] == q);
                } else {
                    lemma_square_index(q.x - p.x + r, q.y - p.y + r, k as int, n);
                    assert(q.x == p.x + dx && q.y == p.y + dy);
                    lemma_distance_symmetric(p, q);
                    assert(pushed);
                    assert(close@[close@.len() - 1] == q);
                }
            }
        }
        k = k + 1;
    }
    proof {
        assert forall|i: int, j: int| 0 <= i < j < close.len() implies lex_less(
            close[i],
            close[j],
        ) by {
            lemma_square_order(
                close[i].x - p.x + r,
                close[i].y - p.y + r,
                close[j].x - p.x + r,
                close[j].y - p.y + r,
                n,
            );
        }
        assert forall|q: Pos| hex_distance(p, q) <= r implies #[trigger] close@.contains(q) by {
            lemma_disc_in_square(p, q, r);
            lemma_square_bound(q.x - p.x + r, q.y - p.y + r, n);
        }
    }
    close
}

/// The cells within `range` steps of `p`, each with its position, read column by
/// column.
pub fn within<T: Clone + CellGen<C>, C>(p: Pos, m: &mut Hexgrid<T, C>, range: i32) -> (r: Vec<
    (Pos, T),
>)
    requires
        range >= 0 ==> (2 * range + 1) * (2 * range + 1) <= usize::MAX,
    ensures
        positions_of(r@) == disc(p, range as int),
        disc_listing(p, range as int, positions_of(r@)),
        forall|i: int|
            0 <= i < r.len() ==> cloned(old(m)@.values[(#[trigger] r[i]).0], r[i].1),
        final(m)@ == old(m)@.touched_all(positions_of(r@)),
        range >= 0 ==> r.len() <= (2 * range + 1) * (2 * range + 1),
        range < 0 ==> r.len() == 0,
{
    let close_space = disc_positions(p, range);
    let ret = pos_iter_to_cells(&close_space, m);
    proof {
        lemma_disc(p, range as int, close_space@);
        assert forall|i: int| 0 <= i < ret.len() implies cloned(
            old(m)@.values[(#[trigger] ret[i]).0],
            ret[i].1,
        ) by {
            assert(positions_of(ret@)[i] == ret[i].0);
        }
    }
    ret
}

/// The cells next to `p`, each with its position, read column by column. The
/// chunk of `p` itself is generated along with those of its neighbours.
pub fn neighbors<T: Clone + CellGen<C>, C>(p: Pos, m: &mut Hexgrid<T, C>) -> (r: Vec<(Pos, T)>)
    ensures
        positions_of(r@) == ring(p),
        ring_listing(p, positions_of(r@)),
        forall|i: int|
            0 <= i < r.len() ==> cloned(old(m)@.values[(#[trigger] r[i]).0], r[i].1),
        final(m)@ == old(m)@.touched_all(disc(p, 1)),
        r.len() <= 8,
{
    assert((2 * 1 + 1) * (2 * 1 + 1) == 9) by (nonlinear_arith);
    let mut ret = within(p, m, 1);
    let ghost all = ret@;
    let ghost ps = positions_of(all);
    let mut i: usize = 0;
    let mut at: Option<usize> = None;
    while i < ret.len()
        invariant
            i <= ret.len(),
            ret@ == all,
            match at {
                Some(j) => j < i && all[j as int].0 == p,
                None => forall|j: int| 0 <= j < i ==> (#[trigger] all[j]).0 != p,
            },
        decreases ret.len() - i,
    {
        if ret[i].0.x == p.x && ret[i].0.y == p.y {
            at = Some(i);
        }
        i = i + 1;
    }
    proof {
        lemma_distance_zero(p, p);
        assert(ps.contains(p));
        let w = choose|w: int| 0 <= w < ps.len() && ps[w] == p;
        assert(all[w].0 == p);
    }
    let j = at.unwrap();
    ret.remove(j);
    proof {
        let out = positions_of(ret@);
        assert(out =~= ps.remove(j as int));
        assert forall|a: int, b: int| 0 <= a < b < out.len() implies lex_less(out[a], out[b]) by {
            let a0 = if a < j { a } else { a + 1 };
            let b0 = if b < j { b } else { b + 1 };
            assert(out[a] == ps[a0] && out[b] == ps[b0]);
        }
        assert forall|a: int| 0 <= a < out.len() implies adjacent(p, #[trigger] out[a]) by {
            let a0 = if a < j { a } else { a + 1 };
            assert(out[a] == ps[a0]);
            lemma_distance_zero(p, ps[a0]);
            if a0 < j {
                assert(lex_less(ps[a0], ps[j as int]));
            } else {
                assert(lex_less(ps[j as int], ps[a0]));
            }
        }
        assert forall|q: Pos| adjacent(p, q) implies #[trigger] out.contains(q) by {
            assert(ps.contains(q));
            let w = choose|w: int| 0 <= w < ps.len() && ps[w] == q;
            lemma_distance_zero(p, q);
            let w0 = if w < j { w } else { w - 1 };
            assert(out[w0] == q);
        }
        assert forall|a: int| 0 <= a < ret.len() implies cloned(
            old(m)@.values[(#[trigger] ret[a]).0],
            ret[a].1,
        ) by {
            let a0 = if a < j { a } else { a + 1 };
            assert(ret[a] == all[a0]);
        }
        lemma_ring(p, out);
    }
    ret
}

} // verus!
