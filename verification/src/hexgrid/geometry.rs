//! Distances and neighbours on the hex grid.

use vstd::prelude::*;
use vstd::math::abs;
use crate::hexgrid::{Pos, XYCont};

verus! {

/// Cube coordinates of a hex cell.
#[derive(Debug, Clone)]
pub struct XYZCont<C> {
    pub x: C,
    pub y: C,
    pub z: C,
}

/// Half of `x`, rounded up.
pub open spec fn half_up(x: int) -> int {
    (x + x % 2) / 2
}

/// The cube coordinates of `p`: the column, the row counted along the slanted
/// axis, and the third coordinate that makes the three sum to zero.
pub open spec fn cube_of(p: Pos) -> XYZCont<int> {
    let q = p.x as int;
    let r = p.y - half_up(p.x as int);
    XYZCont { x: q, y: r, z: -q - r }
}

/// The sum of the coordinate-wise distances of two cube positions.
pub open spec fn cube_span(a: XYZCont<int>, b: XYZCont<int>) -> int {
    (abs(a.x - b.x) + abs(a.y - b.y) + abs(a.z - b.z)) as int
}

/// The number of steps between two cells of the hex grid.
pub open spec fn hex_distance(a: Pos, b: Pos) -> int {
    cube_span(cube_of(a), cube_of(b)) / 2
}

/// Two cells that share an edge.
pub open spec fn adjacent(p: Pos, q: Pos) -> bool {
    hex_distance(p, q) == 1
}

/// The neighbour rule by offsets: the cells above and below, and in each of the
/// two columns beside `p` the cell in the same row and one more, which lies one
/// row up for an even column and one row down for an odd column.
pub open spec fn offset_neighbor(p: Pos, q: Pos) -> bool {
    let dx = q.x - p.x;
    let dy = q.y - p.y;
    let side = if p.x % 2 == 0 {
        1
    } else {
        -1
    };
    ||| (dx == 0 && (dy == 1 || dy == -1))
    ||| ((dx == 1 || dx == -1) && (dy == 0 || dy == side))
}

proof fn lemma_low_bit(x: i64)
    ensures
        (x & 1) as int == (x as int) % 2,
        0 <= (x & 1) <= 1,
{
    assert(x & 1i64 == x % 2 && 0 <= (x & 1i64) <= 1) by (bit_vector);
}

/// Converts a position to cube coordinates.
pub fn xy_to_cube(p: Pos) -> (c: XYZCont<i64>)
    ensures
        c.x == cube_of(p).x,
        c.y == cube_of(p).y,
        c.z == cube_of(p).z,
{
    let x = p.x as i64;
    let y = p.y as i64;
    proof {
        lemma_low_bit(x);
    }
    let q = x;
    let r = y - (x + (x & 1)) / 2;
    XYZCont { x: q, y: r, z: (-q - r) }
}

fn magnitude(v: i64) -> (r: i64)
    requires
        v != i64::MIN,
    ensures
        r == abs(v as int),
{
    if v < 0 {
        -v
    } else {
        v
    }
}

/// The coordinate-wise distance of two cube positions, summed.
pub fn cube_distance(from: XYZCont<i64>, to: XYZCont<i64>) -> (r: i64)
    requires
        -0x2_0000_0000 <= from.x <= 0x2_0000_0000,
        -0x2_0000_0000 <= from.y <= 0x2_0000_0000,
        -0x2_0000_0000 <= from.z <= 0x2_0000_0000,
        -0x2_0000_0000 <= to.x <= 0x2_0000_0000,
        -0x2_0000_0000 <= to.y <= 0x2_0000_0000,
        -0x2_0000_0000 <= to.z <= 0x2_0000_0000,
    ensures
        r == cube_span(
            XYZCont { x: from.x as int, y: from.y as int, z: from.z as int },
            XYZCont { x: to.x as int, y: to.y as int, z: to.z as int },
        ),
{
    magnitude(from.x - to.x) + magnitude(from.y - to.y) + magnitude(from.z - to.z)
}

/// The hex distance of two positions, in a type wide enough for any two of them.
pub fn wide_distance(from: Pos, to: Pos) -> (r: i64)
    ensures
        r == hex_distance(from, to),
        0 <= r,
{
    let from_q = xy_to_cube(from);
    let to_q = xy_to_cube(to);
    cube_distance(from_q, to_q) / 2
}

/// The hex distance of two positions.
pub fn distance(from: Pos, to: Pos) -> (r: i32)
    requires
        hex_distance(from, to) <= i32::MAX,
    ensures
        r == hex_distance(from, to),
{
    wide_distance(from, to) as i32
}

/// The distance does not depend on the direction in which it is measured.
pub proof fn lemma_distance_symmetric(p: Pos, q: Pos)
    ensures
        hex_distance(p, q) == hex_distance(q, p),
{
}

/// A cell is at distance zero from itself and from no other cell.
pub proof fn lemma_distance_zero(p: Pos, q: Pos)
    ensures
        hex_distance(p, q) == 0 <==> p == q,
        hex_distance(p, q) >= 0,
{
}

/// Being neighbours is mutual: if `q` is a neighbour of `p`, then `p` is one of `q`.
pub proof fn lemma_neighbor_symmetry(p: Pos, q: Pos)
    requires
        adjacent(p, q),
    ensures
        adjacent(q, p),
{
}

/// The cells at distance one are exactly those that the offset rule names.
pub proof fn lemma_adjacent_by_offsets(p: Pos, q: Pos)
    ensures
        adjacent(p, q) <==> offset_neighbor(p, q),
{
}

/// A cell within `range` steps of `p` differs from it by at most `range` in
/// each coordinate.
pub proof fn lemma_disc_in_square(p: Pos, q: Pos, range: int)
    requires
        hex_distance(p, q) <= range,
    ensures
        -range <= q.x - p.x <= range,
        -range <= q.y - p.y <= range,
{
}

/// `a` comes before `b` when the cells are read column by column.
pub open spec fn lex_less(a: Pos, b: Pos) -> bool {
    a.x < b.x || (a.x == b.x && a.y < b.y)
}

/// A list of positions in strictly rising order.
pub open spec fn ascending(ps: Seq<Pos>) -> bool {
    forall|i: int, j: int| 0 <= i < j < ps.len() ==> lex_less(ps[i], ps[j])
}

/// `ps` lists the cells within `range` steps of `p`: each of them once, in
/// rising order, and no other cell.
pub open spec fn disc_listing(p: Pos, range: int, ps: Seq<Pos>) -> bool {
    &&& ascending(ps)
    &&& forall|i: int| 0 <= i < ps.len() ==> hex_distance(p, #[trigger] ps[i]) <= range
    &&& forall|q: Pos| hex_distance(p, q) <= range ==> #[trigger] ps.contains(q)
}

/// `ps` lists the neighbours of `p`: each of them once, in rising order, and
/// no other cell.
pub open spec fn ring_listing(p: Pos, ps: Seq<Pos>) -> bool {
    &&& ascending(ps)
    &&& forall|i: int| 0 <= i < ps.len() ==> adjacent(p, #[trigger] ps[i])
    &&& forall|q: Pos| adjacent(p, q) ==> #[trigger] ps.contains(q)
}

/// A list in rising order is fixed by what it holds: two such lists that hold
/// the same positions are the same list. So the cells within a number of
/// steps of a position, and its neighbours, have one listing each.
pub proof fn lemma_ascending_unique(a: Seq<Pos>, b: Seq<Pos>)
    requires
        ascending(a),
        ascending(b),
        forall|q: Pos| a.contains(q) <==> b.contains(q),
    ensures
        a == b,
    decreases a.len(),
{
    if a.len() == 0 {
        if b.len() > 0 {
            assert(b.contains(b[0]));
            let w = choose|w: int| 0 <= w < a.len() && a[w] == b[0];
        }
        assert(a =~= b);
    } else {
        let x = a.last();
        assert(a.contains(x));
        let j = choose|j: int| 0 <= j < b.len() && b[j] == x;
        if j < b.len() - 1 {
            let y = b.last();
            assert(lex_less(b[j], b[b.len() - 1]));
            assert(b.contains(y));
            let i = choose|i: int| 0 <= i < a.len() && a[i] == y;
            if i < a.len() - 1 {
                assert(lex_less(a[i], a[a.len() - 1]));
            }
        }
        let a0 = a.drop_last();
        let b0 = b.drop_last();
        assert forall|q: Pos| a0.contains(q) <==> b0.contains(q) by {
            if a0.contains(q) {
                let i = choose|i: int| 0 <= i < a0.len() && a0[i] == q;
                assert(a[i] == q);
                assert(lex_less(a[i], a[a.len() - 1]));
                assert(a.contains(q));
                let k = choose|k: int| 0 <= k < b.len() && b[k] == q;
                assert(b0[k] == q);
            }
            if b0.contains(q) {
                let k = choose|k: int| 0 <= k < b0.len() && b0[k] == q;
                assert(b[k] == q);
                assert(lex_less(b[k], b[b.len() - 1]));
                assert(b.contains(q));
                let i = choose|i: int| 0 <= i < a.len() && a[i] == q;
                assert(a0[i] == q);
            }
        }
        assert(ascending(a0)) by {
            assert forall|i: int, k: int| 0 <= i < k < a0.len() implies lex_less(a0[i], a0[k]) by {
                assert(a0[i] == a[i] && a0[k] == a[k]);
            }
        }
        assert(ascending(b0)) by {
            assert forall|i: int, k: int| 0 <= i < k < b0.len() implies lex_less(b0[i], b0[k]) by {
                assert(b0[i] == b[i] && b0[k] == b[k]);
            }
        }
        lemma_ascending_unique(a0, b0);
        assert(a =~= a0.push(x));
        assert(b =~= b0.push(x));
    }
}

/// The cells within `range` steps of `p`, in rising order.
pub open spec fn disc(p: Pos, range: int) -> Seq<Pos> {
    choose|ps: Seq<Pos>| disc_listing(p, range, ps)
}

/// The neighbours of `p`, in rising order.
pub open spec fn ring(p: Pos) -> Seq<Pos> {
    choose|ps: Seq<Pos>| ring_listing(p, ps)
}

/// A listing of the cells within `range` steps of `p` is the listing.
pub proof fn lemma_disc(p: Pos, range: int, ps: Seq<Pos>)
    requires
        disc_listing(p, range, ps),
    ensures
        ps == disc(p, range),
{
    let other = disc(p, range);
    assert(disc_listing(p, range, other));
    assert forall|q: Pos| ps.contains(q) <==> other.contains(q) by {
        if ps.contains(q) {
            let w = choose|w: int| 0 <= w < ps.len() && ps[w] == q;
            assert(hex_distance(p, ps[w]) <= range);
        }
        if other.contains(q) {
            let w = choose|w: int| 0 <= w < other.len() && other[w] == q;
            assert(hex_distance(p, other[w]) <= range);
        }
    }
    lemma_ascending_unique(ps, other);
}

/// A listing of the neighbours of `p` is the listing.
pub proof fn lemma_ring(p: Pos, ps: Seq<Pos>)
    requires
        ring_listing(p, ps),
    ensures
        ps == ring(p),
{
    let other = ring(p);
    assert(ring_listing(p, other));
    assert forall|q: Pos| ps.contains(q) <==> other.contains(q) by {
        if ps.contains(q) {
            let w = choose|w: int| 0 <= w < ps.len() && ps[w] == q;
            assert(adjacent(p, ps[w]));
        }
        if other.contains(q) {
            let w = choose|w: int| 0 <= w < other.len() && other[w] == q;
            assert(adjacent(p, other[w]));
        }
    }
    lemma_ascending_unique(ps, other);
}

/// Those of the first `n` of the coordinate pairs `wide` that are positions of
/// the grid, in their order.
pub open spec fn kept(wide: Seq<(int, int)>, n: int) -> Seq<Pos>
    decreases n,
{
    if n <= 0 {
        Seq::empty()
    } else if i32::MIN <= wide[n - 1].0 <= i32::MAX && i32::MIN <= wide[n - 1].1 <= i32::MAX {
        kept(wide, n - 1).push(XYCont { x: wide[n - 1].0 as i32, y: wide[n - 1].1 as i32 })
    } else {
        kept(wide, n - 1)
    }
}

proof fn lemma_kept_holds(wide: Seq<(int, int)>, n: int, k: int)
    requires
        0 <= k < n <= wide.len(),
        i32::MIN <= wide[k].0 <= i32::MAX,
        i32::MIN <= wide[k].1 <= i32::MAX,
    ensures
        kept(wide, n).contains(XYCont { x: wide[k].0 as i32, y: wide[k].1 as i32 }),
    decreases n,
{
    let q = XYCont { x: wide[k].0 as i32, y: wide[k].1 as i32 };
    let last_in = i32::MIN <= wide[n - 1].0 <= i32::MAX && i32::MIN <= wide[n - 1].1 <= i32::MAX;
    let shorter = kept(wide, n - 1);
    let all = kept(wide, n);
    if k == n - 1 {
        assert(all[shorter.len() as int] == q);
    } else {
        lemma_kept_holds(wide, n - 1, k);
        let w = choose|w: int| 0 <= w < shorter.len() && #[trigger] shorter[w] == q;
        if last_in {
            assert(all[w] == q);
        }
    }
}

proof fn lemma_kept_from(wide: Seq<(int, int)>, n: int)
    requires
        0 <= n <= wide.len(),
        forall|i: int, j: int|
            0 <= i < j < wide.len() ==> (wide[i].0 < wide[j].0 || (wide[i].0 == wide[j].0
                && wide[i].1 < wide[j].1)),
    ensures
        ascending(kept(wide, n)),
        forall|w: int|
            0 <= w < kept(wide, n).len() ==> exists|k: int|
                0 <= k < n && #[trigger] wide[k] == ((#[trigger] kept(wide, n)[w]).x as int, kept(
                    wide,
                    n,
                )[w].y as int),
    decreases n,
{
    if n > 0 {
        lemma_kept_from(wide, n - 1);
        let shorter = kept(wide, n - 1);
        let all = kept(wide, n);
        assert forall|w: int| 0 <= w < all.len() implies exists|k: int|
            0 <= k < n && #[trigger] wide[k] == ((#[trigger] all[w]).x as int, all[w].y as int) by {
            if w < shorter.len() {
                assert(all[w] == shorter[w]);
                let k = choose|k: int|
                    0 <= k < n - 1 && #[trigger] wide[k] == (
                        shorter[w].x as int,
                        shorter[w].y as int,
                    );
                assert(wide[k] == (all[w].x as int, all[w].y as int));
            } else {
                assert(wide[n - 1] == (all[w].x as int, all[w].y as int));
            }
        }
        assert forall|i: int, j: int| 0 <= i < j < all.len() implies lex_less(all[i], all[j]) by {
            if j < shorter.len() {
                assert(all[i] == shorter[i] && all[j] == shorter[j]);
            } else {
                assert(all[i] == shorter[i]);
                let k = choose|k: int|
                    0 <= k < n - 1 && #[trigger] wide[k] == (
                        shorter[i].x as int,
                        shorter[i].y as int,
                    );
                assert(wide[n - 1] == (all[j].x as int, all[j].y as int));
            }
        }
    }
}

/// The six cells that the offset rule names, as far as they are positions of
/// the grid, are the neighbours of `pos`, in rising order.
pub proof fn lemma_ring_by_offsets(pos: Pos, wide: Seq<(int, int)>)
    requires
        wide == {
            let low: int = if pos.x % 2 == 0 {
                0
            } else {
                -1
            };
            seq![
                (pos.x - 1, pos.y + low),
                (pos.x - 1, pos.y + low + 1),
                (pos.x as int, pos.y - 1),
                (pos.x as int, pos.y + 1),
                (pos.x + 1, pos.y + low),
                (pos.x + 1, pos.y + low + 1),
            ]
        },
    ensures
        ring_listing(pos, kept(wide, 6)),
        kept(wide, 6) == ring(pos),
{
    let ring = kept(wide, 6);
    lemma_kept_from(wide, 6);
    assert forall|i: int| 0 <= i < ring.len() implies adjacent(pos, #[trigger] ring[i]) by {
        let k = choose|k: int|
            0 <= k < 6 && #[trigger] wide[k] == (ring[i].x as int, ring[i].y as int);
        lemma_adjacent_by_offsets(pos, ring[i]);
    }
    assert forall|q: Pos| adjacent(pos, q) implies #[trigger] ring.contains(q) by {
        lemma_adjacent_by_offsets(pos, q);
        let k: int = if q.x == pos.x - 1 {
            if q.y == wide[0].1 {
                0
            } else {
                1
            }
        } else if q.x == pos.x {
            if q.y == pos.y - 1 {
                2
            } else {
                3
            }
        } else {
            if q.y == wide[4].1 {
                4
            } else {
                5
            }
        };
        assert(wide[k] == (q.x as int, q.y as int));
        lemma_kept_holds(wide, 6, k);
    }
    lemma_ring(pos, ring);
}

} // verus!
