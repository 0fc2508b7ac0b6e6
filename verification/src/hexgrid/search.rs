//! The search for the cells that are linked to a position.

use vstd::prelude::*;
use std::collections::HashSet;
use crate::hexgrid::area::neighbors;
use crate::hexgrid::geometry::{adjacent, disc};
use crate::hexgrid::{
    lemma_pos_code_injective, pack_key, pos_code, positions_of, read_copy, CellGen, Hexgrid, Pos,
};

verus! {

/// The test `t` can be run on every cell and gives one answer for each.
pub open spec fn decides<T, F: Fn(T) -> bool>(t: F) -> bool {
    &&& forall|c: T| #[trigger] t.requires((c,))
    &&& forall|c: T, a: bool, b: bool|
        #![trigger t.ensures((c,), a), t.ensures((c,), b)]
        t.ensures((c,), a) && t.ensures((c,), b) ==> a == b
}

/// The test `t` answers yes for the cell `c`.
pub open spec fn accepts<T, F: Fn(T) -> bool>(t: F, c: T) -> bool {
    t.ensures((c,), true)
}

/// `path` leads away from `p`: it starts at a neighbour of `p`, every step goes
/// to a neighbour, and `t` accepts the cell at every position on it.
pub open spec fn chain<T, F: Fn(T) -> bool>(values: Map<Pos, T>, t: F, p: Pos, path: Seq<Pos>) -> bool {
    &&& path.len() > 0
    &&& adjacent(p, path[0])
    &&& forall|k: int| 0 <= k < path.len() ==> accepts(t, values[#[trigger] path[k]])
    &&& forall|k: int| 0 < k < path.len() ==> adjacent(path[k - 1], #[trigger] path[k])
}

/// `q` can be reached from `p` over cells that `t` accepts.
pub open spec fn linked<T, F: Fn(T) -> bool>(values: Map<Pos, T>, t: F, p: Pos, q: Pos) -> bool {
    exists|path: Seq<Pos>| #[trigger] chain(values, t, p, path) && path.last() == q
}

/// `q` is the position of one of the entries of `out`.
pub open spec fn listed<T>(out: Seq<(Pos, T)>, q: Pos) -> bool {
    exists|i: int| 0 <= i < out.len() && (#[trigger] out[i]).0 == q
}

/// What the search holds while it runs: `seen` is the set of the slots of the
/// cells found, each found cell is listed once with its value, is accepted and
/// can be reached; once `seeded`, the accepted neighbours of `p` are listed,
/// and so are those of the first `done` cells found.
#[verifier::opaque]
spec fn searching<T, F: Fn(T) -> bool>(
    values: Map<Pos, T>,
    t: F,
    p: Pos,
    out: Seq<(Pos, T)>,
    seen: Set<u64>,
    done: int,
    seeded: bool,
) -> bool {
    &&& forall|e: int| 0 <= e < out.len() ==> seen.contains(pos_code((#[trigger] out[e]).0))
    &&& forall|k: u64|
        seen.contains(k) ==> exists|e: int|
            0 <= e < out.len() && pos_code((#[trigger] out[e]).0) == k
    &&& forall|a: int, b: int|
        0 <= a < b < out.len() ==> (#[trigger] out[a]).0 != (#[trigger] out[b]).0
    &&& forall|e: int|
        0 <= e < out.len() ==> {
            &&& (#[trigger] out[e]).1 == values[out[e].0]
            &&& accepts(t, out[e].1)
            &&& linked(values, t, p, out[e].0)
        }
    &&& seeded ==> forall|q: Pos|
        adjacent(p, q) && accepts(t, values[q]) ==> #[trigger] listed(out, q)
    &&& forall|e: int, q: Pos|
        0 <= e < done && e < out.len() && adjacent((#[trigger] out[e]).0, q) && accepts(
            t,
            values[q],
        ) ==> #[trigger] listed(out, q)
}

/// The cell from which the search looks around next.
spec fn search_center<T>(p: Pos, out: Seq<(Pos, T)>, done: int, seeded: bool) -> Pos {
    if seeded {
        out[done].0
    } else {
        p
    }
}

proof fn lemma_listed_grows<T>(out: Seq<(Pos, T)>, entry: (Pos, T))
    ensures
        forall|q: Pos| listed(out, q) ==> #[trigger] listed(out.push(entry), q),
        listed(out.push(entry), entry.0),
{
    assert forall|q: Pos| listed(out, q) implies #[trigger] listed(out.push(entry), q) by {
        let e = choose|e: int| 0 <= e < out.len() && (#[trigger] out[e]).0 == q;
        assert(out.push(entry)[e] == out[e]);
    }
    assert(out.push(entry)[out.len() as int] == entry);
}

proof fn lemma_search_start<T, F: Fn(T) -> bool>(values: Map<Pos, T>, t: F, p: Pos)
    ensures
        searching(values, t, p, Seq::<(Pos, T)>::empty(), Set::<u64>::empty(), 0, false),
{
    reveal(searching);
}

proof fn lemma_search_known<T, F: Fn(T) -> bool>(
    values: Map<Pos, T>,
    t: F,
    p: Pos,
    out: Seq<(Pos, T)>,
    seen: Set<u64>,
    done: int,
    seeded: bool,
    n: Pos,
)
    requires
        searching(values, t, p, out, seen, done, seeded),
    ensures
        seen.contains(pos_code(n)) <==> listed(out, n),
{
    reveal(searching);
    if seen.contains(pos_code(n)) {
        let e = choose|e: int| 0 <= e < out.len() && pos_code((#[trigger] out[e]).0) == pos_code(n);
        lemma_pos_code_injective(out[e].0, n);
    }
    if listed(out, n) {
        let e = choose|e: int| 0 <= e < out.len() && (#[trigger] out[e]).0 == n;
        assert(seen.contains(pos_code(out[e].0)));
    }
}

proof fn lemma_search_add<T, F: Fn(T) -> bool>(
    values: Map<Pos, T>,
    t: F,
    p: Pos,
    out: Seq<(Pos, T)>,
    seen: Set<u64>,
    done: int,
    seeded: bool,
    n: Pos,
)
    requires
        searching(values, t, p, out, seen, done, seeded),
        0 <= done <= out.len(),
        seeded ==> done < out.len(),
        adjacent(search_center(p, out, done, seeded), n),
        accepts(t, values[n]),
        !seen.contains(pos_code(n)),
    ensures
        searching(
            values,
            t,
            p,
            out.push((n, values[n])),
            seen.insert(pos_code(n)),
            done,
            seeded,
        ),
{
    reveal(searching);
    let center = search_center(p, out, done, seeded);
    let grown = out.push((n, values[n]));
    let marked = seen.insert(pos_code(n));
    lemma_listed_grows(out, (n, values[n]));
    assert(linked(values, t, p, n)) by {
        if seeded {
            let path = choose|path: Seq<Pos>| #[trigger]
                chain(values, t, p, path) && path.last() == center;
            let longer = path.push(n);
            assert forall|k: int| 0 <= k < longer.len() implies accepts(
                t,
                values[#[trigger] longer[k]],
            ) by {
                if k < path.len() {
                    assert(longer[k] == path[k]);
                }
            }
            assert forall|k: int| 0 < k < longer.len() implies adjacent(
                longer[k - 1],
                #[trigger] longer[k],
            ) by {
                if k < path.len() {
                    assert(longer[k] == path[k]);
                    assert(longer[k - 1] == path[k - 1]);
                }
            }
            assert(longer[0] == path[0]);
            assert(chain(values, t, p, longer));
            assert(longer.last() == n);
        } else {
            let path = seq![n];
            assert(chain(values, t, p, path));
            assert(path.last() == n);
        }
    }
    assert forall|e: int| 0 <= e < grown.len() implies marked.contains(
        pos_code((#[trigger] grown[e]).0),
    ) by {
        if e < out.len() {
            assert(grown[e] == out[e]);
        }
    }
    assert forall|k: u64| marked.contains(k) implies exists|e: int|
        0 <= e < grown.len() && pos_code((#[trigger] grown[e]).0) == k by {
        if k == pos_code(n) {
            assert(pos_code(grown[out.len() as int].0) == k);
        } else {
            let e = choose|e: int| 0 <= e < out.len() && pos_code((#[trigger] out[e]).0) == k;
            assert(grown[e] == out[e]);
        }
    }
    assert forall|a: int, b: int| 0 <= a < b < grown.len() implies (#[trigger] grown[a]).0 != (
    #[trigger] grown[b]).0 by {
        assert(grown[a] == out[a]);
        if b < out.len() {
            assert(grown[b] == out[b]);
        } else {
            assert(seen.contains(pos_code(out[a].0)));
        }
    }
    assert forall|e: int| 0 <= e < grown.len() implies {
        &&& (#[trigger] grown[e]).1 == values[grown[e].0]
        &&& accepts(t, grown[e].1)
        &&& linked(values, t, p, grown[e].0)
    } by {
        if e < out.len() {
            assert(grown[e] == out[e]);
        }
    }
    assert forall|e: int, q: Pos|
        0 <= e < done && e < grown.len() && adjacent((#[trigger] grown[e]).0, q) && accepts(
            t,
            values[q],
        ) implies #[trigger] listed(grown, q) by {
        if e < out.len() {
            assert(grown[e] == out[e]);
            assert(listed(out, q));
        }
    }
}

proof fn lemma_search_advance<T, F: Fn(T) -> bool>(
    values: Map<Pos, T>,
    t: F,
    p: Pos,
    out: Seq<(Pos, T)>,
    seen: Set<u64>,
    done: int,
    seeded: bool,
)
    requires
        searching(values, t, p, out, seen, done, seeded),
        seeded ==> 0 <= done < out.len(),
        forall|q: Pos|
            adjacent(search_center(p, out, done, seeded), q) && accepts(t, values[q])
                ==> #[trigger] listed(out, q),
    ensures
        searching(values, t, p, out, seen, if seeded { done + 1 } else { done }, true),
{
    reveal(searching);
}

proof fn lemma_search_end<T, F: Fn(T) -> bool>(
    values: Map<Pos, T>,
    t: F,
    p: Pos,
    out: Seq<(Pos, T)>,
    seen: Set<u64>,
)
    requires
        searching(values, t, p, out, seen, out.len() as int, true),
    ensures
        positions_of(out).no_duplicates(),
        forall|i: int|
            0 <= i < out.len() ==> {
                &&& (#[trigger] out[i]).1 == values[out[i].0]
                &&& accepts(t, out[i].1)
                &&& linked(values, t, p, out[i].0)
            },
        forall|q: Pos| adjacent(p, q) && accepts(t, values[q]) ==> #[trigger] listed(out, q),
        forall|i: int, q: Pos|
            0 <= i < out.len() && adjacent((#[trigger] out[i]).0, q) && accepts(t, values[q])
                ==> #[trigger] listed(out, q),
{
    reveal(searching);
    let ps = positions_of(out);
    assert forall|a: int, b: int| 0 <= a < ps.len() && 0 <= b < ps.len() && a != b implies ps[a]
        != ps[b] by {
        if a < b {
            assert(out[a].0 != out[b].0);
        } else {
            assert(out[b].0 != out[a].0);
        }
    }
}

/// The cells that can be reached from `p` over cells that `t` accepts, each
/// with its position, in the order in which the search met them.
///
/// The search starts with the accepted neighbours of `p` and goes on from
/// every cell it has found until nothing new turns up. `p` itself is part of
/// the result only where the search comes back to it.
pub fn get_connected<T: Copy + CellGen<C>, C, F: Fn(T) -> bool>(
    p: Pos,
    t: F,
    m: &mut Hexgrid<T, C>,
) -> (r: Vec<(Pos, T)>)
    requires
        decides(t),
    ensures
        positions_of(r@).no_duplicates(),
        forall|i: int|
            0 <= i < r.len() ==> {
                &&& (#[trigger] r[i]).1 == old(m)@.values[r[i].0]
                &&& accepts(t, r[i].1)
                &&& linked(old(m)@.values, t, p, r[i].0)
            },
        forall|q: Pos|
            adjacent(p, q) && accepts(t, old(m)@.values[q]) ==> #[trigger] listed(r@, q),
        forall|i: int, q: Pos|
            0 <= i < r.len() && adjacent((#[trigger] r[i]).0, q) && accepts(t, old(m)@.values[q])
                ==> #[trigger] listed(r@, q),
        final(m)@.values == old(m)@.values,
        final(m)@.sentinel == old(m)@.sentinel,
        exists|ps: Seq<Pos>| final(m)@ == old(m)@.touched_all(ps),
{
    broadcast use vstd::std_specs::hash::group_hash_axioms;

    let mut out: Vec<(Pos, T)> = Vec::new();
    let mut seen: HashSet<u64> = HashSet::new();
    let ghost values = old(m)@.values;
    let ghost mut trail: Seq<Pos> = Seq::empty();
    let mut i: usize = 0;
    let mut seeded = false;
    proof {
        assert(old(m)@.touched_all(trail) == old(m)@);
        lemma_search_start(values, t, p);
        assert(out@ =~= Seq::<(Pos, T)>::empty());
        assert(seen@ =~= Set::<u64>::empty());
    }
    loop
        invariant
            decides(t),
            values == old(m)@.values,
            m@ == old(m)@.touched_all(trail),
            i <= out.len(),
            !seeded ==> i == 0,
            searching(values, t, p, out@, seen@, i as int, seeded),
        ensures
            seeded,
            i == out.len(),
        decreases (if seeded { 0int } else { 1int }) + usize::MAX - i,
    {
        if seeded && i >= out.len() {
            break ;
        }
        let center = if seeded {
            out[i].0
        } else {
            p
        };
        let ghost grid_before = m@;
        let ns = neighbors(center, m);
        proof {
            let ps = disc(center, 1);
            old(m)@.lemma_touched_all_joined(trail, ps);
            trail = trail + ps;
        }
        let ghost ring = positions_of(ns@);
        let mut j: usize = 0;
        while j < ns.len()
            invariant
                decides(t),
                values == old(m)@.values,
                m@ == old(m)@.touched_all(trail),
                j <= ns.len(),
                ring == positions_of(ns@),
                forall|w: int| 0 <= w < ring.len() ==> adjacent(center, #[trigger] ring[w]),
                seeded ==> i < out.len(),
                !seeded ==> i == 0,
                center == search_center(p, out@, i as int, seeded),
                searching(values, t, p, out@, seen@, i as int, seeded),
                forall|w: int|
                    0 <= w < j && accepts(t, values[#[trigger] ring[w]]) ==> listed(out@, ring[w]),
            decreases ns.len() - j,
        {
            let n = ns[j].0;
            let ghost out_before = out@;
            proof {
                old(m)@.lemma_touched_all_keeps_cells(trail);
                assert(ring[j as int] == n);
                assert(trail.push(n).drop_last() =~= trail);
            }
            let c = read_copy(n, m);
            proof {
                trail = trail.push(n);
                lemma_search_known(values, t, p, out@, seen@, i as int, seeded, n);
            }
            let key = pack_key(n);
            let take = t(c);
            if take && !seen.contains(&key) {
                proof {
                    lemma_search_add(values, t, p, out@, seen@, i as int, seeded, n);
                    lemma_listed_grows(out@, (n, c));
                }
                seen.insert(key);
                out.push((n, c));
            }
            j = j + 1;
        }
        proof {
            assert forall|q: Pos| adjacent(center, q) && accepts(t, values[q]) implies #[trigger] listed(
                out@,
                q,
            ) by {
                assert(ring.contains(q));
                let w = choose|w: int| 0 <= w < ring.len() && ring[w] == q;
                assert(accepts(t, values[ring[w]]));
            }
            lemma_search_advance(values, t, p, out@, seen@, i as int, seeded);
        }
        if seeded {
            i = i + 1;
        } else {
            seeded = true;
        }
    }
    proof {
        lemma_search_end(values, t, p, out@, seen@);
        old(m)@.lemma_touched_all_keeps_cells(trail);
    }
    out
}

/// A set of cells that holds the accepted neighbours of `p` and, with each of
/// its cells, the accepted neighbours of that cell, holds every cell that can
/// be reached from `p` over accepted cells.
pub proof fn lemma_closed_set_holds_reachable<T, F: Fn(T) -> bool>(
    values: Map<Pos, T>,
    t: F,
    p: Pos,
    out: Seq<(Pos, T)>,
    path: Seq<Pos>,
)
    requires
        chain(values, t, p, path),
        forall|q: Pos| adjacent(p, q) && accepts(t, values[q]) ==> #[trigger] listed(out, q),
        forall|i: int, q: Pos|
            0 <= i < out.len() && adjacent((#[trigger] out[i]).0, q) && accepts(t, values[q])
                ==> #[trigger] listed(out, q),
    ensures
        listed(out, path.last()),
    decreases path.len(),
{
    if path.len() == 1 {
        assert(accepts(t, values[path[0]]));
    } else {
        let shorter = path.drop_last();
        assert(chain(values, t, p, shorter)) by {
            assert forall|k: int| 0 <= k < shorter.len() implies accepts(
                t,
                values[#[trigger] shorter[k]],
            ) by {
                assert(shorter[k] == path[k]);
            }
            assert forall|k: int| 0 < k < shorter.len() implies adjacent(
                shorter[k - 1],
                #[trigger] shorter[k],
            ) by {
                assert(shorter[k] == path[k]);
                assert(shorter[k - 1] == path[k - 1]);
            }
            assert(shorter[0] == path[0]);
        }
        lemma_closed_set_holds_reachable(values, t, p, out, shorter);
        let e = choose|e: int| 0 <= e < out.len() && (#[trigger] out[e]).0 == shorter.last();
        assert(shorter.last() == path[path.len() - 2]);
        assert(adjacent(path[path.len() - 2], path[path.len() - 1]));
        assert(accepts(t, values[path[path.len() - 1]]));
    }
}

} // verus!
