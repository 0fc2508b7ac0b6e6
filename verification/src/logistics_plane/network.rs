//! Making hubs known along the roads of a network.

use vstd::prelude::*;
use crate::celldata::{CellState, CellStateVariant};
use crate::hexgrid::{self, hex_distance, CellGen, Pos};
use crate::logistics_plane::{
    copied, net_of, plane_set, Available, AvailableView, LogisticsPlane, LogisticsState,
    LogisticsView,
};
use crate::GameState;

verus! {

/// Whether the cell is a road.
pub fn is_road(c: CellState) -> (r: bool)
    ensures
        r == (c.variant is Road),
{
    match c.variant {
        CellStateVariant::Road => true,
        _ => false,
    }
}

/// Whether the cell is a hub or a road.
pub fn is_hub_or_road(c: CellState) -> (r: bool)
    ensures
        r == (c.variant is Hub || c.variant is Road),
{
    match c.variant {
        CellStateVariant::Hub => true,
        CellStateVariant::Road => true,
        _ => false,
    }
}

/// The entries of `old` that `base` does not hold, in their order.
pub open spec fn extras(base: Seq<Pos>, old: Seq<Pos>) -> Seq<Pos>
    decreases old.len(),
{
    if old.len() == 0 {
        Seq::empty()
    } else if base.contains(old.last()) {
        extras(base, old.drop_last())
    } else {
        extras(base, old.drop_last()).push(old.last())
    }
}

/// The sources `base` followed by those of `old` that are not among them.
pub open spec fn merged(base: Seq<Pos>, old: Seq<Pos>) -> Seq<Pos> {
    base + extras(base, old)
}

proof fn lemma_extras_joined(base: Seq<Pos>, a: Seq<Pos>, b: Seq<Pos>)
    ensures
        extras(base, a + b) == extras(base, a) + extras(base, b),
    decreases b.len(),
{
    if b.len() == 0 {
        assert(a + b =~= a);
        assert(extras(base, a) + extras(base, b) =~= extras(base, a));
    } else {
        lemma_extras_joined(base, a, b.drop_last());
        assert((a + b).drop_last() =~= a + b.drop_last());
        assert((a + b).last() == b.last());
        if base.contains(b.last()) {
        } else {
            assert((extras(base, a) + extras(base, b.drop_last())).push(b.last()) =~= extras(
                base,
                a,
            ) + extras(base, b.drop_last()).push(b.last()));
        }
    }
}

proof fn lemma_extras_of_held(base: Seq<Pos>, x: Seq<Pos>)
    requires
        forall|i: int| 0 <= i < x.len() ==> base.contains(#[trigger] x[i]),
    ensures
        extras(base, x) == Seq::<Pos>::empty(),
    decreases x.len(),
{
    if x.len() > 0 {
        assert forall|i: int| 0 <= i < x.drop_last().len() implies base.contains(
            #[trigger] x.drop_last()[i],
        ) by {
            assert(x.drop_last()[i] == x[i]);
        }
        lemma_extras_of_held(base, x.drop_last());
        assert(base.contains(x[x.len() - 1]));
    }
}

proof fn lemma_extras_are_new(base: Seq<Pos>, old: Seq<Pos>)
    ensures
        forall|i: int|
            0 <= i < extras(base, old).len() ==> !base.contains(#[trigger] extras(base, old)[i]),
    decreases old.len(),
{
    if old.len() > 0 {
        lemma_extras_are_new(base, old.drop_last());
        let shorter = extras(base, old.drop_last());
        let all = extras(base, old);
        assert forall|i: int| 0 <= i < all.len() implies !base.contains(#[trigger] all[i]) by {
            if i < shorter.len() {
                assert(all[i] == shorter[i]);
            }
        }
    }
}

proof fn lemma_extras_of_new(base: Seq<Pos>, x: Seq<Pos>)
    requires
        forall|i: int| 0 <= i < x.len() ==> !base.contains(#[trigger] x[i]),
    ensures
        extras(base, x) == x,
    decreases x.len(),
{
    if x.len() > 0 {
        assert forall|i: int| 0 <= i < x.drop_last().len() implies !base.contains(
            #[trigger] x.drop_last()[i],
        ) by {
            assert(x.drop_last()[i] == x[i]);
        }
        lemma_extras_of_new(base, x.drop_last());
        assert(!base.contains(x[x.len() - 1]));
        assert(x.drop_last().push(x.last()) =~= x);
    } else {
        assert(x =~= Seq::<Pos>::empty());
    }
}

/// Merging the same sources in a second time changes nothing.
pub proof fn lemma_merged_twice(base: Seq<Pos>, old: Seq<Pos>)
    ensures
        merged(base, merged(base, old)) == merged(base, old),
        merged(base, base) == base,
{
    let e = extras(base, old);
    lemma_extras_joined(base, base, e);
    assert forall|i: int| 0 <= i < base.len() implies base.contains(#[trigger] base[i]) by {}
    lemma_extras_of_held(base, base);
    lemma_extras_are_new(base, old);
    lemma_extras_of_new(base, e);
    assert(Seq::<Pos>::empty() + e =~= e);
    assert(base + Seq::<Pos>::empty() =~= base);
}

fn holds(v: &Vec<Pos>, p: Pos) -> (r: bool)
    ensures
        r == v@.contains(p),
{
    let mut i: usize = 0;
    while i < v.len()
        invariant
            i <= v.len(),
            forall|j: int| 0 <= j < i ==> v[j] != p,
        decreases v.len() - i,
    {
        if v[i].x == p.x && v[i].y == p.y {
            return true;
        }
        i = i + 1;
    }
    false
}

fn union_of(base: &Vec<Pos>, old: &Vec<Pos>) -> (r: Vec<Pos>)
    ensures
        r@ == merged(base@, old@),
{
    let mut out = copied(base);
    let mut i: usize = 0;
    assert(base@ + Seq::<Pos>::empty() =~= base@);
    while i < old.len()
        invariant
            i <= old.len(),
            out@ == base@ + extras(base@, old@.take(i as int)),
        decreases old.len() - i,
    {
        proof {
            assert(old@.take(i + 1).drop_last() =~= old@.take(i as int));
        }
        if !holds(base, old[i]) {
            out.push(old[i]);
            assert(out@ =~= base@ + extras(base@, old@.take(i as int)).push(old[i as int]));
        }
        i = i + 1;
    }
    assert(old@.take(i as int) =~= old@);
    out
}

/// What a position takes up when the sources `hubs` come within its reach: a
/// position out of reach now knows them, a position within reach knows them
/// beside those it knew, with its bookkeeping as it was, and a source stays a
/// source.
pub open spec fn absorb(v: LogisticsView, hubs: Seq<Pos>) -> LogisticsView {
    match v {
        LogisticsView::Unreached => LogisticsView::Available(
            AvailableView { locations: hubs, borrows: Seq::empty(), taken_lp: Seq::empty() },
        ),
        LogisticsView::Source => LogisticsView::Source,
        LogisticsView::Available(a) => LogisticsView::Available(
            AvailableView { locations: merged(hubs, a.locations), ..a },
        ),
    }
}

/// Whether `q` is at most two steps from one of the first `n` of `srcs`.
pub open spec fn near_any(srcs: Seq<Pos>, n: int, q: Pos) -> bool
    decreases n,
{
    n > 0 && (near_any(srcs, n - 1, q) || hex_distance(srcs[n - 1], q) <= 2)
}

/// The network after the sources `hubs` have been made known around the
/// positions `srcs`: every position at most two steps from one of `srcs` takes
/// them up. Without sources nothing changes.
pub open spec fn spread(net: Map<Pos, LogisticsView>, srcs: Seq<Pos>, hubs: Seq<Pos>) -> Map<
    Pos,
    LogisticsView,
> {
    if hubs.len() == 0 {
        net
    } else {
        Map::total(
            |q: Pos|
                if near_any(srcs, srcs.len() as int, q) {
                    absorb(net[q], hubs)
                } else {
                    net[q]
                },
        )
    }
}

fn absorbed(c: LogisticsState, hubs: &Vec<Pos>) -> (r: LogisticsState)
    ensures
        r@ == absorb(c@, hubs@),
{
    match c {
        LogisticsState::Unreached => LogisticsState::Available(
            Available { locations: copied(hubs), borrows: Vec::new(), taken_lp: Vec::new() },
        ),
        LogisticsState::Source => LogisticsState::Source,
        LogisticsState::Available(a) => {
            let Available { locations, borrows, taken_lp } = a;
            let joined = union_of(hubs, &locations);
            LogisticsState::Available(Available { locations: joined, borrows, taken_lp })
        },
    }
}

/// Makes the sources `to_add` known around the positions `src`; see [`spread`].
pub fn add_to_close(src: &Vec<Pos>, to_add: &Vec<Pos>, lp: &mut LogisticsPlane)
    ensures
        net_of(final(lp)@) == spread(net_of(old(lp)@), src@, to_add@),
        final(lp)@.sentinel == old(lp)@.sentinel,
{
    if to_add.len() == 0 {
        return ;
    }
    let ghost net0 = net_of(lp@);
    let mut i: usize = 0;
    while i < src.len()
        invariant
            i <= src.len(),
            to_add.len() > 0,
            lp@.sentinel == old(lp)@.sentinel,
            forall|q: Pos|
                #![trigger net_of(lp@)[q]]
                net_of(lp@)[q] == if near_any(src@, i as int, q) {
                    absorb(net0[q], to_add@)
                } else {
                    net0[q]
                },
        decreases src.len() - i,
    {
        let src_item = src[i];
        let ghost net_i = net_of(lp@);
        let ghost grid_i = lp@;
        assert((2 * 2 + 1) * (2 * 2 + 1) == 25) by (nonlinear_arith);
        let cells = hexgrid::within(src_item, lp, 2);
        let ghost ps = hexgrid::positions_of(cells@);
        proof {
            grid_i.lemma_touched_all_keeps_cells(ps);
            assert(net_of(lp@) =~= net_i);
            assert forall|w: int| 0 <= w < cells.len() implies (#[trigger] cells[w]).1@
                == net_i[cells[w].0] by {
                assert(cloned(grid_i.values[cells[w].0], cells[w].1));
            }
        }
        let mut j: usize = 0;
        while j < cells.len()
            invariant
                j <= cells.len(),
                i < src.len(),
                src_item == src[i as int],
                to_add.len() > 0,
                lp@.sentinel == old(lp)@.sentinel,
                ps == hexgrid::positions_of(cells@),
                hexgrid::disc_listing(src_item, 2, ps),
                forall|w: int| 0 <= w < cells.len() ==> (#[trigger] cells[w]).1@ == net_i[cells[w].0],
                forall|q: Pos|
                    #![trigger net_i[q]]
                    net_i[q] == if near_any(src@, i as int, q) {
                        absorb(net0[q], to_add@)
                    } else {
                        net0[q]
                    },
                forall|q: Pos|
                    #![trigger net_of(lp@)[q]]
                    net_of(lp@)[q] == if near_any(src@, i as int, q) || ps.take(j as int).contains(
                        q,
                    ) {
                        absorb(net0[q], to_add@)
                    } else {
                        net0[q]
                    },
            decreases cells.len() - j,
        {
            let pn = cells[j].0;
            let ghost net_j = net_of(lp@);
            let c = cells[j].1.clone();
            proof {
                assert(ps[j as int] == pn);
                assert(c@ == net_i[pn]);
                if let LogisticsView::Available(a) = net0[pn] {
                    lemma_merged_twice(to_add@, a.locations);
                }
                lemma_merged_twice(to_add@, to_add@);
                assert(absorb(absorb(net0[pn], to_add@), to_add@) == absorb(net0[pn], to_add@));
                assert(absorb(c@, to_add@) == absorb(net0[pn], to_add@));
                assert(!ps.take(j as int).contains(pn)) by {
                    let t0 = ps.take(j as int);
                    if t0.contains(pn) {
                        let w = choose|w: int| 0 <= w < t0.len() && #[trigger] t0[w] == pn;
                        assert(hexgrid::lex_less(ps[w], ps[j as int]));
                    }
                }
                assert(net_j[pn] == net_i[pn]);
            }
            match c {
                LogisticsState::Source => {},
                other => {
                    let new_cell = absorbed(other, to_add);
                    plane_set(pn, new_cell, lp);
                },
            }
            proof {
                assert(net_of(lp@)[pn] == absorb(net0[pn], to_add@));
                assert forall|q: Pos|
                    #![trigger net_of(lp@)[q]]
                    net_of(lp@)[q] == if near_any(src@, i as int, q) || ps.take(j + 1).contains(
                        q,
                    ) {
                        absorb(net0[q], to_add@)
                    } else {
                        net0[q]
                    } by {
                    let t0 = ps.take(j as int);
                    let t1 = ps.take(j + 1);
                    assert(t1 =~= t0.push(pn));
                    if q == pn {
                        assert(t1[j as int] == pn);
                    } else {
                        assert(net_of(lp@)[q] == net_j[q]);
                        if t0.contains(q) {
                            let w = choose|w: int| 0 <= w < t0.len() && #[trigger] t0[w] == q;
                            assert(t1[w] == q);
                        }
                        if t1.contains(q) {
                            let w = choose|w: int| 0 <= w < t1.len() && #[trigger] t1[w] == q;
                            assert(t0[w] == q);
                        }
                    }
                }
            }
            j = j + 1;
        }
        proof {
            assert(ps.take(j as int) =~= ps);
            assert forall|q: Pos|
                #![trigger net_of(lp@)[q]]
                net_of(lp@)[q] == if near_any(src@, i + 1, q) {
                    absorb(net0[q], to_add@)
                } else {
                    net0[q]
                } by {
                if ps.contains(q) {
                    let w = choose|w: int| 0 <= w < ps.len() && ps[w] == q;
                    assert(hex_distance(src_item, ps[w]) <= 2);
                }
                if hex_distance(src_item, q) <= 2 {
                    assert(ps.contains(q));
                }
            }
        }
        i = i + 1;
    }
    proof {
        assert(net_of(lp@) =~= spread(net0, src@, to_add@));
    }
}

/// The roads that can be reached from `pos` over roads.
fn find_connected_roads<C>(pos: Pos, g: &mut GameState<C>) -> (r: Vec<Pos>) where
    CellState: CellGen<C>,

    ensures
        forall|q: Pos|
            #[trigger] r@.contains(q) <==> hexgrid::linked(old(g)@.board.values, is_road, pos, q),
        final(g)@.board.values == old(g)@.board.values,
        final(g)@.board.sentinel == old(g)@.board.sentinel,
        exists|ps: Seq<Pos>| final(g)@.board == old(g)@.board.touched_all(ps),
        final(g)@.net == old(g)@.net,
        final(g)@.buckets == old(g)@.buckets,
        final(g)@.resources == old(g)@.resources,
{
    let ghost values = g@.board.values;
    let found = hexgrid::get_connected(pos, is_road, &mut g.matrix);
    let mut out: Vec<Pos> = Vec::new();
    let mut i: usize = 0;
    while i < found.len()
        invariant
            i <= found.len(),
            out.len() == i,
            forall|j: int| 0 <= j < i ==> out[j] == (#[trigger] found[j]).0,
        decreases found.len() - i,
    {
        out.push(found[i].0);
        i = i + 1;
    }
    proof {
        assert forall|q: Pos| #[trigger]
            out@.contains(q) <==> hexgrid::linked(values, is_road, pos, q) by {
            if out@.contains(q) {
                let w = choose|w: int| 0 <= w < out.len() && out[w] == q;
                assert(found[w].0 == q);
            }
            if hexgrid::linked(values, is_road, pos, q) {
                let path = choose|path: Seq<Pos>| #[trigger]
                    hexgrid::chain(values, is_road, pos, path) && path.last() == q;
                hexgrid::lemma_closed_set_holds_reachable(values, is_road, pos, found@, path);
                let w = choose|w: int| 0 <= w < found.len() && (#[trigger] found[w]).0 == q;
                assert(out[w] == q);
            }
        }
    }
    out
}

spec fn hub_among(found: Seq<(Pos, CellState)>, n: int, q: Pos) -> bool {
    exists|j: int| 0 <= j < n && (#[trigger] found[j]).0 == q && found[j].1.variant is Hub
}

/// The hubs that can be reached from `pos` over hubs and roads.
fn find_connected_hubs<C>(pos: Pos, g: &mut GameState<C>) -> (r: Vec<Pos>) where
    CellState: CellGen<C>,

    ensures
        forall|q: Pos|
            #[trigger] r@.contains(q) <==> (old(g)@.board.values[q].variant is Hub
                && hexgrid::linked(old(g)@.board.values, is_hub_or_road, pos, q)),
        final(g)@.board.values == old(g)@.board.values,
        final(g)@.board.sentinel == old(g)@.board.sentinel,
        exists|ps: Seq<Pos>| final(g)@.board == old(g)@.board.touched_all(ps),
        final(g)@.net == old(g)@.net,
        final(g)@.buckets == old(g)@.buckets,
        final(g)@.resources == old(g)@.resources,
{
    let ghost values = g@.board.values;
    let found = hexgrid::get_connected(pos, is_hub_or_road, &mut g.matrix);
    let mut out: Vec<Pos> = Vec::new();
    let mut i: usize = 0;
    while i < found.len()
        invariant
            i <= found.len(),
            forall|j: int| 0 <= j < found.len() ==> (#[trigger] found[j]).1 == values[found[j].0],
            forall|w: int| 0 <= w < out.len() ==> hub_among(found@, i as int, #[trigger] out[w]),
            forall|j: int|
                0 <= j < i && (#[trigger] found[j]).1.variant is Hub ==> out@.contains(found[j].0),
        decreases found.len() - i,
    {
        let ghost had = out@;
        match found[i].1.variant {
            CellStateVariant::Hub => {
                out.push(found[i].0);
                proof {
                    assert(out@[out.len() - 1] == found[i as int].0);
                    assert forall|j: int|
                        0 <= j < i + 1 && (#[trigger] found[j]).1.variant is Hub implies out@.contains(
                        found[j].0,
                    ) by {
                        if j < i {
                            let w = choose|w: int| 0 <= w < had.len() && had[w] == found[j].0;
                            assert(out@[w] == found[j].0);
                        }
                    }
                    assert forall|w: int| 0 <= w < out.len() implies hub_among(
                        found@,
                        i + 1,
                        #[trigger] out[w],
                    ) by {
                        if w < had.len() {
                            assert(out[w] == had[w]);
                            assert(hub_among(found@, i as int, had[w]));
                            let j = choose|j: int|
                                0 <= j < i && (#[trigger] found@[j]).0 == had[w]
                                    && found@[j].1.variant is Hub;
                            assert(found@[j].0 == out[w]);
                        } else {
                            assert(found@[i as int].0 == out[w]);
                        }
                    }
                }
            },
            _ => {
                proof {
                    assert forall|w: int| 0 <= w < out.len() implies hub_among(
                        found@,
                        i + 1,
                        #[trigger] out[w],
                    ) by {
                        assert(hub_among(found@, i as int, out[w]));
                        let j = choose|j: int|
                            0 <= j < i && (#[trigger] found@[j]).0 == out[w]
                                && found@[j].1.variant is Hub;
                        assert(found@[j].0 == out[w]);
                    }
                }
            },
        }
        i = i + 1;
    }
    proof {
        assert forall|q: Pos| #[trigger]
            out@.contains(q) <==> (values[q].variant is Hub && hexgrid::linked(
                values,
                is_hub_or_road,
                pos,
                q,
            )) by {
            if out@.contains(q) {
                let w = choose|w: int| 0 <= w < out.len() && out[w] == q;
                assert(hub_among(found@, found.len() as int, out[w]));
                let j = choose|j: int|
                    0 <= j < found.len() && (#[trigger] found@[j]).0 == out[w]
                        && found@[j].1.variant is Hub;
                assert(found[j].1 == values[found[j].0]);
            }
            if values[q].variant is Hub && hexgrid::linked(values, is_hub_or_road, pos, q) {
                let path = choose|path: Seq<Pos>| #[trigger]
                    hexgrid::chain(values, is_hub_or_road, pos, path) && path.last() == q;
                hexgrid::lemma_closed_set_holds_reachable(
                    values,
                    is_hub_or_road,
                    pos,
                    found@,
                    path,
                );
                let j = choose|j: int| 0 <= j < found.len() && (#[trigger] found[j]).0 == q;
                assert(found[j].1 == values[found[j].0]);
            }
        }
    }
    out
}

/// `roads` lists `pos` and the roads that can be reached from it over roads;
/// `hubs` lists the hubs that can be reached from `pos` over hubs and roads,
/// and `pos` itself where it is a hub.
pub open spec fn network_of(
    values: Map<Pos, CellState>,
    pos: Pos,
    is_hub: bool,
    roads: Seq<Pos>,
    hubs: Seq<Pos>,
) -> bool {
    &&& forall|q: Pos| #[trigger]
        roads.contains(q) <==> (q == pos || hexgrid::linked(values, is_road, pos, q))
    &&& forall|q: Pos| #[trigger]
        hubs.contains(q) <==> ((is_hub && q == pos) || (values[q].variant is Hub
            && hexgrid::linked(values, is_hub_or_road, pos, q)))
}

fn with_position(v: Vec<Pos>, pos: Pos) -> (r: Vec<Pos>)
    ensures
        forall|q: Pos| #[trigger] r@.contains(q) <==> (q == pos || v@.contains(q)),
{
    let mut v = v;
    let ghost had = v@;
    if !holds(&v, pos) {
        v.push(pos);
        proof {
            assert(v@[v.len() - 1] == pos);
            assert forall|q: Pos| #[trigger] v@.contains(q) <==> (q == pos || had.contains(q)) by {
                if had.contains(q) {
                    let w = choose|w: int| 0 <= w < had.len() && had[w] == q;
                    assert(v@[w] == q);
                }
                if v@.contains(q) && q != pos {
                    let w = choose|w: int| 0 <= w < v.len() && v@[w] == q;
                    assert(had[w] == q);
                }
            }
        }
    }
    v
}

/// Makes the network around a new hub or road at `pos` known: every position
/// at most two steps from `pos` or from a road linked to it takes up the hubs
/// linked to `pos`. The board only has chunks generated.
pub fn update_logistics<C>(pos: Pos, is_hub: bool, g: &mut GameState<C>) where
    CellState: CellGen<C>,

    ensures
        exists|roads: Seq<Pos>, hubs: Seq<Pos>| #[trigger]
            network_of(old(g)@.board.values, pos, is_hub, roads, hubs) && final(g)@.net == spread(
                old(g)@.net,
                roads,
                hubs,
            ),
        final(g)@.board.values == old(g)@.board.values,
        final(g)@.board.sentinel == old(g)@.board.sentinel,
        exists|ps: Seq<Pos>| final(g)@.board == old(g)@.board.touched_all(ps),
        final(g)@.buckets == old(g)@.buckets,
        final(g)@.resources == old(g)@.resources,
{
    let ghost values = g@.board.values;
    let other_hubs = find_connected_hubs(pos, g);
    let ghost mid = g@.board;
    let ghost ps1 = choose|ps: Seq<Pos>| mid == old(g)@.board.touched_all(ps);
    let connected_hubs = if is_hub {
        with_position(other_hubs, pos)
    } else {
        other_hubs
    };
    let other_roads = find_connected_roads(pos, g);
    let ghost ps2 = choose|ps: Seq<Pos>| g@.board == mid.touched_all(ps);
    let new_network = with_position(other_roads, pos);
    proof {
        old(g)@.board.lemma_touched_all_joined(ps1, ps2);
        assert(network_of(values, pos, is_hub, new_network@, connected_hubs@));
    }
    add_to_close(&new_network, &connected_hubs, &mut g.logistics_plane);
}

} // verus!
