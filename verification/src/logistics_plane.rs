//! The logistics network: which positions supply workers and resources,
//! which positions are within reach of them, and what has been drawn.

use vstd::prelude::*;
use crate::celldata::{CellState, CellStateData};
use crate::hexgrid::{self, hex_distance, CellGen, Chunk, EmptyContext, GridView, Hexgrid, Pos};
use crate::resource::{self, Resource, ResourcePacket, ResourceValue};
use crate::{GameState, GameView, InternalError};

pub mod giving_back;
pub mod laws;
pub mod network;

pub use giving_back::{
    applied_all, lemma_undo_all, refund_list, return_borrows, return_lp, returned_borrows,
    returned_lp, undo_count, undo_list,
};
pub use network::{
    absorb, add_to_close, extras, is_hub_or_road, is_road, lemma_merged_twice, merged, near_any,
    network_of, spread, update_logistics,
};

verus! {

broadcast use vstd::array::group_array_axioms;

/// A grid beside the board that holds the state of the network at every
/// position.
pub type LogisticsPlane = Hexgrid<LogisticsState, EmptyContext>;

/// What a position within reach of the network knows: the sources it can
/// draw from, what it has borrowed from each and not given back, and the
/// logistics points it has used at each and not got back.
#[derive(Debug, PartialEq, Eq)]
pub struct Available {
    pub locations: Vec<Pos>,
    pub borrows: Vec<(Pos, ResourcePacket)>,
    pub taken_lp: Vec<(Pos, ResourceValue)>,
}

/// The state of the network at one position.
#[derive(Debug, PartialEq, Eq)]
pub enum LogisticsState {
    /// Out of reach of every source.
    Unreached,
    /// A source: a hub, which supplies from its own ledger.
    Source,
    /// Within reach of at least one source.
    Available(Available),
}

/// The content of an [`Available`].
pub struct AvailableView {
    pub locations: Seq<Pos>,
    pub borrows: Seq<(Pos, ResourcePacket)>,
    pub taken_lp: Seq<(Pos, ResourceValue)>,
}

/// The content of a [`LogisticsState`].
pub enum LogisticsView {
    Unreached,
    Source,
    Available(AvailableView),
}

impl View for Available {
    type V = AvailableView;

    open spec fn view(&self) -> AvailableView {
        AvailableView {
            locations: self.locations@,
            borrows: self.borrows@,
            taken_lp: self.taken_lp@,
        }
    }
}

impl View for LogisticsState {
    type V = LogisticsView;

    open spec fn view(&self) -> LogisticsView {
        match self {
            LogisticsState::Unreached => LogisticsView::Unreached,
            LogisticsState::Source => LogisticsView::Source,
            LogisticsState::Available(a) => LogisticsView::Available(a@),
        }
    }
}

pub(crate) fn copied<V: Copy>(v: &Vec<V>) -> (r: Vec<V>)
    ensures
        r@ == v@,
{
    let mut out: Vec<V> = Vec::new();
    let mut i: usize = 0;
    while i < v.len()
        invariant
            i <= v.len(),
            out@ == v@.take(i as int),
        decreases v.len() - i,
    {
        out.push(v[i]);
        assert(v@.take(i + 1) =~= v@.take(i as int).push(v[i as int]));
        i = i + 1;
    }
    assert(v@.take(i as int) =~= v@);
    out
}

impl Clone for Available {
    fn clone(&self) -> (r: Self)
        ensures
            r@ == self@,
    {
        Available {
            locations: copied(&self.locations),
            borrows: copied(&self.borrows),
            taken_lp: copied(&self.taken_lp),
        }
    }
}

impl Clone for LogisticsState {
    fn clone(&self) -> (r: Self)
        ensures
            r@ == self@,
    {
        match self {
            LogisticsState::Unreached => LogisticsState::Unreached,
            LogisticsState::Source => LogisticsState::Source,
            LogisticsState::Available(a) => LogisticsState::Available(a.clone()),
        }
    }
}

impl CellGen<EmptyContext> for LogisticsState {
    open spec fn generated(c: EmptyContext, p: Pos) -> LogisticsState {
        LogisticsState::Unreached
    }

    fn new_chunk(_p: Pos, _c: &mut EmptyContext) -> (chunk: Chunk<LogisticsState>) {
        let chunk = hexgrid::chunk_from_example(LogisticsState::Unreached);
        proof {
            assert forall|q: Pos| hexgrid::chunk_key_of(q) == hexgrid::chunk_key_of(_p) implies chunk.cells()[hexgrid::chunk_cell_index(
                q,
            )] == #[trigger] Self::generated(*old(_c), q) by {
                let i = hexgrid::chunk_cell_index(q);
                assert(0 <= i < 0x10000);
                assert(hexgrid::copy_of(LogisticsState::Unreached, chunk.cells()[i]));
                let mid = choose|mid: LogisticsState|
                    cloned(LogisticsState::Unreached, mid) && cloned(mid, chunk.cells()[i]);
                assert(mid@ == LogisticsState::Unreached@);
                assert(mid == LogisticsState::Unreached);
                assert(chunk.cells()[i]@ == mid@);
            }
        }
        chunk
    }
}

/// The state of the network at every position of a plane.
pub open spec fn net_of(plane: GridView<LogisticsState>) -> Map<Pos, LogisticsView> {
    Map::total(|p: Pos| plane.values[p]@)
}

/// A plane on which no position is within reach of anything.
pub fn new_plane() -> (plane: LogisticsPlane)
    ensures
        net_of(plane@) == Map::total(|p: Pos| LogisticsView::Unreached),
        plane@.realized == Set::<Pos>::empty(),
        plane@.sentinel == LogisticsState::Unreached,
{
    let plane = hexgrid::new(EmptyContext::Nothing, LogisticsState::Unreached);
    assert(net_of(plane@) =~= Map::total(|p: Pos| LogisticsView::Unreached));
    plane
}

/// Reads the state of the network at `p`.
pub(crate) fn plane_get(p: Pos, plane: &mut LogisticsPlane) -> (r: LogisticsState)
    ensures
        r@ == net_of(old(plane)@)[p],
        net_of(final(plane)@) == net_of(old(plane)@),
        final(plane)@.sentinel == old(plane)@.sentinel,
{
    hexgrid::get(p, plane)
}

/// Writes the state of the network at `p`.
pub(crate) fn plane_set(p: Pos, cell: LogisticsState, plane: &mut LogisticsPlane)
    ensures
        net_of(final(plane)@) == net_of(old(plane)@).insert(p, cell@),
        final(plane)@.sentinel == old(plane)@.sentinel,
{
    hexgrid::set(p, cell, plane);
    assert(net_of(plane@) =~= net_of(old(plane)@).insert(p, cell@));
}

/// The first place in `m` of an entry for `k`, or the length of `m` where
/// there is none.
pub open spec fn key_index<V>(m: Seq<(Pos, V)>, k: Pos) -> int
    decreases m.len(),
{
    if m.len() == 0 {
        0
    } else if m[0].0 == k {
        0
    } else {
        1 + key_index(m.drop_first(), k)
    }
}

proof fn lemma_key_index<V>(m: Seq<(Pos, V)>, k: Pos, i: int)
    requires
        0 <= i <= m.len(),
        forall|j: int| 0 <= j < i ==> (#[trigger] m[j]).0 != k,
        i < m.len() ==> m[i].0 == k,
    ensures
        key_index(m, k) == i,
    decreases m.len(),
{
    if m.len() > 0 && i > 0 {
        assert(m[0].0 != k);
        let rest = m.drop_first();
        assert forall|j: int| 0 <= j < i - 1 implies (#[trigger] rest[j]).0 != k by {
            assert(rest[j] == m[j + 1]);
        }
        lemma_key_index(rest, k, i - 1);
    }
}

fn find_key<V>(m: &Vec<(Pos, V)>, k: Pos) -> (i: usize)
    ensures
        i == key_index(m@, k),
        i <= m.len(),
        i < m.len() ==> m[i as int].0 == k,
{
    let mut i: usize = 0;
    while i < m.len()
        invariant
            i <= m.len(),
            forall|j: int| 0 <= j < i ==> (#[trigger] m[j]).0 != k,
        decreases m.len() - i,
    {
        if m[i].0.x == k.x && m[i].0.y == k.y {
            proof {
                lemma_key_index(m@, k, i as int);
            }
            return i;
        }
        i = i + 1;
    }
    proof {
        lemma_key_index(m@, k, i as int);
    }
    i
}

/// Notes `v` under `k`: where `m` has an entry for `k`, the first such entry
/// gets what `join` makes of its value and `v`; else a new entry is added at
/// the end.
pub fn insert_or_join<V: Copy, F: Fn(V, V) -> V>(m: Vec<(Pos, V)>, join: F, k: Pos, v: V) -> (r:
    Vec<(Pos, V)>)
    requires
        key_index(m@, k) < m.len() ==> join.requires((m[key_index(m@, k)].1, v)),
    ensures
        key_index(m@, k) < m.len() ==> r.len() == m.len() && join.ensures(
            (m[key_index(m@, k)].1, v),
            r[key_index(m@, k)].1,
        ) && r@ == m@.update(key_index(m@, k), (k, r[key_index(m@, k)].1)),
        key_index(m@, k) >= m.len() ==> r@ == m@.push((k, v)),
{
    let mut m = m;
    let ghost before = m@;
    let i = find_key(&m, k);
    if i < m.len() {
        let v3 = join(m[i].1, v);
        m[i] = (k, v3);
        assert(m@ =~= before.update(i as int, (k, v3)));
    } else {
        m.push((k, v));
    }
    m
}

/// The bookkeeping of borrows after `p` has been borrowed from `target`, or
/// nothing where the sum for `target` would leave the range of a packet.
pub open spec fn noted_borrow(
    borrows: Seq<(Pos, ResourcePacket)>,
    target: Pos,
    p: ResourcePacket,
) -> Option<Seq<(Pos, ResourcePacket)>> {
    let i = key_index(borrows, target);
    if i < borrows.len() {
        if resource::fits_packet(resource::packet_sum(borrows[i].1@, p@)) {
            Some(
                borrows.update(
                    i,
                    (
                        target,
                        resource::packet_from(
                            resource::as_values(resource::packet_sum(borrows[i].1@, p@)),
                        ),
                    ),
                ),
            )
        } else {
            None
        }
    } else {
        Some(borrows.push((target, p)))
    }
}

/// The bookkeeping of logistics points after `d` of them have been used at
/// `target`, or nothing where the sum for `target` would leave the range of
/// an amount.
pub open spec fn noted_take(taken: Seq<(Pos, ResourceValue)>, target: Pos, d: int) -> Option<
    Seq<(Pos, ResourceValue)>,
> {
    let i = key_index(taken, target);
    if !(i32::MIN <= d <= i32::MAX) {
        None
    } else if i < taken.len() {
        if i32::MIN <= taken[i].1 + d <= i32::MAX {
            Some(taken.update(i, (target, (taken[i].1 + d) as i32)))
        } else {
            None
        }
    } else {
        Some(taken.push((target, d as i32)))
    }
}

fn sum_of(a: ResourceValue, b: ResourceValue) -> (sum: ResourceValue)
    requires
        i32::MIN <= a + b <= i32::MAX,
    ensures
        sum == a + b,
{
    a + b
}

/// Notes that `p` logistics points have been used at `target`.
pub fn update_take(a: Available, p: ResourceValue, target: Pos) -> (r: LogisticsState)
    requires
        noted_take(a.taken_lp@, target, p as int).is_some(),
    ensures
        r@ == LogisticsView::Available(
            AvailableView { taken_lp: noted_take(a.taken_lp@, target, p as int).unwrap(), ..a@ },
        ),
{
    let Available { locations, borrows, taken_lp } = a;
    let ghost before = taken_lp@;
    let ghost i = key_index(before, target);
    let taken_lp = insert_or_join(
        taken_lp,
        sum_of,
        target,
        p,
    );
    proof {
        if i < before.len() {
            assert(taken_lp[i].1 == before[i].1 + p);
        }
    }
    LogisticsState::Available(Available { locations, borrows, taken_lp })
}

/// Notes that `p` has been borrowed from `target`.
pub fn update_borrows(a: Available, p: ResourcePacket, target: Pos) -> (r: LogisticsState)
    requires
        noted_borrow(a.borrows@, target, p).is_some(),
    ensures
        r@ == LogisticsView::Available(
            AvailableView { borrows: noted_borrow(a.borrows@, target, p).unwrap(), ..a@ },
        ),
{
    let Available { locations, borrows, taken_lp } = a;
    let ghost before = borrows@;
    let ghost i = key_index(before, target);
    let borrows = insert_or_join(
        borrows,
        resource::add_packet_to_packet,
        target,
        p,
    );
    proof {
        if i < before.len() {
            resource::lemma_packet_from(borrows[i].1);
            assert(borrows[i].1@ == resource::as_values(resource::packet_sum(before[i].1@, p@)));
        }
    }
    LogisticsState::Available(Available { locations, borrows, taken_lp })
}

/// The list `sorted` with `e` put behind the last entry that is not farther
/// than `e`.
pub open spec fn placed(sorted: Seq<(i64, Pos)>, e: (i64, Pos)) -> Seq<(i64, Pos)>
    decreases sorted.len(),
{
    if sorted.len() == 0 {
        seq![e]
    } else if sorted.last().0 <= e.0 {
        sorted.push(e)
    } else {
        placed(sorted.drop_last(), e).push(sorted.last())
    }
}

/// The sources `locations`, each with its distance from `src`, the nearest
/// first; sources at the same distance keep their order.
pub open spec fn ranked(src: Pos, locations: Seq<Pos>) -> Seq<(i64, Pos)>
    decreases locations.len(),
{
    if locations.len() == 0 {
        Seq::empty()
    } else {
        placed(
            ranked(src, locations.drop_last()),
            (hex_distance(src, locations.last()) as i64, locations.last()),
        )
    }
}

proof fn lemma_placed(sorted: Seq<(i64, Pos)>, e: (i64, Pos), at: int)
    requires
        0 <= at <= sorted.len(),
        forall|j: int| at <= j < sorted.len() ==> (#[trigger] sorted[j]).0 > e.0,
        at > 0 ==> sorted[at - 1].0 <= e.0,
    ensures
        placed(sorted, e) == sorted.insert(at, e),
    decreases sorted.len(),
{
    if sorted.len() == 0 {
        assert(sorted.insert(at, e) =~= seq![e]);
    } else if at == sorted.len() {
        assert(sorted.insert(at, e) =~= sorted.push(e));
    } else {
        assert(sorted.last().0 > e.0);
        let shorter = sorted.drop_last();
        assert forall|j: int| at <= j < shorter.len() implies (#[trigger] shorter[j]).0 > e.0 by {
            assert(shorter[j] == sorted[j]);
        }
        if at > 0 {
            assert(shorter[at - 1] == sorted[at - 1]);
        }
        lemma_placed(shorter, e, at);
        assert(shorter.insert(at, e).push(sorted.last()) =~= sorted.insert(at, e));
    }
}

/// Ranks the sources by their distance from `src`.
fn rank_sources(src: Pos, locations: &Vec<Pos>) -> (r: Vec<(i64, Pos)>)
    ensures
        r@ == ranked(src, locations@),
{
    let mut out: Vec<(i64, Pos)> = Vec::new();
    let mut i: usize = 0;
    while i < locations.len()
        invariant
            i <= locations.len(),
            out@ == ranked(src, locations@.take(i as int)),
        decreases locations.len() - i,
    {
        let e = (hexgrid::wide_distance(src, locations[i]), locations[i]);
        let mut at: usize = out.len();
        while at > 0 && out[at - 1].0 > e.0
            invariant
                at <= out.len(),
                forall|j: int| at <= j < out.len() ==> (#[trigger] out[j]).0 > e.0,
            decreases at,
        {
            at = at - 1;
        }
        proof {
            lemma_placed(out@, e, at as int);
            assert(locations@.take(i + 1).drop_last() =~= locations@.take(i as int));
        }
        out.insert(at, e);
        i = i + 1;
    }
    proof {
        assert(locations@.take(i as int) =~= locations@);
    }
    out
}

/// The packet `p` with `d` logistics points taken off, or nothing where that
/// amount would leave the range of a packet.
pub open spec fn charged(p: ResourcePacket, d: int) -> Option<ResourcePacket> {
    if i32::MIN <= p[0] - d <= i32::MAX {
        Some(resource::packet_from(p@.update(0, (p[0] - d) as i32)))
    } else {
        None
    }
}

/// What the source at `target`, `d` steps away, makes of the request `p`: its
/// cell after the charged packet has been added and the bookkeeping of the
/// asking position after the charge has been noted. Nothing where the source
/// cannot serve: the charge does not fit a packet, the cell refuses the
/// packet, or the bookkeeping would leave its range.
pub open spec fn serve(
    cell: CellState,
    a: AvailableView,
    p: ResourcePacket,
    is_borrow: bool,
    d: int,
    target: Pos,
) -> Option<(CellState, AvailableView)> {
    match charged(p, d) {
        None => None,
        Some(due) => match resource::cell_after(due, cell) {
            None => None,
            Some(new) => if is_borrow {
                match noted_borrow(a.borrows, target, due) {
                    Some(b) => Some((new, AvailableView { borrows: b, ..a })),
                    None => None,
                }
            } else {
                match noted_take(a.taken_lp, target, d) {
                    Some(t) => Some((new, AvailableView { taken_lp: t, ..a })),
                    None => None,
                }
            },
        },
    }
}

/// What asking the sources `cands` one after the other makes of the board and
/// of the bookkeeping: the first source that can serve does, and the sources
/// asked before it have had their chunks generated.
pub open spec fn draw(
    board: GridView<CellState>,
    a: AvailableView,
    p: ResourcePacket,
    is_borrow: bool,
    cands: Seq<(i64, Pos)>,
) -> (GridView<CellState>, Option<AvailableView>)
    decreases cands.len(),
{
    if cands.len() == 0 {
        (board, None)
    } else {
        let d = cands[0].0 as int;
        let target = cands[0].1;
        if charged(p, d).is_none() {
            draw(board, a, p, is_borrow, cands.drop_first())
        } else {
            match serve(board.values[target], a, p, is_borrow, d, target) {
                Some((new, a2)) => (board.put(target, new), Some(a2)),
                None => draw(board.touched(target), a, p, is_borrow, cands.drop_first()),
            }
        }
    }
}

/// The packet that undoes `p`.
pub open spec fn negated(p: ResourcePacket) -> ResourcePacket {
    resource::packet_from(resource::as_values(resource::packet_neg(p@)))
}

/// What a request for `p` from `src` makes of the game, and what it reports.
///
/// `src` asks the sources it knows, the nearest first, and the first that can
/// serve does: its ledger takes the packet that undoes `p`, less one
/// logistics point for each step of the way, and `src` notes the charge. A
/// request that no source can serve changes no ledger. A request with an
/// amount that cannot be undone in the range of a packet, or from a position
/// that is not within reach of a network, is an error.
pub open spec fn requested(g: GameView, src: Pos, p: ResourcePacket, is_borrow: bool) -> (
    GameView,
    Result<bool, InternalError>,
) {
    if !resource::fits_packet(resource::packet_neg(p@)) {
        (g, Err(InternalError::Overflow))
    } else {
        match g.net[src] {
            LogisticsView::Available(a) => {
                let (board, note) = draw(g.board, a, negated(p), is_borrow, ranked(src, a.locations));
                match note {
                    Some(a2) => (
                        GameView {
                            board,
                            net: g.net.insert(src, LogisticsView::Available(a2)),
                            ..g
                        },
                        Ok(true),
                    ),
                    None => (GameView { board, ..g }, Ok(false)),
                }
            },
            _ => (g, Err(InternalError::NotAvailable)),
        }
    }
}

pub(crate) fn can_negate(p: &ResourcePacket) -> (r: bool)
    ensures
        r == resource::fits_packet(resource::packet_neg(p@)),
{
    let mut i: usize = 0;
    while i < 4
        invariant
            i <= 4,
            forall|j: int| 0 <= j < i ==> i32::MIN <= #[trigger] resource::packet_neg(p@)[j] <= i32::MAX,
        decreases 4 - i,
    {
        if p[i] == i32::MIN {
            assert(resource::packet_neg(p@)[i as int] > i32::MAX);
            return false;
        }
        i = i + 1;
    }
    true
}

fn can_sum(a: &ResourcePacket, b: &ResourcePacket) -> (r: bool)
    ensures
        r == resource::fits_packet(resource::packet_sum(a@, b@)),
{
    let mut i: usize = 0;
    while i < 4
        invariant
            i <= 4,
            forall|j: int|
                0 <= j < i ==> i32::MIN <= #[trigger] resource::packet_sum(a@, b@)[j] <= i32::MAX,
        decreases 4 - i,
    {
        let sum: i64 = a[i] as i64 + b[i] as i64;
        if sum < -0x8000_0000 || sum > 0x7fff_ffff {
            assert(!(i32::MIN <= resource::packet_sum(a@, b@)[i as int] <= i32::MAX));
            return false;
        }
        i = i + 1;
    }
    true
}

/// The state of the network at `src`, where `src` is within reach of a source.
pub(crate) fn get_available<C>(src: Pos, g: &mut GameState<C>) -> (r: Option<Available>) where
    CellState: CellGen<C>,

    ensures
        final(g)@ == old(g)@,
        match r {
            Some(a) => old(g)@.net[src] == LogisticsView::Available(a@),
            None => !(old(g)@.net[src] is Available),
        },

{
    match plane_get(src, &mut g.logistics_plane) {
        LogisticsState::Available(a) => Some(a),
        _ => None,
    }
}

/// Asks the sources that `src` knows for `p`; see [`requested`].
fn try_resources<C>(src: Pos, p: ResourcePacket, is_borrow: bool, g: &mut GameState<C>) -> (r:
    Result<bool, InternalError>) where CellState: CellGen<C>
    ensures
        final(g)@ == requested(old(g)@, src, p, is_borrow).0,
        r == requested(old(g)@, src, p, is_borrow).1,
{
    if !can_negate(&p) {
        return Err(InternalError::Overflow);
    }
    let undo = resource::neg_packet(p);
    proof {
        resource::lemma_packet_from(undo);
        assert(undo == negated(p));
    }
    let a = match get_available(src, g) {
        Some(a) => a,
        None => {
            return Err(InternalError::NotAvailable);
        },
    };
    let vec = rank_sources(src, &a.locations);
    let ghost start = g@;
    let mut i: usize = 0;
    proof {
        assert(vec@.skip(0) =~= vec@);
    }
    while i < vec.len()
        invariant
            i <= vec.len(),
            start == old(g)@,
            undo == negated(p),
            resource::fits_packet(resource::packet_neg(p@)),
            start.net[src] == LogisticsView::Available(a@),
            vec@ == ranked(src, a@.locations),
            g@.net == start.net,
            g@.buckets == start.buckets,
            g@.resources == start.resources,
            draw(start.board, a@, undo, is_borrow, vec@) == draw(
                g@.board,
                a@,
                undo,
                is_borrow,
                vec@.skip(i as int),
            ),
        decreases vec.len() - i,
    {
        let (distance, target) = vec[i];
        let ghost rest = vec@.skip(i as int);
        let ghost here = g@.board;
        let ghost av = a@;
        proof {
            assert(rest[0] == vec[i as int]);
            assert(rest.drop_first() =~= vec@.skip(i + 1));
        }
        let lp: i64 = match (undo[0] as i64).checked_sub(distance) {
            Some(lp) => lp,
            None => i64::MIN,
        };
        if -0x8000_0000 <= lp && lp <= 0x7fff_ffff {
            let mut due = undo;
            due[0] = lp as i32;
            proof {
                resource::lemma_packet_from(due);
                assert(due@ =~= undo@.update(0, lp as i32));
            }
            let target_cell = hexgrid::get(target, &mut g.matrix);
            if let Some(new) = resource::add_packet(due, target_cell) {
                let noted: Option<LogisticsState> = if is_borrow {
                    let at = find_key(&a.borrows, target);
                    if at >= a.borrows.len() || can_sum(&a.borrows[at].1, &due) {
                        Some(update_borrows(a.clone(), due, target))
                    } else {
                        None
                    }
                } else {
                    let at = find_key(&a.taken_lp, target);
                    let fits = if -0x8000_0000 <= distance && distance <= 0x7fff_ffff {
                        if at < a.taken_lp.len() {
                            let sum: i64 = a.taken_lp[at].1 as i64 + distance;
                            -0x8000_0000 <= sum && sum <= 0x7fff_ffff
                        } else {
                            true
                        }
                    } else {
                        false
                    };
                    if fits {
                        Some(update_take(a.clone(), distance as i32, target))
                    } else {
                        None
                    }
                };
                proof {
                    let served = serve(here.values[target], av, undo, is_borrow, distance as int, target);
                    assert(noted.is_some() == served.is_some());
                    if noted.is_some() {
                        assert(noted.unwrap()@ == LogisticsView::Available(served.unwrap().1));
                        assert(served.unwrap().0 == new);
                    }
                }
                if let Some(lp1) = noted {
                    hexgrid::set(target, new, &mut g.matrix);
                    plane_set(src, lp1, &mut g.logistics_plane);
                    proof {
                        assert(g@.board.realized =~= here.put(target, new).realized);
                        assert(g@.board == here.put(target, new));
                        assert(g@ == requested(start, src, p, is_borrow).0);
                    }
                    return Ok(true);
                }
            }
        }
        i = i + 1;
    }
    proof {
        assert(vec@.skip(i as int) =~= Seq::<(i64, Pos)>::empty());
    }
    Ok(false)
}

/// Takes `p` from the nearest source that `src` knows and that can serve,
/// for good: only the logistics points of the way are noted, to be given
/// back by [`return_lp`]. See [`requested`].
pub fn try_take_resources<C>(src: Pos, p: ResourcePacket, g: &mut GameState<C>) -> (r: Result<
    bool,
    InternalError,
>) where CellState: CellGen<C>
    ensures
        final(g)@ == requested(old(g)@, src, p, false).0,
        r == requested(old(g)@, src, p, false).1,
{
    try_resources(src, p, false, g)
}

/// Borrows `p` from the nearest source that `src` knows and that can serve:
/// all that the source gives is noted, to be given back by
/// [`return_borrows`]. See [`requested`].
pub fn try_borrow_resources<C>(src: Pos, p: ResourcePacket, g: &mut GameState<C>) -> (r: Result<
    bool,
    InternalError,
>) where CellState: CellGen<C>
    ensures
        final(g)@ == requested(old(g)@, src, p, true).0,
        r == requested(old(g)@, src, p, true).1,
{
    try_resources(src, p, true, g)
}

/// The sources that a position in the state `v` of the network can draw
/// from: those it knows, or itself where it is a source.
pub open spec fn known_sources(pos: Pos, v: LogisticsView) -> Seq<Pos> {
    match v {
        LogisticsView::Unreached => Seq::empty(),
        LogisticsView::Available(a) => a.locations,
        LogisticsView::Source => seq![pos],
    }
}

/// Whether the cell `c` at `target` can send a worker to `user`: it carries a
/// plain ledger with a builder and with a logistics point for each step of
/// the way.
pub open spec fn usable(user: Pos, target: Pos, c: CellState) -> bool {
    match c.data {
        CellStateData::Resource(Resource::Pure(s)) => hex_distance(user, target) <= i32::MAX
            && resource::covers(seq![hex_distance(user, target) as i32, 0i32, 1i32, 0i32], s@),
        _ => false,
    }
}

/// Whether the cell `c` at `target` can send a worker to `user`.
pub fn can_use(user: Pos, target: Pos, c: CellState) -> (r: bool)
    ensures
        r == usable(user, target, c),
{
    match c.data {
        CellStateData::Resource(Resource::Pure(resources)) => {
            let d = hexgrid::wide_distance(user, target);
            if d > 0x7fff_ffff {
                false
            } else {
                let needed = resource::new_packet(1, d as i32);
                resource::has_resources(needed, resources)
            }
        },
        _ => false,
    }
}

/// The sources that `pos` can draw from, as the plane reports them without
/// generating anything.
fn connected_sources<C>(pos: Pos, g: &GameState<C>) -> (r: Vec<Pos>) where CellState: CellGen<C>
    ensures
        r@ == known_sources(pos, g.logistics_plane@.peek(pos)@),
{
    match hexgrid::unsafe_get(pos, &g.logistics_plane) {
        LogisticsState::Unreached => Vec::new(),
        LogisticsState::Available(a) => a.locations,
        LogisticsState::Source => {
            let mut only: Vec<Pos> = Vec::new();
            only.push(pos);
            only
        },
    }
}

/// Whether one of the sources `sources` can send a worker to `pos`, going by
/// what the board reports of them without generating anything.
pub open spec fn worker_among(pos: Pos, sources: Seq<Pos>, board: GridView<CellState>) -> bool {
    exists|i: int| 0 <= i < sources.len() && usable(pos, #[trigger] sources[i], board.peek(sources[i]))
}

/// Whether a source that `pos` can draw from can send a worker to it.
pub fn has_worker<C>(pos: Pos, g: &GameState<C>) -> (r: bool) where CellState: CellGen<C>
    ensures
        r == worker_among(pos, known_sources(pos, g.logistics_plane@.peek(pos)@), g.matrix@),
{
    let sources = connected_sources(pos, g);
    let mut i: usize = 0;
    while i < sources.len()
        invariant
            i <= sources.len(),
            sources@ == known_sources(pos, g.logistics_plane@.peek(pos)@),
            forall|j: int|
                0 <= j < i ==> !usable(pos, #[trigger] sources[j], g.matrix@.peek(sources[j])),
        decreases sources.len() - i,
    {
        let c = hexgrid::unsafe_get(sources[i], &g.matrix);
        if can_use(pos, sources[i], c) {
            return true;
        }
        i = i + 1;
    }
    false
}

} // verus!
