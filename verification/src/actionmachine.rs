//! The scheduler: the cells that act each turn, and what a turn does to them.

use vstd::prelude::*;
use crate::building::{self, build_progressed, finalized};
use crate::celldata::{self, is_hot, CellState, CellStateData, CellStateVariant, Slot};
use crate::hexgrid::{self, linked, CellGen, GridView, Pos};
use crate::logistics_plane::{self, requested, returned_lp};
use crate::resource::{self, Resource, ResourceStockpile, ResourceType};
use crate::{GameState, GameView, InternalError};

verus! {

/// The number of categories: one for each kind of structure.
pub const ACTION_MAX_PRIO: usize = 16;

/// The place of a category in the order in which a turn runs them.
pub type Prio = usize;

/// The positions that act each turn, one list for each category. A turn runs
/// the categories in their order and each list from its start.
pub struct ActionMachine {
    buckets: Vec<Vec<Pos>>,
}

impl View for ActionMachine {
    type V = Seq<Seq<Pos>>;

    closed spec fn view(&self) -> Seq<Seq<Pos>> {
        self.buckets@.map_values(|b: Vec<Pos>| b@)
    }
}

impl ActionMachine {
    /// The lists as they stand, for a turn to run through while the scheduler
    /// itself changes.
    pub fn snapshot(&self) -> (r: Vec<Vec<Pos>>)
        ensures
            r@.map_values(|b: Vec<Pos>| b@) == self@,
    {
        let mut out: Vec<Vec<Pos>> = Vec::new();
        let mut i: usize = 0;
        while i < self.buckets.len()
            invariant
                i <= self.buckets.len(),
                out.len() == i,
                forall|j: int| 0 <= j < i ==> (#[trigger] out[j])@ == self.buckets[j]@,
            decreases self.buckets.len() - i,
        {
            let mut b: Vec<Pos> = Vec::new();
            let mut k: usize = 0;
            while k < self.buckets[i].len()
                invariant
                    i < self.buckets.len(),
                    k <= self.buckets[i as int].len(),
                    b@ == self.buckets[i as int]@.take(k as int),
                decreases self.buckets[i as int].len() - k,
            {
                b.push(self.buckets[i][k]);
                assert(self.buckets[i as int]@.take(k + 1) =~= self.buckets[i as int]@.take(
                    k as int,
                ).push(self.buckets[i as int]@[k as int]));
                k = k + 1;
            }
            assert(self.buckets[i as int]@.take(k as int) =~= self.buckets[i as int]@);
            out.push(b);
            i = i + 1;
        }
        assert(out@.map_values(|b: Vec<Pos>| b@) =~= self@);
        out
    }
}

/// The category of a kind of structure that acts each turn.
pub open spec fn category(cv: CellStateVariant) -> Option<int> {
    match cv {
        CellStateVariant::Hot => Some(2int),
        CellStateVariant::Feeder => Some(4int),
        CellStateVariant::WoodCutter => Some(5int),
        CellStateVariant::Seller => Some(6int),
        CellStateVariant::Building => Some(8int),
        _ => None,
    }
}

/// The category of a kind of structure, where structures of that kind act
/// each turn. Cells of one kind act one after the other, so that the order
/// in which they were entered matters as little as can be.
pub fn prio(cv: CellStateVariant) -> (r: Option<Prio>)
    ensures
        match r {
            Some(p) => category(cv) == Some(p as int) && p < ACTION_MAX_PRIO,
            None => category(cv).is_none(),
        },
{
    match cv {
        CellStateVariant::Hot => Some(2),
        CellStateVariant::Feeder => Some(4),
        CellStateVariant::WoodCutter => Some(5),
        CellStateVariant::Seller => Some(6),
        CellStateVariant::Building => Some(8),
        _ => None,
    }
}

/// A scheduler in which nothing is entered.
pub fn new() -> (m: ActionMachine)
    ensures
        m@ == Seq::new(ACTION_MAX_PRIO as nat, |i: int| Seq::<Pos>::empty()),
{
    let mut buckets: Vec<Vec<Pos>> = Vec::new();
    let mut i: usize = 0;
    while i < ACTION_MAX_PRIO
        invariant
            i <= ACTION_MAX_PRIO,
            buckets.len() == i,
            forall|j: int| 0 <= j < i ==> (#[trigger] buckets[j])@ == Seq::<Pos>::empty(),
        decreases ACTION_MAX_PRIO - i,
    {
        buckets.push(Vec::new());
        i = i + 1;
    }
    let m = ActionMachine { buckets };
    assert(m@ =~= Seq::new(ACTION_MAX_PRIO as nat, |i: int| Seq::<Pos>::empty()));
    m
}

/// The list `s` without `pos`.
pub open spec fn without(s: Seq<Pos>, pos: Pos) -> Seq<Pos>
    decreases s.len(),
{
    if s.len() == 0 {
        s
    } else if s.last() == pos {
        without(s.drop_last(), pos)
    } else {
        without(s.drop_last(), pos).push(s.last())
    }
}

/// The lists after `pos` has been entered under the kind `cv`: at the end of
/// the list of its category, unless it is there already.
pub open spec fn entered(m: Seq<Seq<Pos>>, pos: Pos, cv: CellStateVariant) -> Seq<Seq<Pos>> {
    match category(cv) {
        Some(p) => if p < m.len() && !m[p].contains(pos) {
            m.update(p, m[p].push(pos))
        } else {
            m
        },
        None => m,
    }
}

/// The lists after `pos` has been struck from the category of the kind `cv`.
pub open spec fn struck(m: Seq<Seq<Pos>>, pos: Pos, cv: CellStateVariant) -> Seq<Seq<Pos>> {
    match category(cv) {
        Some(p) => if p < m.len() {
            m.update(p, without(m[p], pos))
        } else {
            m
        },
        None => m,
    }
}

fn holds(b: &Vec<Pos>, pos: Pos) -> (r: bool)
    ensures
        r == b@.contains(pos),
{
    let mut i: usize = 0;
    while i < b.len()
        invariant
            i <= b.len(),
            forall|j: int| 0 <= j < i ==> b[j] != pos,
        decreases b.len() - i,
    {
        if b[i].x == pos.x && b[i].y == pos.y {
            return true;
        }
        i = i + 1;
    }
    false
}

fn dropped(b: &Vec<Pos>, pos: Pos) -> (r: Vec<Pos>)
    ensures
        r@ == without(b@, pos),
{
    let mut out: Vec<Pos> = Vec::new();
    let mut i: usize = 0;
    while i < b.len()
        invariant
            i <= b.len(),
            out@ == without(b@.take(i as int), pos),
        decreases b.len() - i,
    {
        proof {
            assert(b@.take(i + 1).drop_last() =~= b@.take(i as int));
        }
        if !(b[i].x == pos.x && b[i].y == pos.y) {
            out.push(b[i]);
        }
        i = i + 1;
    }
    proof {
        assert(b@.take(i as int) =~= b@);
    }
    out
}

/// Enters `pos` under the kind `cv`, where structures of that kind act each
/// turn.
pub fn maybe_insert(m: &mut ActionMachine, pos: Pos, cv: CellStateVariant)
    ensures
        final(m)@ == entered(old(m)@, pos, cv),
{
    if let Some(p) = prio(cv) {
        if p < m.buckets.len() {
            let present = holds(&m.buckets[p], pos);
            if !present {
                let ghost before = m@;
                m.buckets[p].push(pos);
                assert(m@ =~= before.update(p as int, before[p as int].push(pos)));
            }
        }
    }
}

/// Strikes `pos` from the category of the kind `cv`.
pub fn remove(m: &mut ActionMachine, pos: Pos, cv: CellStateVariant)
    ensures
        final(m)@ == struck(old(m)@, pos, cv),
{
    if let Some(p) = prio(cv) {
        if p < m.buckets.len() {
            let ghost before = m@;
            let kept = dropped(&m.buckets[p], pos);
            m.buckets[p] = kept;
            assert(m@ =~= before.update(p as int, without(before[p as int], pos)));
        }
    }
}

/// The number of turns that a countdown has left.
pub type InProgressWait = u32;

/// A countdown, alone or with what is to happen when it ends.
#[derive(Debug, Clone, Copy, PartialEq, Eq, Hash)]
pub enum InProgress {
    Pure(InProgressWait),
    WithOther(InProgressWait, Other),
}

/// What a countdown leads to: a kind of structure, alone or with the
/// resources that the finished structure keeps.
#[derive(Debug, Clone, Copy, PartialEq, Eq, Hash)]
pub enum Other {
    CellStateVariant(CellStateVariant),
    CvAndRS(CellStateVariant, ResourceStockpile),
}

/// A cell of kind `cv` that counts down from `wait`.
pub fn new_in_progress(cv: CellStateVariant, wait: InProgressWait) -> (c: CellState)
    ensures
        c == (CellState { variant: cv, data: CellStateData::InProgress(InProgress::Pure(wait)) }),
{
    CellState { variant: cv, data: CellStateData::InProgress(InProgress::Pure(wait)) }
}

/// A cell of kind `cv` that counts down from `wait` and then becomes a `cv2`.
pub fn new_in_progress_with_variant(
    cv: CellStateVariant,
    wait: InProgressWait,
    cv2: CellStateVariant,
) -> (c: CellState)
    ensures
        c == (CellState {
            variant: cv,
            data: CellStateData::InProgress(
                InProgress::WithOther(wait, Other::CellStateVariant(cv2)),
            ),
        }),
{
    new_in_progress_with_other(cv, wait, Other::CellStateVariant(cv2))
}

/// A cell of kind `cv` that counts down from `wait` and then becomes a `cv2`
/// that keeps the resources `res`.
pub fn new_in_progress_with_variant_and_resource(
    cv: CellStateVariant,
    wait: InProgressWait,
    cv2: CellStateVariant,
    res: ResourceStockpile,
) -> (c: CellState)
    ensures
        c == (CellState {
            variant: cv,
            data: CellStateData::InProgress(InProgress::WithOther(wait, Other::CvAndRS(cv2, res))),
        }),
{
    new_in_progress_with_other(cv, wait, Other::CvAndRS(cv2, res))
}

/// A cell of kind `cv` that counts down from `wait` towards `oth`.
pub fn new_in_progress_with_other(cv: CellStateVariant, wait: InProgressWait, oth: Other) -> (c:
    CellState)
    ensures
        c == (CellState {
            variant: cv,
            data: CellStateData::InProgress(InProgress::WithOther(wait, oth)),
        }),
{
    CellState { variant: cv, data: CellStateData::InProgress(InProgress::WithOther(wait, oth)) }
}


/// The countdown from which a structure of kind `cv` starts a cycle.
pub open spec fn cycle_of(cv: CellStateVariant) -> InProgressWait {
    match cv {
        CellStateVariant::WoodCutter => 3,
        CellStateVariant::Hot => 5,
        _ => 4,
    }
}

/// The countdown from which a structure of kind `cv` starts a cycle: a wood
/// cutter, a heat producer or a building site.
pub fn in_progress_max(cv: CellStateVariant) -> (r: InProgressWait)
    requires
        cv is WoodCutter || cv is Hot || cv is Building,
    ensures
        r == cycle_of(cv),
{
    match cv {
        CellStateVariant::WoodCutter => 3,
        CellStateVariant::Hot => 5,
        _ => building::max_buildtime(),
    }
}

/// The entries of the packet by which a wood cutter delivers its wood.
pub open spec fn wood_delivery() -> Seq<i32> {
    seq![0i32, -10i32, 0i32, 0i32]
}

/// The cell of a heat producer with the slot in the state `slot`.
pub open spec fn hot_cell(slot: Slot) -> CellState {
    CellState { variant: CellStateVariant::Hot, data: CellStateData::Slot { slot } }
}

/// The cell of a structure of kind `cv` that counts down from `wait`.
pub open spec fn counting(cv: CellStateVariant, wait: InProgressWait) -> CellState {
    CellState { variant: cv, data: CellStateData::InProgress(InProgress::Pure(wait)) }
}

/// What the end of a plain countdown at `p` makes of the game `g0`: the game
/// `g1` and the report `r`.
///
/// A wood cutter gets back the logistics points of its last delivery and
/// delivers ten wood to the nearest source that can take it; if one does, the
/// wood cutter starts its next cycle, else it tries again next turn. A heat
/// producer is done. Any other kind is an error.
pub open spec fn pure_done(
    g0: GameView,
    p: Pos,
    cv: CellStateVariant,
    g1: GameView,
    r: Result<(), InternalError>,
) -> bool {
    match cv {
        CellStateVariant::WoodCutter => {
            let (ga, ra) = returned_lp(g0, p);
            if ra.is_err() {
                g1 == ga && r == ra
            } else {
                let (gb, rb) = requested(ga, p, resource::packet_from(wood_delivery()), false);
                match rb {
                    Ok(true) => g1 == (GameView { board: gb.board.put(p, counting(cv, 3)), ..gb })
                        && r.is_ok(),
                    Ok(false) => g1 == gb && r.is_ok(),
                    Err(e) => g1 == gb && r == Err::<(), InternalError>(e),
                }
            }
        },
        CellStateVariant::Hot => g1 == (GameView {
            board: g0.board.put(p, hot_cell(Slot::Done)),
            ..g0
        }) && r.is_ok(),
        _ => g1 == g0 && r == Err::<(), InternalError>(InternalError::UnexpectedCell),
    }
}

/// Ends a plain countdown at `p`; see [`pure_done`].
pub fn do_pure_progress_done<C>(p: Pos, cv: CellStateVariant, g: &mut GameState<C>) -> (r: Result<
    (),
    InternalError,
>) where CellState: CellGen<C>
    ensures
        pure_done(old(g)@, p, cv, final(g)@, r),
{
    match cv {
        CellStateVariant::WoodCutter => {
            match logistics_plane::return_lp(p, g) {
                Err(e) => {
                    return Err(e);
                },
                Ok(()) => {},
            }
            let mut map: resource::PacketMap = Vec::new();
            map.push((ResourceType::Wood, -10));
            let packet = resource::from_key_value(map);
            proof {
                reveal_with_fuel(resource::packet_of_map, 2);
                assert(packet@ =~= wood_delivery());
                resource::lemma_packet_from(packet);
            }
            match logistics_plane::try_take_resources(p, packet, g) {
                Ok(true) => {
                    let new_cell = new_in_progress(cv, in_progress_max(cv));
                    hexgrid::set(p, new_cell, &mut g.matrix);
                    Ok(())
                },
                Ok(false) => Ok(()),
                Err(e) => Err(e),
            }
        },
        CellStateVariant::Hot => {
            let new_cell = CellState {
                variant: cv,
                data: CellStateData::Slot { slot: Slot::Done },
            };
            hexgrid::set(p, new_cell, &mut g.matrix);
            Ok(())
        },
        _ => Err(InternalError::UnexpectedCell),
    }
}

/// What the end of a countdown towards `oth` at `p` makes of the game `g0`:
/// a building site is finished, any other kind is an error.
pub open spec fn other_done(
    g0: GameView,
    p: Pos,
    cv: CellStateVariant,
    oth: Other,
    g1: GameView,
    r: Result<(), InternalError>,
) -> bool {
    match cv {
        CellStateVariant::Building => finalized(g0, oth, p, g1, r),
        _ => g1 == g0 && r == Err::<(), InternalError>(InternalError::UnexpectedCell),
    }
}

/// Ends a countdown towards `oth` at `p`; see [`other_done`].
pub fn do_progress_done_other<C>(p: Pos, cv: CellStateVariant, oth: Other, g: &mut GameState<C>) -> (r:
    Result<(), InternalError>) where CellState: CellGen<C>
    ensures
        other_done(old(g)@, p, cv, oth, final(g)@, r),
{
    match cv {
        CellStateVariant::Building => building::finalize_build(oth, p, g),
        _ => Err(InternalError::UnexpectedCell),
    }
}

/// What a turn makes of the countdown `ip` of the structure of kind `cv` at
/// `p`: a countdown at one ends, a longer one loses a turn and nothing else
/// happens, and a countdown at nought is an error.
pub open spec fn progressed(
    g0: GameView,
    p: Pos,
    cv: CellStateVariant,
    ip: InProgress,
    g1: GameView,
    r: Result<(), InternalError>,
) -> bool {
    match ip {
        InProgress::Pure(x) => if x == 1 {
            pure_done(g0, p, cv, g1, r)
        } else if x == 0 {
            g1 == g0 && r == Err::<(), InternalError>(InternalError::UnexpectedCell)
        } else {
            g1 == (GameView { board: g0.board.put(p, counting(cv, (x - 1) as u32)), ..g0 })
                && r.is_ok()
        },
        InProgress::WithOther(x, oth) => if x == 1 {
            other_done(g0, p, cv, oth, g1, r)
        } else if x == 0 {
            g1 == g0 && r == Err::<(), InternalError>(InternalError::UnexpectedCell)
        } else {
            g1 == (GameView {
                board: g0.board.put(
                    p,
                    CellState {
                        variant: cv,
                        data: CellStateData::InProgress(
                            InProgress::WithOther((x - 1) as u32, oth),
                        ),
                    },
                ),
                ..g0
            }) && r.is_ok()
        },
    }
}

/// Lets a turn pass on the countdown `ip` at `p`; see [`progressed`].
pub fn do_in_progress<C>(p: Pos, cv: CellStateVariant, ip: InProgress, g: &mut GameState<C>) -> (r:
    Result<(), InternalError>) where CellState: CellGen<C>
    ensures
        progressed(old(g)@, p, cv, ip, final(g)@, r),
{
    match ip {
        InProgress::Pure(x) => {
            if x == 1 {
                do_pure_progress_done(p, cv, g)
            } else if x == 0 {
                Err(InternalError::UnexpectedCell)
            } else {
                hexgrid::set(p, new_in_progress(cv, x - 1), &mut g.matrix);
                Ok(())
            }
        },
        InProgress::WithOther(x, cv2) => {
            if x == 1 {
                do_progress_done_other(p, cv, cv2, g)
            } else if x == 0 {
                Err(InternalError::UnexpectedCell)
            } else {
                hexgrid::set(p, new_in_progress_with_other(cv, x - 1, cv2), &mut g.matrix);
                Ok(())
            }
        },
    }
}

/// `hp` holds a heat producer with the slot in the state `slot` that can be
/// reached from `p` over heat producers.
pub open spec fn wakes(values: Map<Pos, CellState>, p: Pos, slot: Slot, hp: Pos) -> bool {
    linked(values, is_hot, p, hp) && values[hp] == hot_cell(slot)
}

/// What a feeder or a seller at `p` makes of the game `g0`. If a heat producer
/// with the slot in the state `slot` can be reached from `p` over heat
/// producers, one such producer gets the cell `new_cell` and `credit` loads
/// are counted as sold; else no cell and no counter changes. The search
/// generates chunks; the structure at `p` stays as it is.
pub open spec fn woken(
    g0: GameView,
    p: Pos,
    slot: Slot,
    new_cell: CellState,
    credit: int,
    g1: GameView,
) -> bool {
    &&& g1.net == g0.net
    &&& g1.buckets == g0.buckets
    &&& if exists|hp: Pos| wakes(g0.board.values, p, slot, hp) {
        &&& exists|hp: Pos, mid: GridView<CellState>| #[trigger]
            wakes(g0.board.values, p, slot, hp) && #[trigger] g0.board.grown_to(mid) && g1.board
                == mid.put(hp, new_cell)
        &&& g1.resources == (crate::GameResources {
            sold: (g0.resources.sold + credit) as i32,
            ..g0.resources
        })
    } else {
        &&& g0.board.grown_to(g1.board)
        &&& g1.resources == g0.resources
    }
}

fn wake<C>(p: Pos, slot: Slot, new_cell: CellState, credit: i32, g: &mut GameState<C>) where
    CellState: CellGen<C>,

    requires
        0 <= credit <= 1,
        old(g).resources.sold + credit <= i32::MAX,
    ensures
        woken(old(g)@, p, slot, new_cell, credit as int, final(g)@),
{
    let ghost values = g@.board.values;
    let con = hexgrid::get_connected(p, is_hot, &mut g.matrix);
    let ghost mid = g@.board;
    proof {
        assert(old(g)@.board.grown_to(mid));
    }
    let mut i: usize = 0;
    while i < con.len()
        invariant
            i <= con.len(),
            g@.board == mid,
            g@.net == old(g)@.net,
            g@.buckets == old(g)@.buckets,
            g@.resources == old(g)@.resources,
            0 <= credit <= 1,
            old(g).resources.sold + credit <= i32::MAX,
            values == old(g)@.board.values,
            old(g)@.board.grown_to(mid),
            forall|j: int|
                0 <= j < con.len() ==> (#[trigger] con[j]).1 == values[con[j].0] && linked(
                    values,
                    is_hot,
                    p,
                    con[j].0,
                ),
            forall|j: int| 0 <= j < i ==> (#[trigger] con[j]).1 != hot_cell(slot),
            forall|q: Pos|
                hexgrid::adjacent(p, q) && hexgrid::accepts(is_hot, values[q])
                    ==> #[trigger] hexgrid::listed(con@, q),
            forall|j: int, q: Pos|
                0 <= j < con.len() && hexgrid::adjacent((#[trigger] con[j]).0, q)
                    && hexgrid::accepts(is_hot, values[q]) ==> #[trigger] hexgrid::listed(con@, q),
        decreases con.len() - i,
    {
        let hit = match con[i].1 {
            CellState { variant: CellStateVariant::Hot, data: CellStateData::Slot { slot: s } } => s
                == slot,
            _ => false,
        };
        if hit {
            let hp = con[i].0;
            hexgrid::set(hp, new_cell, &mut g.matrix);
            g.resources.sold = g.resources.sold + credit;
            proof {
                assert(wakes(values, p, slot, hp));
            }
            return ;
        }
        i = i + 1;
    }
    proof {
        assert forall|hp: Pos| !wakes(values, p, slot, hp) by {
            if wakes(values, p, slot, hp) {
                let path = choose|path: Seq<Pos>| #[trigger]
                    hexgrid::chain(values, is_hot, p, path) && path.last() == hp;
                hexgrid::lemma_closed_set_holds_reachable(values, is_hot, p, con@, path);
                let j = choose|j: int| 0 <= j < con.len() && (#[trigger] con[j]).0 == hp;
                assert(con[j].1 == hot_cell(slot));
            }
        }
    }
}

/// What a turn makes of the cell `c` at `p` in the game `g0`: the game `g1`
/// and the report `r`.
///
/// A countdown goes on, whatever the kind of structure. A feeder starts a
/// heat producer within its reach whose slot is empty; a seller empties one
/// whose slot is done and counts one load as sold, and fails where the count
/// has no room for one more. A heat producer at rest does nothing. A
/// building site with a ledger works on. Every other cell is an error, and
/// the game stays as it is.
pub open spec fn ticked(
    g0: GameView,
    p: Pos,
    c: CellState,
    g1: GameView,
    r: Result<(), InternalError>,
) -> bool {
    match c.data {
        CellStateData::InProgress(ip) => progressed(g0, p, c.variant, ip, g1, r),
        _ => match c.variant {
            CellStateVariant::Feeder => woken(
                g0,
                p,
                Slot::Empty,
                counting(CellStateVariant::Hot, 5),
                0,
                g1,
            ) && r.is_ok(),
            CellStateVariant::Seller => if g0.resources.sold == i32::MAX {
                g1 == g0 && r == Err::<(), InternalError>(InternalError::Overflow)
            } else {
                woken(g0, p, Slot::Done, hot_cell(Slot::Empty), 1, g1) && r.is_ok()
            },
            CellStateVariant::Hot => g1 == g0 && r.is_ok(),
            CellStateVariant::Building => match c.data {
                CellStateData::Resource(Resource::WithVariant(res, goal)) => build_progressed(
                    g0,
                    c,
                    p,
                    res,
                    goal,
                    g1,
                    r,
                ),
                _ => g1 == g0 && r == Err::<(), InternalError>(InternalError::UnexpectedCell),
            },
            _ => g1 == g0 && r == Err::<(), InternalError>(InternalError::UnexpectedCell),
        },
    }
}

/// Lets a turn pass on the cell `c` at `p`; see [`ticked`].
pub fn do_tick<C>(p: Pos, c: CellState, g: &mut GameState<C>) -> (r: Result<
    (),
    InternalError,
>) where CellState: CellGen<C>
    ensures
        ticked(old(g)@, p, c, final(g)@, r),
{
    match c {
        CellState { variant, data: CellStateData::InProgress(in_progress) } => do_in_progress(
            p,
            variant,
            in_progress,
            g,
        ),
        CellState { variant: CellStateVariant::Feeder, .. } => {
            let cv = CellStateVariant::Hot;
            let new_cell = new_in_progress(cv, in_progress_max(cv));
            wake(p, Slot::Empty, new_cell, 0, g);
            Ok(())
        },
        CellState { variant: CellStateVariant::Seller, .. } => {
            if g.resources.sold == i32::MAX {
                return Err(InternalError::Overflow);
            }
            let new_cell = CellState {
                variant: CellStateVariant::Hot,
                data: CellStateData::Slot { slot: Slot::Empty },
            };
            wake(p, Slot::Done, new_cell, 1, g);
            Ok(())
        },
        CellState { variant: CellStateVariant::Hot, .. } => Ok(()),
        CellState {
            variant: CellStateVariant::Building,
            data: CellStateData::Resource(Resource::WithVariant(resources, goal_cv)),
        } => building::do_build_progress(c, p, resources, goal_cv, g),
        _ => Err(InternalError::UnexpectedCell),
    }
}

/// What a turn makes of the cell at `p`, read where it stands.
pub open spec fn ticked_at(g0: GameView, p: Pos, g1: GameView, r: Result<(), InternalError>) -> bool {
    ticked(GameView { board: g0.board.touched(p), ..g0 }, p, g0.board.values[p], g1, r)
}

/// The failures `had` with that of the step at `p`, if it failed.
pub open spec fn noted(
    had: Seq<(Pos, InternalError)>,
    p: Pos,
    r: Result<(), InternalError>,
) -> Seq<(Pos, InternalError)> {
    match r {
        Ok(_) => had,
        Err(e) => had.push((p, e)),
    }
}

/// The cells at `cells` have acted one after the other, each on the game as
/// the one before left it, which has made `g1` of `g0` and added to the
/// failures `f0` those of the cells whose step failed, which gives `f1`.
pub open spec fn ran_cells(
    g0: GameView,
    f0: Seq<(Pos, InternalError)>,
    cells: Seq<Pos>,
    g1: GameView,
    f1: Seq<(Pos, InternalError)>,
) -> bool
    decreases cells.len(),
{
    if cells.len() == 0 {
        g1 == g0 && f1 == f0
    } else {
        exists|mid: GameView, fm: Seq<(Pos, InternalError)>, r: Result<(), InternalError>|
            #![trigger ticked_at(mid, cells.last(), g1, r), noted(fm, cells.last(), r)]
            ran_cells(g0, f0, cells.drop_last(), mid, fm) && ticked_at(mid, cells.last(), g1, r)
                && f1 == noted(fm, cells.last(), r)
    }
}

/// The categories `buckets` have run one after the other; see [`ran_cells`].
pub open spec fn ran_buckets(
    g0: GameView,
    f0: Seq<(Pos, InternalError)>,
    buckets: Seq<Seq<Pos>>,
    g1: GameView,
    f1: Seq<(Pos, InternalError)>,
) -> bool
    decreases buckets.len(),
{
    if buckets.len() == 0 {
        g1 == g0 && f1 == f0
    } else {
        exists|mid: GameView, fm: Seq<(Pos, InternalError)>|
            #![trigger ran_cells(mid, fm, buckets.last(), g1, f1)]
            ran_buckets(g0, f0, buckets.drop_last(), mid, fm) && ran_cells(
                mid,
                fm,
                buckets.last(),
                g1,
                f1,
            )
    }
}

/// Runs one turn: every cell that was entered when the turn began acts once,
/// category after category and within a category in the order of entry, each
/// on the game as the cells before it left it. A cell whose step fails is
/// reported with its error, and the turn goes on with the next.
pub fn run<C>(g: &mut GameState<C>) -> (failures: Vec<(Pos, InternalError)>) where
    CellState: CellGen<C>,

    ensures
        ran_buckets(
            old(g)@,
            Seq::<(Pos, InternalError)>::empty(),
            old(g)@.buckets,
            final(g)@,
            failures@,
        ),
{
    let old_action_machine = g.action_machine.snapshot();
    let ghost buckets = old(g)@.buckets;
    let mut failures: Vec<(Pos, InternalError)> = Vec::new();
    let mut b: usize = 0;
    proof {
        assert(buckets.take(0) =~= Seq::<Seq<Pos>>::empty());
    }
    while b < old_action_machine.len()
        invariant
            b <= old_action_machine.len(),
            old_action_machine@.map_values(|v: Vec<Pos>| v@) == buckets,
            ran_buckets(
                old(g)@,
                Seq::<(Pos, InternalError)>::empty(),
                buckets.take(b as int),
                g@,
                failures@,
            ),
        decreases old_action_machine.len() - b,
    {
        let ghost g_before = g@;
        let ghost f_before = failures@;
        let ghost cells = buckets[b as int];
        assert(old_action_machine[b as int]@ == cells);
        let mut i: usize = 0;
        proof {
            assert(cells.take(0) =~= Seq::<Pos>::empty());
        }
        while i < old_action_machine[b].len()
            invariant
                b < old_action_machine.len(),
                i <= old_action_machine[b as int].len(),
                old_action_machine[b as int]@ == cells,
                ran_cells(g_before, f_before, cells.take(i as int), g@, failures@),
            decreases old_action_machine[b as int].len() - i,
        {
            let pos = old_action_machine[b][i];
            let ghost mid = g@;
            let ghost fm = failures@;
            let cell = hexgrid::get(pos, &mut g.matrix);
            let r = do_tick(pos, cell, g);
            match r {
                Ok(()) => {},
                Err(e) => {
                    failures.push((pos, e));
                },
            }
            proof {
                let next = cells.take(i + 1);
                assert(next.drop_last() =~= cells.take(i as int));
                assert(next.last() == pos);
                assert(ticked_at(mid, next.last(), g@, r));
                assert(failures@ == noted(fm, next.last(), r));
                assert(ran_cells(g_before, f_before, next.drop_last(), mid, fm));
                assert(next.len() > 0);
                assert(ran_cells(g_before, f_before, next, g@, failures@));
            }
            i = i + 1;
        }
        proof {
            assert(cells.take(i as int) =~= cells);
            let next = buckets.take(b + 1);
            assert(next.drop_last() =~= buckets.take(b as int));
            assert(next.last() == cells);
            assert(ran_buckets(
                old(g)@,
                Seq::<(Pos, InternalError)>::empty(),
                next.drop_last(),
                g_before,
                f_before,
            ));
            assert(ran_cells(g_before, f_before, next.last(), g@, failures@));
            assert(next.len() > 0);
            assert(ran_buckets(
                old(g)@,
                Seq::<(Pos, InternalError)>::empty(),
                next,
                g@,
                failures@,
            ));
        }
        b = b + 1;
    }
    proof {
        assert(buckets.take(b as int) =~= buckets);
    }
    failures
}

/// A heat producer at rest is left alone by a turn: its step changes nothing
/// in the game and reports no failure, whether its slot is empty or done.
pub proof fn lemma_hot_at_rest(g0: GameView, p: Pos, slot: Slot, g1: GameView, r: Result<(), InternalError>)
    requires
        ticked(g0, p, hot_cell(slot), g1, r),
    ensures
        g1 == g0,
        r.is_ok(),
{
}

} // verus!
