//! Construction: from a build order to the finished structure.

use vstd::prelude::*;
use crate::actionmachine::{self, entered, struck, InProgress, InProgressWait, Other};
use crate::celldata::{self, leak_change, CellState, CellStateData, CellStateVariant, Slot};
use crate::hexgrid::{self, ring, CellGen, GridView, Pos};
use crate::logistics_plane::{
    self, network_of, requested, returned_borrows, returned_lp, spread, LogisticsState,
    LogisticsView,
};
use crate::resource::{self, Resource, ResourcePacket, ResourceStockpile, ResourceType};
use crate::{GameResources, GameState, GameView, InternalError};

verus! {

broadcast use vstd::array::group_array_axioms;

/// What can be ordered on a cell of kind `cv`, where anything can.
pub open spec fn actions_of(cv: CellStateVariant) -> Option<Seq<CellStateVariant>> {
    match cv {
        CellStateVariant::Hidden => Some(seq![CellStateVariant::Unused]),
        CellStateVariant::Unused => Some(
            seq![
                CellStateVariant::Industry,
                CellStateVariant::Extract,
                CellStateVariant::Infrastructure,
            ],
        ),
        CellStateVariant::Industry => Some(
            seq![
                CellStateVariant::Hot,
                CellStateVariant::Insulation,
                CellStateVariant::Feeder,
                CellStateVariant::Back,
            ],
        ),
        CellStateVariant::Infrastructure => Some(
            seq![CellStateVariant::Road, CellStateVariant::Hub, CellStateVariant::Back],
        ),
        CellStateVariant::Extract => Some(
            seq![CellStateVariant::WoodCutter, CellStateVariant::Seller, CellStateVariant::Back],
        ),
        _ => None,
    }
}

/// What can be ordered on the cell `c` at `pos`: nothing without a worker in
/// reach, else what the kind of the cell offers.
pub fn has_actions<C>(pos: Pos, c: CellState, g: &GameState<C>) -> (r: Option<
    Vec<CellStateVariant>,
>) where CellState: CellGen<C>
    ensures
        match r {
            Some(v) => actions_of(c.variant) == Some(v@) && logistics_plane::worker_among(
                pos,
                logistics_plane::known_sources(pos, g.logistics_plane@.peek(pos)@),
                g.matrix@,
            ),
            None => actions_of(c.variant).is_none() || !logistics_plane::worker_among(
                pos,
                logistics_plane::known_sources(pos, g.logistics_plane@.peek(pos)@),
                g.matrix@,
            ),
        },
{
    if logistics_plane::has_worker(pos, g) {
        match c.variant {
            CellStateVariant::Hidden => Some(explore_able()),
            CellStateVariant::Unused => Some(buildable()),
            CellStateVariant::Industry => Some(industry()),
            CellStateVariant::Infrastructure => Some(infrastructure()),
            CellStateVariant::Extract => Some(extract()),
            _ => None,
        }
    } else {
        None
    }
}

/// The entries of the menu of extraction.
pub fn extract() -> (r: Vec<CellStateVariant>)
    ensures
        r@ == seq![CellStateVariant::WoodCutter, CellStateVariant::Seller, CellStateVariant::Back],
{
    vec![CellStateVariant::WoodCutter, CellStateVariant::Seller, CellStateVariant::Back]
}

/// The entries of the menu of industry.
pub fn industry() -> (r: Vec<CellStateVariant>)
    ensures
        r@ == seq![
            CellStateVariant::Hot,
            CellStateVariant::Insulation,
            CellStateVariant::Feeder,
            CellStateVariant::Back,
        ],
{
    vec![
        CellStateVariant::Hot,
        CellStateVariant::Insulation,
        CellStateVariant::Feeder,
        CellStateVariant::Back,
    ]
}

/// The entries of the menu of infrastructure.
pub fn infrastructure() -> (r: Vec<CellStateVariant>)
    ensures
        r@ == seq![CellStateVariant::Road, CellStateVariant::Hub, CellStateVariant::Back],
{
    vec![CellStateVariant::Road, CellStateVariant::Hub, CellStateVariant::Back]
}

/// The menus that open on an unused cell.
pub fn buildable() -> (r: Vec<CellStateVariant>)
    ensures
        r@ == seq![
            CellStateVariant::Industry,
            CellStateVariant::Extract,
            CellStateVariant::Infrastructure,
        ],
{
    vec![CellStateVariant::Industry, CellStateVariant::Extract, CellStateVariant::Infrastructure]
}

/// What can be ordered on a hidden cell.
pub fn explore_able() -> (r: Vec<CellStateVariant>)
    ensures
        r@ == seq![CellStateVariant::Unused],
{
    vec![CellStateVariant::Unused]
}

/// The cell that an entry of a menu puts in place at once.
pub open spec fn menu_cell(cv0: CellStateVariant) -> Option<CellState> {
    match cv0 {
        CellStateVariant::Industry | CellStateVariant::Infrastructure | CellStateVariant::Extract => Some(
            CellState { variant: cv0, data: CellStateData::Unit },
        ),
        CellStateVariant::Back => Some(
            CellState { variant: CellStateVariant::Unused, data: CellStateData::Unit },
        ),
        _ => None,
    }
}

/// The cell that an entry of a menu puts in place at once: the opened menu, or
/// an unused cell for the way back.
pub fn menu_variant_transition(cv0: CellStateVariant) -> (r: Option<CellState>)
    ensures
        r == menu_cell(cv0),
{
    match cv0 {
        CellStateVariant::Industry | CellStateVariant::Infrastructure | CellStateVariant::Extract => Some(
            celldata::unit_state(cv0),
        ),
        CellStateVariant::Back => Some(celldata::unit_state(CellStateVariant::Unused)),
        _ => None,
    }
}

/// The number of turns it takes to build a structure of kind `cv`, for the
/// kinds that are built by waiting.
pub open spec fn build_turns(cv: CellStateVariant) -> Option<InProgressWait> {
    match cv {
        CellStateVariant::Hot => Some(4u32),
        CellStateVariant::Feeder => Some(1u32),
        CellStateVariant::Seller => Some(1u32),
        CellStateVariant::Insulation => Some(2u32),
        CellStateVariant::WoodCutter => Some(3u32),
        CellStateVariant::Road => Some(1u32),
        _ => None,
    }
}

/// The number of turns it takes to build a structure of kind `cv`, for the
/// kinds that are built by waiting.
pub fn buildtime(cv: CellStateVariant) -> (r: Option<InProgressWait>)
    ensures
        r == build_turns(cv),
{
    match cv {
        CellStateVariant::Hot => Some(4),
        CellStateVariant::Feeder => Some(1),
        CellStateVariant::Seller => Some(1),
        CellStateVariant::Insulation => Some(2),
        CellStateVariant::WoodCutter => Some(3),
        CellStateVariant::Road => Some(1),
        _ => None,
    }
}

/// The number of turns it takes to clear a cell into an unused one that keeps
/// the resources of the ground.
pub fn buildtime_keep_res(cv: CellStateVariant) -> (r: Option<InProgressWait>)
    ensures
        r == if cv is Unused {
            Some(2u32)
        } else {
            None::<InProgressWait>
        },
{
    match cv {
        CellStateVariant::Unused => Some(2),
        _ => None,
    }
}

/// All kinds of structure in their order.
fn all_variants() -> (r: [CellStateVariant; 17])
    ensures
        r@ == seq![
            CellStateVariant::Hidden,
            CellStateVariant::Unused,
            CellStateVariant::Hot,
            CellStateVariant::Insulation,
            CellStateVariant::Feeder,
            CellStateVariant::WoodCutter,
            CellStateVariant::Seller,
            CellStateVariant::InProgress,
            CellStateVariant::Building,
            CellStateVariant::Hub,
            CellStateVariant::Road,
            CellStateVariant::OutOfBounds,
            CellStateVariant::Industry,
            CellStateVariant::Infrastructure,
            CellStateVariant::Extract,
            CellStateVariant::Back,
            CellStateVariant::Last,
        ],
{
    let r = [
        CellStateVariant::Hidden,
        CellStateVariant::Unused,
        CellStateVariant::Hot,
        CellStateVariant::Insulation,
        CellStateVariant::Feeder,
        CellStateVariant::WoodCutter,
        CellStateVariant::Seller,
        CellStateVariant::InProgress,
        CellStateVariant::Building,
        CellStateVariant::Hub,
        CellStateVariant::Road,
        CellStateVariant::OutOfBounds,
        CellStateVariant::Industry,
        CellStateVariant::Infrastructure,
        CellStateVariant::Extract,
        CellStateVariant::Back,
        CellStateVariant::Last,
    ];
    assert(r@ =~= seq![
        CellStateVariant::Hidden,
        CellStateVariant::Unused,
        CellStateVariant::Hot,
        CellStateVariant::Insulation,
        CellStateVariant::Feeder,
        CellStateVariant::WoodCutter,
        CellStateVariant::Seller,
        CellStateVariant::InProgress,
        CellStateVariant::Building,
        CellStateVariant::Hub,
        CellStateVariant::Road,
        CellStateVariant::OutOfBounds,
        CellStateVariant::Industry,
        CellStateVariant::Infrastructure,
        CellStateVariant::Extract,
        CellStateVariant::Back,
        CellStateVariant::Last,
    ]);
    r
}

/// The kinds among the first `n` of `all` that are built by waiting.
pub open spec fn timed_among(all: Seq<CellStateVariant>, n: int) -> Seq<CellStateVariant>
    decreases n,
{
    if n <= 0 {
        Seq::empty()
    } else if build_turns(all[n - 1]).is_some() {
        timed_among(all, n - 1).push(all[n - 1])
    } else {
        timed_among(all, n - 1)
    }
}

/// The kinds of structure that are built by waiting, in their order.
pub fn has_buildtime() -> (r: Vec<CellStateVariant>)
    ensures
        r@ == seq![
            CellStateVariant::Hot,
            CellStateVariant::Insulation,
            CellStateVariant::Feeder,
            CellStateVariant::WoodCutter,
            CellStateVariant::Seller,
            CellStateVariant::Road,
        ],
{
    let all = all_variants();
    let mut out: Vec<CellStateVariant> = Vec::new();
    let mut i: usize = 0;
    while i < 17
        invariant
            i <= 17,
            out@ == timed_among(all@, i as int),
        decreases 17 - i,
    {
        match buildtime(all[i]) {
            None => {},
            Some(_) => {
                out.push(all[i]);
            },
        }
        i = i + 1;
    }
    proof {
        reveal_with_fuel(timed_among, 18);
        assert(timed_among(all@, 17) =~= seq![
            CellStateVariant::Hot,
            CellStateVariant::Insulation,
            CellStateVariant::Feeder,
            CellStateVariant::WoodCutter,
            CellStateVariant::Seller,
            CellStateVariant::Road,
        ]);
    }
    out
}

/// The longest time that a structure takes to build.
pub fn max_buildtime() -> (r: InProgressWait)
    ensures
        r == 4,
{
    let timed = has_buildtime();
    let mut best: InProgressWait = 0;
    let mut i: usize = 0;
    while i < timed.len()
        invariant
            i <= timed.len(),
            timed@ == seq![
                CellStateVariant::Hot,
                CellStateVariant::Insulation,
                CellStateVariant::Feeder,
                CellStateVariant::WoodCutter,
                CellStateVariant::Seller,
                CellStateVariant::Road,
            ],
            i == 0 ==> best == 0,
            i > 0 ==> best == 4,
        decreases timed.len() - i,
    {
        if let Some(b) = buildtime(timed[i]) {
            if b > best {
                best = b;
            }
        }
        i = i + 1;
    }
    best
}

/// The entries of the ledger of a hub under construction: one builder at
/// work, room for a second, and no building time done.
pub open spec fn hub_site_ledger() -> Seq<resource::ResourceData> {
    seq![
        resource::ResourceData { current: 0, max: 0 },
        resource::ResourceData { current: 0, max: 0 },
        resource::ResourceData { current: 1, max: 2 },
        resource::ResourceData { current: 0, max: 10 },
    ]
}

/// The cell of the building site of a structure that is paid for in work, for
/// the kinds that are.
pub open spec fn site_cell(cv: CellStateVariant) -> Option<CellState> {
    if cv is Hub {
        Some(
            CellState {
                variant: CellStateVariant::Building,
                data: CellStateData::Resource(
                    Resource::WithVariant(resource::stockpile_from(hub_site_ledger()), cv),
                ),
            },
        )
    } else {
        None
    }
}

/// The cell of the building site of a structure that is paid for in work, for
/// the kinds that are.
pub fn buildcost_cell(cv: CellStateVariant) -> (r: Option<CellState>)
    ensures
        r == site_cell(cv),
{
    match cv {
        CellStateVariant::Hub => {
            let mut data: resource::PacketMap = Vec::new();
            data.push((ResourceType::Builders, 1));
            let cell = resource::new_stockpile(CellStateVariant::Building, data, cv);
            proof {
                reveal_with_fuel(resource::ledger_of_map, 2);
                assert(resource::ledger_of_map(CellStateVariant::Building, data@, 1)
                    =~= hub_site_ledger());
            }
            Some(cell)
        },
        _ => None,
    }
}

/// The entries of the packet that one unit of building work costs.
pub open spec fn work_cost() -> Seq<i32> {
    seq![0i32, 10i32, 0i32, 0i32]
}

/// What one unit of building work costs.
pub fn required_per_build_action(_cv: CellStateVariant) -> (r: ResourcePacket)
    ensures
        r@ == work_cost(),
{
    let mut map: resource::PacketMap = Vec::new();
    map.push((ResourceType::Wood, 10));
    let r = resource::from_key_value(map);
    proof {
        reveal_with_fuel(resource::packet_of_map, 2);
        assert(r@ =~= work_cost());
    }
    r
}

/// The number of units of building work that a structure takes.
pub fn build_action_req(_cv: CellStateVariant) -> (r: resource::ResourceValue)
    ensures
        r == 10,
{
    10
}

/// The entries of the request for one builder.
pub open spec fn one_builder() -> Seq<i32> {
    seq![0i32, 0i32, 1i32, 0i32]
}

/// What borrowing a builder for `pos` makes of the game, and what it reports:
/// an error where no source can send one.
pub open spec fn builder_used(g: GameView, pos: Pos) -> (GameView, Result<(), InternalError>) {
    let (g1, r1) = requested(g, pos, resource::packet_from(one_builder()), true);
    (
        g1,
        match r1 {
            Ok(true) => Ok(()),
            Ok(false) => Err(InternalError::NotAvailable),
            Err(e) => Err(e),
        },
    )
}

/// Borrows a builder for `pos`; see [`builder_used`].
pub fn use_builder<C>(pos: Pos, g: &mut GameState<C>) -> (r: Result<(), InternalError>) where
    CellState: CellGen<C>,

    ensures
        final(g)@ == builder_used(old(g)@, pos).0,
        r == builder_used(old(g)@, pos).1,
{
    let p = resource::new_packet(1, 0);
    proof {
        resource::lemma_packet_from(p);
    }
    match logistics_plane::try_borrow_resources(pos, p, g) {
        Ok(true) => Ok(()),
        Ok(false) => Err(InternalError::NotAvailable),
        Err(e) => Err(e),
    }
}

/// The kind of structure that a countdown leads to.
pub open spec fn target_of(oth: Other) -> CellStateVariant {
    match oth {
        Other::CellStateVariant(cv) => cv,
        Other::CvAndRS(cv, _) => cv,
    }
}

/// The cell of a structure in the state in which it starts, for the kinds
/// that can be built. An unused cell keeps what the ground held.
pub open spec fn finished_cell(oth: Other) -> Option<CellState> {
    match target_of(oth) {
        CellStateVariant::Insulation => Some(
            CellState { variant: CellStateVariant::Insulation, data: CellStateData::Unit },
        ),
        CellStateVariant::Feeder => Some(
            CellState { variant: CellStateVariant::Feeder, data: CellStateData::Unit },
        ),
        CellStateVariant::Seller => Some(
            CellState { variant: CellStateVariant::Seller, data: CellStateData::Unit },
        ),
        CellStateVariant::Road => Some(
            CellState { variant: CellStateVariant::Road, data: CellStateData::Unit },
        ),
        CellStateVariant::Unused => match oth {
            Other::CvAndRS(_, res) => Some(
                CellState {
                    variant: CellStateVariant::Unused,
                    data: CellStateData::Resource(
                        Resource::Pure(
                            resource::stockpile_from(
                                resource::ledger_of_map(
                                    CellStateVariant::Unused,
                                    resource::held_amounts(res@, 4),
                                    resource::held_amounts(res@, 4).len() as int,
                                ),
                            ),
                        ),
                    ),
                },
            ),
            _ => None,
        },
        CellStateVariant::Hot => Some(
            CellState {
                variant: CellStateVariant::Hot,
                data: CellStateData::Slot { slot: Slot::Empty },
            },
        ),
        CellStateVariant::WoodCutter => Some(
            CellState {
                variant: CellStateVariant::WoodCutter,
                data: CellStateData::InProgress(InProgress::Pure(3)),
            },
        ),
        CellStateVariant::Hub => Some(
            CellState {
                variant: CellStateVariant::Hub,
                data: CellStateData::Resource(
                    Resource::Pure(resource::stockpile_from(resource::hub_ledger())),
                ),
            },
        ),
        _ => None,
    }
}

fn finished<C>(oth: Other) -> (r: Option<CellState>)
    ensures
        r == finished_cell(oth),
{
    let cv = match oth {
        Other::CellStateVariant(cv) => cv,
        Other::CvAndRS(cv, _) => cv,
    };
    match cv {
        CellStateVariant::Insulation => Some(celldata::unit_state(CellStateVariant::Insulation)),
        CellStateVariant::Feeder => Some(celldata::unit_state(CellStateVariant::Feeder)),
        CellStateVariant::Seller => Some(celldata::unit_state(CellStateVariant::Seller)),
        CellStateVariant::Road => Some(celldata::unit_state(CellStateVariant::Road)),
        CellStateVariant::Unused => match oth {
            Other::CvAndRS(_, res) => Some(
                resource::new_pure_stockpile(cv, resource::to_key_value(res)),
            ),
            _ => None,
        },
        CellStateVariant::Hot => Some(
            CellState { variant: cv, data: CellStateData::Slot { slot: Slot::Empty } },
        ),
        CellStateVariant::WoodCutter => Some(actionmachine::new_in_progress(cv, 3)),
        CellStateVariant::Hub => Some(resource::new_hub()),
        _ => None,
    }
}

/// The counters leave room for the largest change that a new structure makes.
pub open spec fn counters_have_room(r: GameResources) -> bool {
    &&& i32::MIN + 32 <= r.leak <= i32::MAX - 12
    &&& r.tiles < i32::MAX
}

/// The counters after a structure of kind `cv` has been built at a position
/// whose neighbours are the cells at `around`.
pub open spec fn counted(
    r: GameResources,
    cv: CellStateVariant,
    values: Map<Pos, CellState>,
    around: Seq<Pos>,
) -> GameResources {
    GameResources {
        leak: (r.leak + leak_change(cv, values, around)) as i32,
        tiles: if cv is Hot {
            (r.tiles + 1) as i32
        } else {
            r.tiles
        },
        sold: r.sold,
    }
}

/// The network after a structure of kind `cv` has been built at `pos`: a hub
/// becomes a source and makes itself and the hubs linked to it known around
/// itself and the roads linked to it; a road does so for the hubs linked to
/// it; any other structure leaves the network alone.
pub open spec fn wired(
    net0: Map<Pos, LogisticsView>,
    values: Map<Pos, CellState>,
    cv: CellStateVariant,
    pos: Pos,
    net1: Map<Pos, LogisticsView>,
) -> bool {
    if cv is Hub {
        exists|roads: Seq<Pos>, hubs: Seq<Pos>| #[trigger]
            network_of(values, pos, true, roads, hubs) && net1 == spread(
                net0.insert(pos, LogisticsView::Source),
                roads,
                hubs,
            )
    } else if cv is Road {
        exists|roads: Seq<Pos>, hubs: Seq<Pos>| #[trigger]
            network_of(values, pos, false, roads, hubs) && net1 == spread(net0, roads, hubs)
    } else {
        net1 == net0
    }
}

/// What putting up the structure that `oth` names at `pos` makes of the game
/// `g0`: the game `g1` and the report `r`.
///
/// The position leaves the category of building sites and enters that of the
/// new structure, the cell becomes the structure in the state in which it
/// starts, the network learns of a hub or a road, and the counters take up
/// the leak of the structure and, for a heat producer, one more tile. Where
/// `oth` names nothing that can be built, or the counters have no room,
/// nothing changes and the report is an error.
pub open spec fn built(
    g0: GameView,
    oth: Other,
    pos: Pos,
    g1: GameView,
    r: Result<(), InternalError>,
) -> bool {
    let cv = target_of(oth);
    match finished_cell(oth) {
        None => g1 == g0 && r == Err::<(), InternalError>(InternalError::UnexpectedCell),
        Some(cell) => if !counters_have_room(g0.resources) {
            g1 == g0 && r == Err::<(), InternalError>(InternalError::Overflow)
        } else {
            &&& r.is_ok()
            &&& g1.buckets == entered(struck(g0.buckets, pos, CellStateVariant::Building), pos, cv)
            &&& g1.board.values == g0.board.values.insert(pos, cell)
            &&& g1.board.sentinel == g0.board.sentinel
            &&& g0.board.put(pos, cell).grown_to(g1.board)
            &&& wired(g0.net, g1.board.values, cv, pos, g1.net)
            &&& g1.resources == counted(g0.resources, cv, g1.board.values, ring(pos))
        },
    }
}

/// Puts up the structure that `oth` names at `pos`; see [`built`].
pub fn do_build<C>(oth: Other, pos: Pos, g: &mut GameState<C>) -> (r: Result<
    (),
    InternalError,
>) where CellState: CellGen<C>
    ensures
        built(old(g)@, oth, pos, final(g)@, r),
{
    let cv = match oth {
        Other::CellStateVariant(cv) => cv,
        Other::CvAndRS(cv, _) => cv,
    };
    let new_cell = match finished::<C>(oth) {
        Some(c) => c,
        None => {
            return Err(InternalError::UnexpectedCell);
        },
    };
    if !(g.resources.leak >= i32::MIN + 32 && g.resources.leak <= i32::MAX - 12
        && g.resources.tiles < i32::MAX) {
        return Err(InternalError::Overflow);
    }
    actionmachine::remove(&mut g.action_machine, pos, CellStateVariant::Building);
    actionmachine::maybe_insert(&mut g.action_machine, pos, cv);
    match cv {
        CellStateVariant::Hub => {
            logistics_plane::plane_set(pos, LogisticsState::Source, &mut g.logistics_plane);
        },
        _ => {},
    }
    hexgrid::set(pos, new_cell, &mut g.matrix);
    let ghost placed = g@.board;
    let ghost net_a = g@.net;
    proof {
        placed.lemma_grown_chain(placed, placed);
    }
    match cv {
        CellStateVariant::Hub => {
            logistics_plane::update_logistics(pos, true, g);
            proof {
                assert(placed.grown_to(g@.board));
            }
        },
        CellStateVariant::Road => {
            logistics_plane::update_logistics(pos, false, g);
            proof {
                assert(placed.grown_to(g@.board));
            }
        },
        _ => {},
    }
    let ghost wired_board = g@.board;
    let ghost values = g@.board.values;
    assert(wired(old(g)@.net, values, cv, pos, g@.net));
    let delta = celldata::leak_delta(cv, pos, &mut g.matrix);
    proof {
        placed.lemma_grown_chain(wired_board, g@.board);
        wired_board.lemma_grown_chain(g@.board, g@.board);
    }
    if let Some(new_delta) = delta {
        g.resources.leak = g.resources.leak + new_delta;
    }
    if celldata::is_hot_v(cv) {
        g.resources.tiles = g.resources.tiles + 1;
    }
    proof {
        assert(g@.resources == counted(old(g)@.resources, cv, g@.board.values, ring(pos)));
    }
    Ok(())
}

/// What finishing the building site at `pos` makes of the game `g0`: the game
/// `g1` and the report `r`. What the site has borrowed goes back, then the
/// logistics points it has used, then the structure is put up; the first
/// step that fails ends the run with its error.
pub open spec fn finalized(
    g0: GameView,
    oth: Other,
    pos: Pos,
    g1: GameView,
    r: Result<(), InternalError>,
) -> bool {
    let (ga, ra) = returned_borrows(g0, pos);
    if ra.is_err() {
        g1 == ga && r == ra
    } else {
        let (gb, rb) = returned_lp(ga, pos);
        if rb.is_err() {
            g1 == gb && r == rb
        } else {
            built(gb, oth, pos, g1, r)
        }
    }
}

/// Finishes the building site at `pos`; see [`finalized`].
pub fn finalize_build<C>(oth: Other, pos: Pos, g: &mut GameState<C>) -> (r: Result<
    (),
    InternalError,
>) where CellState: CellGen<C>
    ensures
        finalized(old(g)@, oth, pos, final(g)@, r),
{
    match logistics_plane::return_borrows(pos, g) {
        Err(e) => {
            return Err(e);
        },
        Ok(()) => {},
    }
    match logistics_plane::return_lp(pos, g) {
        Err(e) => {
            return Err(e);
        },
        Ok(()) => {},
    }
    do_build(oth, pos, g)
}


/// What asking up to `n` times for the packet `req` to be taken for `p` makes
/// of the game, and how many times it was served: the first request that is
/// not served ends the run.
pub open spec fn takes(g: GameView, p: Pos, req: ResourcePacket, n: int) -> (GameView, int)
    decreases n,
{
    if n <= 0 {
        (g, 0)
    } else {
        let (g1, r1) = requested(g, p, req, false);
        if r1 == Ok::<bool, InternalError>(true) {
            let rest = takes(g1, p, req, n - 1);
            (rest.0, rest.1 + 1)
        } else {
            (g1, 0)
        }
    }
}

/// What a turn makes of the building site `c` at `p`, whose ledger is `res`
/// and which is to become a `goal`: the game `g1` and the report `r`.
///
/// The site gets back the logistics points it used last turn. Each builder
/// on the site then does one unit of work, as long as work is left and the
/// network pays its cost. If every builder worked, the site asks for one
/// more, who joins if the site has room. If the work is now done, the site
/// is finished; else the work of this turn is added to the ledger.
pub open spec fn build_progressed(
    g0: GameView,
    c: CellState,
    p: Pos,
    res: ResourceStockpile,
    goal: CellStateVariant,
    g1: GameView,
    r: Result<(), InternalError>,
) -> bool {
    let (ga, ra) = returned_lp(g0, p);
    if ra.is_err() {
        g1 == ga && r == ra
    } else {
        let builders = res[2].current as int;
        let pre = res[3].current as int;
        let rounds = if builders <= 10 - pre {
            builders
        } else {
            10 - pre
        };
        let (gb, progress) = takes(ga, p, resource::packet_from(work_cost()), rounds);
        let asked = requested(gb, p, resource::packet_from(one_builder()), true);
        let gc = if progress == builders {
            asked.0
        } else {
            gb
        };
        let c2 = if progress == builders && asked.1 == Ok::<bool, InternalError>(true) {
            match resource::cell_after(resource::single_change(ResourceType::Builders, 1), c) {
                Some(c1) => c1,
                None => c,
            }
        } else {
            c
        };
        if progress + pre == 10 {
            finalized(gc, Other::CellStateVariant(goal), p, g1, r)
        } else {
            match resource::cell_after(
                resource::single_change(ResourceType::BuildTime, progress as i32),
                c2,
            ) {
                Some(c3) => g1 == (GameView { board: gc.board.put(p, c3), ..gc }) && r.is_ok(),
                None => g1 == gc && r == Err::<(), InternalError>(InternalError::UnexpectedCell),
            }
        }
    }
}

fn take_rounds<C>(p: Pos, req: ResourcePacket, rounds: i64, g: &mut GameState<C>) -> (progress:
    i32) where CellState: CellGen<C>
    requires
        rounds <= i32::MAX,
    ensures
        (final(g)@, progress as int) == takes(old(g)@, p, req, rounds as int),
        0 <= progress,
        progress <= rounds || rounds < 0,
{
    let mut progress: i32 = 0;
    let mut stopped = false;
    while (progress as i64) < rounds && !stopped
        invariant
            0 <= progress,
            progress <= rounds || rounds < 0,
            rounds <= i32::MAX,
            stopped ==> takes(old(g)@, p, req, rounds as int) == (g@, progress as int),
            !stopped ==> takes(old(g)@, p, req, rounds as int) == (
                takes(g@, p, req, rounds - progress).0,
                takes(g@, p, req, rounds - progress).1 + progress,
            ),
        decreases rounds - progress + (if stopped { 0int } else { 1int }),
    {
        match logistics_plane::try_take_resources(p, req, g) {
            Ok(true) => {
                progress = progress + 1;
            },
            _ => {
                stopped = true;
            },
        }
    }
    progress
}

/// Lets a turn pass on the building site `c` at `p`; see [`build_progressed`].
pub fn do_build_progress<C>(
    c: CellState,
    p: Pos,
    r: ResourceStockpile,
    cv2: CellStateVariant,
    g: &mut GameState<C>,
) -> (out: Result<(), InternalError>) where CellState: CellGen<C>
    ensures
        build_progressed(old(g)@, c, p, r, cv2, final(g)@, out),
{
    match logistics_plane::return_lp(p, g) {
        Err(e) => {
            return Err(e);
        },
        Ok(()) => {},
    }
    let builders = resource::get(ResourceType::Builders, r);
    let req = required_per_build_action(cv2);
    let done_threshold = build_action_req(cv2);
    let pre_progress = resource::get(ResourceType::BuildTime, r);
    let work_left: i64 = done_threshold as i64 - pre_progress as i64;
    let rounds: i64 = if (builders as i64) <= work_left {
        builders as i64
    } else {
        work_left
    };
    proof {
        resource::lemma_packet_from(req);
    }
    let progress = take_rounds(p, req, rounds, g);
    let mut c = c;
    if progress == builders {
        let one = resource::new_packet(1, 0);
        proof {
            resource::lemma_packet_from(one);
        }
        match logistics_plane::try_borrow_resources(p, one, g) {
            Ok(true) => {
                if let Some(c1) = crate::resource::add(ResourceType::Builders, c, 1) {
                    c = c1;
                }
            },
            _ => {},
        }
    }
    if progress as i64 + pre_progress as i64 == done_threshold as i64 {
        finalize_build(Other::CellStateVariant(cv2), p, g)
    } else {
        match crate::resource::add(ResourceType::BuildTime, c, progress) {
            Some(c1) => {
                hexgrid::set(p, c1, &mut g.matrix);
                Ok(())
            },
            None => Err(InternalError::UnexpectedCell),
        }
    }
}

/// The building site that an order for a `cv` at `pos` sets up, where one can
/// be set up, and the board after the look at the cell that clearing the
/// ground takes.
pub open spec fn site_for(g: GameView, cv: CellStateVariant, pos: Pos) -> (
    GridView<CellState>,
    Option<CellState>,
) {
    match build_turns(cv) {
        Some(b) => (
            g.board,
            Some(
                CellState {
                    variant: CellStateVariant::Building,
                    data: CellStateData::InProgress(
                        InProgress::WithOther(b, Other::CellStateVariant(cv)),
                    ),
                },
            ),
        ),
        None => match site_cell(cv) {
            Some(nc) => (g.board, Some(nc)),
            None => if cv is Unused {
                (
                    g.board.touched(pos),
                    match g.board.values[pos] {
                        CellState {
                            variant: CellStateVariant::Hidden,
                            data: CellStateData::Resource(Resource::Pure(res)),
                        } => Some(
                            CellState {
                                variant: CellStateVariant::Building,
                                data: CellStateData::InProgress(
                                    InProgress::WithOther(2, Other::CvAndRS(cv, res)),
                                ),
                            },
                        ),
                        _ => None,
                    },
                )
            } else {
                (g.board, None)
            },
        },
    }
}

/// What an order for a `cv` at `pos` makes of the game, and what it reports.
///
/// An entry of a menu is put in place at once. For a structure, a building
/// site is set up: a builder is borrowed, the position enters the category of
/// building sites, and the cell becomes the site. Without a builder, or for
/// a kind that cannot be built there, no site is set up and the report is an
/// error.
pub open spec fn ordered(g: GameView, cv: CellStateVariant, pos: Pos) -> (
    GameView,
    Result<(), InternalError>,
) {
    match menu_cell(cv) {
        Some(nc) => (GameView { board: g.board.put(pos, nc), ..g }, Ok(())),
        None => {
            let (board, site) = site_for(g, cv, pos);
            let looked = GameView { board, ..g };
            match site {
                None => (looked, Err(InternalError::UnexpectedCell)),
                Some(new_cell) => {
                    let (g1, r1) = builder_used(looked, pos);
                    if r1.is_err() {
                        (g1, r1)
                    } else {
                        (
                            GameView {
                                board: g1.board.put(pos, new_cell),
                                buckets: entered(g1.buckets, pos, CellStateVariant::Building),
                                ..g1
                            },
                            Ok(()),
                        )
                    }
                },
            }
        },
    }
}

/// Carries out an order for a `cv` at `pos`; see [`ordered`].
pub fn build<C>(cv: CellStateVariant, pos: Pos, g: &mut GameState<C>) -> (r: Result<
    (),
    InternalError,
>) where CellState: CellGen<C>
    ensures
        final(g)@ == ordered(old(g)@, cv, pos).0,
        r == ordered(old(g)@, cv, pos).1,
{
    if let Some(new_cell) = menu_variant_transition(cv) {
        hexgrid::set(pos, new_cell, &mut g.matrix);
        Ok(())
    } else {
        let new_cell = if let Some(b) = buildtime(cv) {
            actionmachine::new_in_progress_with_variant(CellStateVariant::Building, b, cv)
        } else if let Some(new_cell) = buildcost_cell(cv) {
            new_cell
        } else if let Some(b) = buildtime_keep_res(cv) {
            let old_res = match hexgrid::get(pos, &mut g.matrix) {
                CellState {
                    variant: CellStateVariant::Hidden,
                    data: CellStateData::Resource(Resource::Pure(res)),
                } => res,
                _ => {
                    return Err(InternalError::UnexpectedCell);
                },
            };
            actionmachine::new_in_progress_with_variant_and_resource(
                CellStateVariant::Building,
                b,
                cv,
                old_res,
            )
        } else {
            return Err(InternalError::UnexpectedCell);
        };
        match use_builder(pos, g) {
            Err(e) => {
                return Err(e);
            },
            Ok(()) => {},
        }
        actionmachine::maybe_insert(&mut g.action_machine, pos, CellStateVariant::Building);
        hexgrid::set(pos, new_cell, &mut g.matrix);
        Ok(())
    }
}

} // verus!
