use hexworld::actionmachine;
use hexworld::actionmachine::{do_in_progress, do_tick, in_progress_max, prio, run, InProgress, Other};
use hexworld::building;
use hexworld::building::{
    build, build_action_req, buildable, buildcost_cell, buildtime, buildtime_keep_res, do_build,
    do_build_progress, explore_able, extract, finalize_build, has_actions, has_buildtime, industry,
    infrastructure, max_buildtime, menu_variant_transition, required_per_build_action, use_builder,
};
use hexworld::celldata::{leak_delta, unit_state, CellState, CellStateData, CellStateVariant, Slot};
use hexworld::hexgrid;
use hexworld::hexgrid::{chunk_from_example, CellGen, Chunk, Pos, XYCont};
use hexworld::logistics_plane::{
    add_to_close, can_use, has_worker, insert_or_join, is_hub_or_road, is_road, new_plane,
    return_borrows, return_lp, try_borrow_resources, try_take_resources, update_borrows,
    update_logistics, update_take, Available, LogisticsState,
};
use hexworld::menu;
use hexworld::resource;
use hexworld::resource::{
    new_hub, new_packet, new_pure_stockpile, stockpile_to_cell, Resource, ResourceData,
    ResourceStockpile, ResourceType,
};
use hexworld::{GameResources, GameState, InternalError};

/// A world of hidden ground with the same amount of wood everywhere.
struct Flat {
    wood: i32,
}

impl CellGen<Flat> for CellState {
    fn generated(_c: Flat, _p: Pos) -> Self {
        unreachable!()
    }

    fn new_chunk(_p: Pos, c: &mut Flat) -> Chunk<Self> {
        chunk_from_example(new_pure_stockpile(
            CellStateVariant::Hidden,
            vec![(ResourceType::Wood, c.wood)],
        ))
    }
}

type Game = GameState<Flat>;

fn at(x: i32, y: i32) -> Pos {
    XYCont { x, y }
}

fn slot(current: i32, max: i32) -> ResourceData {
    ResourceData { current, max }
}

fn new_game() -> Game {
    GameState {
        matrix: hexgrid::new(Flat { wood: 32 }, unit_state(CellStateVariant::OutOfBounds)),
        logistics_plane: new_plane(),
        resources: GameResources { tiles: 0, leak: 1, sold: 0 },
        action_machine: actionmachine::new(),
    }
}

/// A game with a hub at the origin that holds `wood` units of wood.
fn game_with_hub(wood: i32) -> Game {
    let mut g = new_game();
    assert_eq!(do_build(Other::CellStateVariant(CellStateVariant::Hub), at(0, 0), &mut g), Ok(()));
    if wood > 0 {
        let hub = hexgrid::get(at(0, 0), &mut g.matrix);
        let hub = resource::add(ResourceType::Wood, hub, wood).unwrap();
        hexgrid::set(at(0, 0), hub, &mut g.matrix);
    }
    g
}

fn cell(p: Pos, g: &mut Game) -> CellState {
    hexgrid::get(p, &mut g.matrix)
}

fn ledger(p: Pos, g: &mut Game) -> ResourceStockpile {
    match cell(p, g).data {
        CellStateData::Resource(Resource::Pure(l)) => l,
        CellStateData::Resource(Resource::WithVariant(l, _)) => l,
        other => panic!("no ledger at {:?}: {:?}", p, other),
    }
}

fn net(p: Pos, g: &mut Game) -> LogisticsState {
    hexgrid::get(p, &mut g.logistics_plane)
}

fn known(hubs: Vec<Pos>) -> LogisticsState {
    LogisticsState::Available(Available { locations: hubs, borrows: vec![], taken_lp: vec![] })
}

fn hot(s: Slot) -> CellState {
    CellState { variant: CellStateVariant::Hot, data: CellStateData::Slot { slot: s } }
}

fn counting(cv: CellStateVariant, wait: u32) -> CellState {
    actionmachine::new_in_progress(cv, wait)
}

#[test]
fn a_new_plane_knows_of_nothing() {
    let mut plane = new_plane();
    assert_eq!(hexgrid::unsafe_get(at(3, 3), &plane), LogisticsState::Unreached);
    assert_eq!(hexgrid::get(at(3, 3), &mut plane), LogisticsState::Unreached);
    assert_eq!(hexgrid::get(at(-900, 12), &mut plane), LogisticsState::Unreached);
}

#[test]
fn a_hub_makes_itself_known_two_steps_around() {
    let mut g = game_with_hub(0);
    assert_eq!(cell(at(0, 0), &mut g), new_hub());
    assert_eq!(net(at(0, 0), &mut g), LogisticsState::Source);
    for (q, _) in hexgrid::within(at(0, 0), &mut new_plane(), 2) {
        if q != at(0, 0) {
            assert_eq!(net(q, &mut g), known(vec![at(0, 0)]));
        }
    }
    assert_eq!(net(at(3, 0), &mut g), LogisticsState::Unreached);
    assert_eq!(net(at(0, 3), &mut g), LogisticsState::Unreached);
    assert_eq!(net(at(2, 2), &mut g), LogisticsState::Unreached);
    assert_eq!(g.resources, GameResources { tiles: 0, leak: 1, sold: 0 });
}

#[test]
fn a_road_carries_the_network_on() {
    let mut g = game_with_hub(0);
    for x in 1..=4 {
        assert_eq!(
            do_build(Other::CellStateVariant(CellStateVariant::Road), at(x, 0), &mut g),
            Ok(())
        );
    }
    assert_eq!(cell(at(4, 0), &mut g), unit_state(CellStateVariant::Road));
    assert_eq!(net(at(6, 0), &mut g), known(vec![at(0, 0)]));
    assert_eq!(net(at(7, 0), &mut g), LogisticsState::Unreached);
    assert_eq!(do_build(Other::CellStateVariant(CellStateVariant::Hub), at(5, 0), &mut g), Ok(()));
    assert_eq!(net(at(5, 0), &mut g), LogisticsState::Source);
    assert_eq!(net(at(7, 0), &mut g), known(vec![at(5, 0), at(0, 0)]));
    assert_eq!(net(at(-1, 0), &mut g), known(vec![at(5, 0), at(0, 0)]));
    assert_eq!(net(at(-2, 0), &mut g), known(vec![at(0, 0)]));
    assert_eq!(net(at(0, 0), &mut g), LogisticsState::Source);
}

#[test]
fn a_road_without_a_hub_spreads_nothing() {
    let mut g = new_game();
    update_logistics(at(9, 9), false, &mut g);
    assert_eq!(net(at(9, 9), &mut g), LogisticsState::Unreached);
    assert_eq!(net(at(10, 9), &mut g), LogisticsState::Unreached);
}

#[test]
fn sources_are_merged_into_what_a_position_knows() {
    let mut plane = new_plane();
    hexgrid::set(at(1, 0), known(vec![at(7, 7), at(5, 5)]), &mut plane);
    hexgrid::set(at(0, 0), LogisticsState::Source, &mut plane);
    add_to_close(&vec![at(0, 0)], &vec![at(5, 5), at(9, 9)], &mut plane);
    assert_eq!(hexgrid::get(at(1, 0), &mut plane), known(vec![at(5, 5), at(9, 9), at(7, 7)]));
    assert_eq!(hexgrid::get(at(0, 0), &mut plane), LogisticsState::Source);
    assert_eq!(hexgrid::get(at(0, 2), &mut plane), known(vec![at(5, 5), at(9, 9)]));
    assert_eq!(hexgrid::get(at(0, 3), &mut plane), LogisticsState::Unreached);
    add_to_close(&vec![at(0, 0), at(0, 1)], &vec![], &mut plane);
    assert_eq!(hexgrid::get(at(0, 3), &mut plane), LogisticsState::Unreached);
    add_to_close(&vec![at(0, 0), at(0, 1)], &vec![at(5, 5), at(9, 9)], &mut plane);
    assert_eq!(hexgrid::get(at(1, 0), &mut plane), known(vec![at(5, 5), at(9, 9), at(7, 7)]));
    assert_eq!(hexgrid::get(at(0, 3), &mut plane), known(vec![at(5, 5), at(9, 9)]));
}

#[test]
fn roads_and_hubs_are_told_apart() {
    assert!(is_road(unit_state(CellStateVariant::Road)));
    assert!(!is_road(new_hub()));
    assert!(is_hub_or_road(new_hub()));
    assert!(is_hub_or_road(unit_state(CellStateVariant::Road)));
    assert!(!is_hub_or_road(unit_state(CellStateVariant::Feeder)));
}

#[test]
fn bookkeeping_joins_what_is_noted_for_one_source() {
    let joined = insert_or_join(vec![(at(1, 1), 5), (at(2, 2), 7)], |a, b| a + b, at(2, 2), 10);
    assert_eq!(joined, vec![(at(1, 1), 5), (at(2, 2), 17)]);
    let joined = insert_or_join(joined, |a, b| a + b, at(3, 3), 1);
    assert_eq!(joined, vec![(at(1, 1), 5), (at(2, 2), 17), (at(3, 3), 1)]);
    let a = Available { locations: vec![at(0, 0)], borrows: vec![], taken_lp: vec![(at(0, 0), 2)] };
    assert_eq!(
        update_take(a.clone(), 3, at(0, 0)),
        LogisticsState::Available(Available {
            locations: vec![at(0, 0)],
            borrows: vec![],
            taken_lp: vec![(at(0, 0), 5)]
        })
    );
    let b = match update_borrows(a, [-1, 0, -1, 0], at(0, 0)) {
        LogisticsState::Available(b) => b,
        other => panic!("{:?}", other),
    };
    assert_eq!(b.borrows, vec![(at(0, 0), [-1, 0, -1, 0])]);
    assert_eq!(
        update_borrows(b, [-2, 0, -1, 0], at(0, 0)),
        LogisticsState::Available(Available {
            locations: vec![at(0, 0)],
            borrows: vec![(at(0, 0), [-3, 0, -2, 0])],
            taken_lp: vec![(at(0, 0), 2)]
        })
    );
}

#[test]
fn a_worker_is_in_reach_while_a_hub_has_builders_and_points() {
    let mut g = game_with_hub(0);
    assert!(has_worker(at(1, 0), &g));
    assert!(has_worker(at(0, 2), &g));
    assert!(has_worker(at(0, 0), &g));
    assert!(!has_worker(at(3, 0), &g));
    assert!(can_use(at(1, 0), at(0, 0), new_hub()));
    assert!(can_use(at(18, 0), at(0, 0), new_hub()));
    assert!(!can_use(at(19, 0), at(0, 0), new_hub()));
    assert!(!can_use(at(1, 0), at(0, 0), unit_state(CellStateVariant::Hub)));
    let spent = stockpile_to_cell(
        CellStateVariant::Hub,
        [slot(18, 18), slot(0, 50), slot(0, 3), slot(0, 0)],
    );
    assert!(!can_use(at(1, 0), at(0, 0), spent));
    hexgrid::set(at(0, 0), spent, &mut g.matrix);
    assert!(!has_worker(at(1, 0), &g));
}

#[test]
fn the_nearest_source_that_can_serve_does() {
    let mut g = game_with_hub(0);
    for x in 1..=4 {
        do_build(Other::CellStateVariant(CellStateVariant::Road), at(x, 0), &mut g).unwrap();
    }
    do_build(Other::CellStateVariant(CellStateVariant::Hub), at(5, 0), &mut g).unwrap();
    assert_eq!(try_borrow_resources(at(4, -1), new_packet(1, 0), &mut g), Ok(true));
    assert_eq!(ledger(at(5, 0), &mut g), [slot(17, 18), slot(0, 50), slot(2, 3), slot(0, 0)]);
    assert_eq!(ledger(at(0, 0), &mut g), [slot(18, 18), slot(0, 50), slot(3, 3), slot(0, 0)]);
    assert_eq!(try_borrow_resources(at(4, -1), new_packet(2, 0), &mut g), Ok(true));
    assert_eq!(try_borrow_resources(at(4, -1), new_packet(1, 0), &mut g), Ok(true));
    assert_eq!(ledger(at(5, 0), &mut g), [slot(16, 18), slot(0, 50), slot(0, 3), slot(0, 0)]);
    assert_eq!(ledger(at(0, 0), &mut g), [slot(14, 18), slot(0, 50), slot(2, 3), slot(0, 0)]);
    assert_eq!(
        net(at(4, -1), &mut g),
        LogisticsState::Available(Available {
            locations: vec![at(5, 0), at(0, 0)],
            borrows: vec![(at(5, 0), [-2, 0, -3, 0]), (at(0, 0), [-4, 0, -1, 0])],
            taken_lp: vec![]
        })
    );
    assert_eq!(try_borrow_resources(at(4, -1), new_packet(3, 0), &mut g), Ok(false));
    assert_eq!(ledger(at(0, 0), &mut g), [slot(14, 18), slot(0, 50), slot(2, 3), slot(0, 0)]);
}

#[test]
fn what_is_borrowed_comes_back_whole() {
    let mut g = game_with_hub(20);
    for x in 1..=4 {
        do_build(Other::CellStateVariant(CellStateVariant::Road), at(x, 0), &mut g).unwrap();
    }
    do_build(Other::CellStateVariant(CellStateVariant::Hub), at(5, 0), &mut g).unwrap();
    let first = ledger(at(0, 0), &mut g);
    let second = ledger(at(5, 0), &mut g);
    let asked = [
        new_packet(1, 0),
        new_packet(1, 3),
        [0, 5, 1, 0],
        new_packet(9, 0),
        new_packet(1, 0),
        [0, 15, 0, 0],
        new_packet(1, 0),
    ];
    let served = [true, true, true, false, true, true, true];
    for (p, ok) in asked.iter().zip(served) {
        assert_eq!(try_borrow_resources(at(3, 1), *p, &mut g), Ok(ok));
    }
    assert_ne!(ledger(at(0, 0), &mut g), first);
    assert_ne!(ledger(at(5, 0), &mut g), second);
    assert_eq!(return_borrows(at(3, 1), &mut g), Ok(()));
    assert_eq!(ledger(at(0, 0), &mut g), first);
    assert_eq!(ledger(at(5, 0), &mut g), second);
    assert_eq!(net(at(3, 1), &mut g), known(vec![at(5, 0), at(0, 0)]));
    assert_eq!(return_borrows(at(3, 1), &mut g), Ok(()));
    assert_eq!(ledger(at(0, 0), &mut g), first);
}

#[test]
fn what_is_taken_stays_taken_but_the_points_come_back() {
    let mut g = game_with_hub(30);
    assert_eq!(try_take_resources(at(2, 0), [0, 10, 0, 0], &mut g), Ok(true));
    assert_eq!(ledger(at(0, 0), &mut g), [slot(16, 18), slot(20, 50), slot(3, 3), slot(0, 0)]);
    assert_eq!(try_take_resources(at(2, 0), [0, -25, 0, 0], &mut g), Ok(true));
    assert_eq!(ledger(at(0, 0), &mut g), [slot(14, 18), slot(45, 50), slot(3, 3), slot(0, 0)]);
    assert_eq!(try_take_resources(at(2, 0), [0, -10, 0, 0], &mut g), Ok(false));
    assert_eq!(
        net(at(2, 0), &mut g),
        LogisticsState::Available(Available {
            locations: vec![at(0, 0)],
            borrows: vec![],
            taken_lp: vec![(at(0, 0), 4)]
        })
    );
    assert_eq!(return_borrows(at(2, 0), &mut g), Ok(()));
    assert_eq!(ledger(at(0, 0), &mut g), [slot(14, 18), slot(45, 50), slot(3, 3), slot(0, 0)]);
    assert_eq!(return_lp(at(2, 0), &mut g), Ok(()));
    assert_eq!(ledger(at(0, 0), &mut g), [slot(18, 18), slot(45, 50), slot(3, 3), slot(0, 0)]);
    assert_eq!(net(at(2, 0), &mut g), known(vec![at(0, 0)]));
}

#[test]
fn a_request_from_out_of_reach_is_an_error() {
    let mut g = game_with_hub(0);
    assert_eq!(
        try_borrow_resources(at(9, 9), new_packet(1, 0), &mut g),
        Err(InternalError::NotAvailable)
    );
    assert_eq!(
        try_take_resources(at(0, 0), new_packet(1, 0), &mut g),
        Err(InternalError::NotAvailable)
    );
    assert_eq!(return_borrows(at(9, 9), &mut g), Err(InternalError::NotAvailable));
    assert_eq!(return_lp(at(0, 0), &mut g), Err(InternalError::NotAvailable));
    assert_eq!(use_builder(at(9, 9), &mut g), Err(InternalError::NotAvailable));
    assert_eq!(ledger(at(0, 0), &mut g), [slot(18, 18), slot(0, 50), slot(3, 3), slot(0, 0)]);
}

#[test]
fn an_amount_that_cannot_be_undone_is_an_error() {
    let mut g = game_with_hub(0);
    assert_eq!(
        try_borrow_resources(at(1, 0), [0, i32::MIN, 0, 0], &mut g),
        Err(InternalError::Overflow)
    );
    assert_eq!(
        try_take_resources(at(1, 0), [0, 0, 0, i32::MIN], &mut g),
        Err(InternalError::Overflow)
    );
    hexgrid::set(
        at(1, 0),
        LogisticsState::Available(Available {
            locations: vec![at(0, 0)],
            borrows: vec![(at(0, 0), [i32::MIN, 0, 0, 0])],
            taken_lp: vec![],
        }),
        &mut g.logistics_plane,
    );
    assert_eq!(return_borrows(at(1, 0), &mut g), Err(InternalError::Overflow));
    assert_eq!(ledger(at(0, 0), &mut g), [slot(18, 18), slot(0, 50), slot(3, 3), slot(0, 0)]);
}

#[test]
fn a_source_that_refuses_a_return_keeps_the_note() {
    let mut g = game_with_hub(0);
    assert_eq!(try_borrow_resources(at(1, 0), new_packet(1, 0), &mut g), Ok(true));
    hexgrid::set(at(0, 0), new_hub(), &mut g.matrix);
    assert_eq!(return_borrows(at(1, 0), &mut g), Err(InternalError::ReturnRefused));
    assert_eq!(ledger(at(0, 0), &mut g), [slot(18, 18), slot(0, 50), slot(3, 3), slot(0, 0)]);
    assert_eq!(
        net(at(1, 0), &mut g),
        LogisticsState::Available(Available {
            locations: vec![at(0, 0)],
            borrows: vec![(at(0, 0), [-1, 0, -1, 0])],
            taken_lp: vec![]
        })
    );
    assert_eq!(try_take_resources(at(1, 1), [0, 0, 0, 0], &mut g), Ok(true));
    assert_eq!(try_take_resources(at(1, 1), [0, 0, 0, 0], &mut g), Ok(true));
    hexgrid::set(at(0, 0), new_hub(), &mut g.matrix);
    assert_eq!(return_lp(at(1, 1), &mut g), Err(InternalError::ReturnRefused));
}

#[test]
fn menus_offer_what_their_kind_allows() {
    assert_eq!(explore_able(), vec![CellStateVariant::Unused]);
    assert_eq!(
        buildable(),
        vec![CellStateVariant::Industry, CellStateVariant::Extract, CellStateVariant::Infrastructure]
    );
    assert_eq!(
        industry(),
        vec![
            CellStateVariant::Hot,
            CellStateVariant::Insulation,
            CellStateVariant::Feeder,
            CellStateVariant::Back
        ]
    );
    assert_eq!(
        infrastructure(),
        vec![CellStateVariant::Road, CellStateVariant::Hub, CellStateVariant::Back]
    );
    assert_eq!(
        extract(),
        vec![CellStateVariant::WoodCutter, CellStateVariant::Seller, CellStateVariant::Back]
    );
    let g = game_with_hub(0);
    assert_eq!(
        has_actions(at(1, 0), unit_state(CellStateVariant::Hidden), &g),
        Some(explore_able())
    );
    assert_eq!(has_actions(at(1, 0), unit_state(CellStateVariant::Unused), &g), Some(buildable()));
    assert_eq!(has_actions(at(1, 0), unit_state(CellStateVariant::Extract), &g), Some(extract()));
    assert_eq!(has_actions(at(1, 0), unit_state(CellStateVariant::Hot), &g), None);
    assert_eq!(has_actions(at(5, 5), unit_state(CellStateVariant::Unused), &g), None);
}

#[test]
fn menu_entries_change_the_cell_at_once() {
    assert_eq!(
        menu_variant_transition(CellStateVariant::Industry),
        Some(unit_state(CellStateVariant::Industry))
    );
    assert_eq!(
        menu_variant_transition(CellStateVariant::Back),
        Some(unit_state(CellStateVariant::Unused))
    );
    assert_eq!(menu_variant_transition(CellStateVariant::Hot), None);
    let mut g = game_with_hub(0);
    assert_eq!(build(CellStateVariant::Extract, at(1, 0), &mut g), Ok(()));
    assert_eq!(cell(at(1, 0), &mut g), unit_state(CellStateVariant::Extract));
    assert_eq!(build(CellStateVariant::Back, at(1, 0), &mut g), Ok(()));
    assert_eq!(cell(at(1, 0), &mut g), unit_state(CellStateVariant::Unused));
    let ground = cell(at(2, 0), &mut g);
    assert_eq!(
        menu::transition(CellStateVariant::Infrastructure, at(2, 0), &mut g),
        Some(CellState { variant: CellStateVariant::Infrastructure, data: ground.data })
    );
    assert_eq!(
        menu::transition(CellStateVariant::Back, at(2, 0), &mut g),
        Some(CellState { variant: CellStateVariant::Unused, data: ground.data })
    );
    assert_eq!(menu::transition(CellStateVariant::Hub, at(2, 0), &mut g), None);
    assert_eq!(cell(at(2, 0), &mut g), ground);
}

#[test]
fn building_times_and_costs() {
    assert_eq!(buildtime(CellStateVariant::Hot), Some(4));
    assert_eq!(buildtime(CellStateVariant::Feeder), Some(1));
    assert_eq!(buildtime(CellStateVariant::Seller), Some(1));
    assert_eq!(buildtime(CellStateVariant::Insulation), Some(2));
    assert_eq!(buildtime(CellStateVariant::WoodCutter), Some(3));
    assert_eq!(buildtime(CellStateVariant::Road), Some(1));
    assert_eq!(buildtime(CellStateVariant::Hub), None);
    assert_eq!(buildtime_keep_res(CellStateVariant::Unused), Some(2));
    assert_eq!(buildtime_keep_res(CellStateVariant::Hot), None);
    assert_eq!(
        has_buildtime(),
        vec![
            CellStateVariant::Hot,
            CellStateVariant::Insulation,
            CellStateVariant::Feeder,
            CellStateVariant::WoodCutter,
            CellStateVariant::Seller,
            CellStateVariant::Road
        ]
    );
    assert_eq!(max_buildtime(), 4);
    assert_eq!(required_per_build_action(CellStateVariant::Hub), [0, 10, 0, 0]);
    assert_eq!(build_action_req(CellStateVariant::Hub), 10);
    assert_eq!(
        buildcost_cell(CellStateVariant::Hub),
        Some(resource::stockpile_to_cell_with_extra_variant(
            CellStateVariant::Building,
            [slot(0, 0), slot(0, 0), slot(1, 2), slot(0, 10)],
            CellStateVariant::Hub
        ))
    );
    assert_eq!(buildcost_cell(CellStateVariant::Road), None);
    assert_eq!(in_progress_max(CellStateVariant::WoodCutter), 3);
    assert_eq!(in_progress_max(CellStateVariant::Hot), 5);
    assert_eq!(in_progress_max(CellStateVariant::Building), 4);
}

#[test]
fn categories_run_in_the_order_of_the_kinds() {
    assert_eq!(prio(CellStateVariant::Hot), Some(2));
    assert_eq!(prio(CellStateVariant::Feeder), Some(4));
    assert_eq!(prio(CellStateVariant::WoodCutter), Some(5));
    assert_eq!(prio(CellStateVariant::Seller), Some(6));
    assert_eq!(prio(CellStateVariant::Building), Some(8));
    assert_eq!(prio(CellStateVariant::Hub), None);
    assert_eq!(prio(CellStateVariant::Road), None);
    let mut m = actionmachine::new();
    assert_eq!(m.snapshot(), vec![Vec::<Pos>::new(); 16]);
    actionmachine::maybe_insert(&mut m, at(1, 1), CellStateVariant::Hot);
    actionmachine::maybe_insert(&mut m, at(2, 2), CellStateVariant::Hot);
    actionmachine::maybe_insert(&mut m, at(1, 1), CellStateVariant::Hot);
    actionmachine::maybe_insert(&mut m, at(1, 1), CellStateVariant::Building);
    actionmachine::maybe_insert(&mut m, at(3, 3), CellStateVariant::Road);
    assert_eq!(m.snapshot()[2], vec![at(1, 1), at(2, 2)]);
    assert_eq!(m.snapshot()[8], vec![at(1, 1)]);
    actionmachine::remove(&mut m, at(1, 1), CellStateVariant::Hot);
    actionmachine::remove(&mut m, at(9, 9), CellStateVariant::Building);
    actionmachine::remove(&mut m, at(1, 1), CellStateVariant::Hub);
    assert_eq!(m.snapshot()[2], vec![at(2, 2)]);
    assert_eq!(m.snapshot()[8], vec![at(1, 1)]);
}

#[test]
fn the_leak_of_a_structure_depends_on_its_neighbours() {
    let mut g = new_game();
    assert_eq!(leak_delta(CellStateVariant::Hot, at(0, 0), &mut g.matrix), Some(12));
    assert_eq!(leak_delta(CellStateVariant::Insulation, at(0, 0), &mut g.matrix), Some(0));
    assert_eq!(leak_delta(CellStateVariant::Road, at(0, 0), &mut g.matrix), None);
    hexgrid::set(at(0, 1), hot(Slot::Empty), &mut g.matrix);
    hexgrid::set(at(1, 0), hot(Slot::Done), &mut g.matrix);
    hexgrid::set(at(-1, 0), unit_state(CellStateVariant::Insulation), &mut g.matrix);
    hexgrid::set(at(0, 0), hot(Slot::Empty), &mut g.matrix);
    hexgrid::set(at(2, 0), hot(Slot::Empty), &mut g.matrix);
    assert_eq!(leak_delta(CellStateVariant::Hot, at(0, 0), &mut g.matrix), Some(12 - 4 - 4 - 1));
    assert_eq!(leak_delta(CellStateVariant::Insulation, at(0, 0), &mut g.matrix), Some(-2));
    for q in [at(-1, 0), at(-1, 1), at(0, -1), at(0, 1), at(1, 0), at(1, 1)] {
        hexgrid::set(q, hot(Slot::Empty), &mut g.matrix);
    }
    assert_eq!(leak_delta(CellStateVariant::Hot, at(0, 0), &mut g.matrix), Some(-12));
    assert_eq!(leak_delta(CellStateVariant::Insulation, at(0, 0), &mut g.matrix), Some(-6));
}

#[test]
fn a_new_structure_starts_in_its_first_state() {
    let mut g = game_with_hub(0);
    do_build(Other::CellStateVariant(CellStateVariant::Hot), at(1, 0), &mut g).unwrap();
    assert_eq!(cell(at(1, 0), &mut g), hot(Slot::Empty));
    assert_eq!(g.resources, GameResources { tiles: 1, leak: 13, sold: 0 });
    do_build(Other::CellStateVariant(CellStateVariant::Hot), at(1, 1), &mut g).unwrap();
    assert_eq!(g.resources, GameResources { tiles: 2, leak: 21, sold: 0 });
    do_build(Other::CellStateVariant(CellStateVariant::Insulation), at(2, 0), &mut g).unwrap();
    assert_eq!(cell(at(2, 0), &mut g), unit_state(CellStateVariant::Insulation));
    assert_eq!(g.resources, GameResources { tiles: 2, leak: 19, sold: 0 });
    do_build(Other::CellStateVariant(CellStateVariant::WoodCutter), at(0, 1), &mut g).unwrap();
    assert_eq!(cell(at(0, 1), &mut g), counting(CellStateVariant::WoodCutter, 3));
    do_build(Other::CellStateVariant(CellStateVariant::Feeder), at(0, 2), &mut g).unwrap();
    do_build(Other::CellStateVariant(CellStateVariant::Seller), at(-1, 0), &mut g).unwrap();
    let ground = [slot(0, 0), slot(32, 96), slot(5, 0), slot(0, 0)];
    do_build(Other::CvAndRS(CellStateVariant::Unused, ground), at(-1, 1), &mut g).unwrap();
    assert_eq!(
        cell(at(-1, 1), &mut g),
        stockpile_to_cell(
            CellStateVariant::Unused,
            [slot(0, 0), slot(32, 96), slot(5, 0), slot(0, 0)]
        )
    );
    let lists = g.action_machine.snapshot();
    assert_eq!(lists[2], vec![at(1, 0), at(1, 1)]);
    assert_eq!(lists[4], vec![at(0, 2)]);
    assert_eq!(lists[5], vec![at(0, 1)]);
    assert_eq!(lists[6], vec![at(-1, 0)]);
    assert_eq!(lists[8], Vec::<Pos>::new());
}

#[test]
fn what_cannot_be_built_is_an_error_and_changes_nothing() {
    let mut g = game_with_hub(0);
    let before = cell(at(1, 0), &mut g);
    for oth in [
        Other::CellStateVariant(CellStateVariant::Last),
        Other::CellStateVariant(CellStateVariant::Unused),
        Other::CellStateVariant(CellStateVariant::Building),
        Other::CvAndRS(CellStateVariant::Hidden, [slot(0, 0); 4]),
    ] {
        assert_eq!(do_build(oth, at(1, 0), &mut g), Err(InternalError::UnexpectedCell));
    }
    assert_eq!(cell(at(1, 0), &mut g), before);
    assert_eq!(build(CellStateVariant::Last, at(1, 0), &mut g), Err(InternalError::UnexpectedCell));
    hexgrid::set(at(1, 0), unit_state(CellStateVariant::Road), &mut g.matrix);
    assert_eq!(build(CellStateVariant::Unused, at(1, 0), &mut g), Err(InternalError::UnexpectedCell));
    assert_eq!(cell(at(1, 0), &mut g), unit_state(CellStateVariant::Road));
    assert_eq!(g.action_machine.snapshot()[8], Vec::<Pos>::new());
    g.resources.leak = i32::MAX - 11;
    assert_eq!(
        do_build(Other::CellStateVariant(CellStateVariant::Road), at(2, 0), &mut g),
        Err(InternalError::Overflow)
    );
    g.resources = GameResources { tiles: i32::MAX, leak: 0, sold: 0 };
    assert_eq!(
        do_build(Other::CellStateVariant(CellStateVariant::Hot), at(2, 0), &mut g),
        Err(InternalError::Overflow)
    );
}

#[test]
fn an_order_without_a_builder_in_reach_sets_up_nothing() {
    let mut g = game_with_hub(0);
    assert_eq!(build(CellStateVariant::Hot, at(9, 9), &mut g), Err(InternalError::NotAvailable));
    for p in [at(1, 0), at(0, 1), at(1, 1)] {
        assert_eq!(build(CellStateVariant::Road, p, &mut g), Ok(()));
    }
    let ground = cell(at(-1, 0), &mut g);
    assert_eq!(build(CellStateVariant::Road, at(-1, 0), &mut g), Err(InternalError::NotAvailable));
    assert_eq!(cell(at(-1, 0), &mut g), ground);
    assert_eq!(g.action_machine.snapshot()[8], vec![at(1, 0), at(0, 1), at(1, 1)]);
}

#[test]
fn a_wood_cutter_is_built_and_the_builder_comes_back() {
    let mut g = game_with_hub(10);
    assert_eq!(build(CellStateVariant::WoodCutter, at(1, 0), &mut g), Ok(()));
    assert_eq!(
        cell(at(1, 0), &mut g),
        actionmachine::new_in_progress_with_variant(
            CellStateVariant::Building,
            3,
            CellStateVariant::WoodCutter
        )
    );
    assert_eq!(ledger(at(0, 0), &mut g), [slot(17, 18), slot(10, 50), slot(2, 3), slot(0, 0)]);
    assert_eq!(g.action_machine.snapshot()[8], vec![at(1, 0)]);
    assert_eq!(run(&mut g), vec![]);
    assert_eq!(run(&mut g), vec![]);
    assert_eq!(
        cell(at(1, 0), &mut g),
        actionmachine::new_in_progress_with_variant(
            CellStateVariant::Building,
            1,
            CellStateVariant::WoodCutter
        )
    );
    assert_eq!(ledger(at(0, 0), &mut g), [slot(17, 18), slot(10, 50), slot(2, 3), slot(0, 0)]);
    assert_eq!(run(&mut g), vec![]);
    assert_eq!(cell(at(1, 0), &mut g), counting(CellStateVariant::WoodCutter, 3));
    assert_eq!(ledger(at(0, 0), &mut g), [slot(18, 18), slot(10, 50), slot(3, 3), slot(0, 0)]);
    assert_eq!(net(at(1, 0), &mut g), known(vec![at(0, 0)]));
    assert_eq!(g.action_machine.snapshot()[8], Vec::<Pos>::new());
    assert_eq!(g.action_machine.snapshot()[5], vec![at(1, 0)]);
    assert_eq!(run(&mut g), vec![]);
    assert_eq!(run(&mut g), vec![]);
    assert_eq!(cell(at(1, 0), &mut g), counting(CellStateVariant::WoodCutter, 1));
    assert_eq!(run(&mut g), vec![]);
    assert_eq!(cell(at(1, 0), &mut g), counting(CellStateVariant::WoodCutter, 3));
    assert_eq!(ledger(at(0, 0), &mut g), [slot(17, 18), slot(20, 50), slot(3, 3), slot(0, 0)]);
    for _ in 0..3 {
        assert_eq!(run(&mut g), vec![]);
    }
    assert_eq!(ledger(at(0, 0), &mut g), [slot(17, 18), slot(30, 50), slot(3, 3), slot(0, 0)]);
    for _ in 0..9 {
        assert_eq!(run(&mut g), vec![]);
    }
    assert_eq!(ledger(at(0, 0), &mut g), [slot(18, 18), slot(50, 50), slot(3, 3), slot(0, 0)]);
    assert_eq!(cell(at(1, 0), &mut g), counting(CellStateVariant::WoodCutter, 1));
}

#[test]
fn a_feeder_starts_a_heat_producer_and_a_seller_empties_it() {
    let mut g = game_with_hub(0);
    do_build(Other::CellStateVariant(CellStateVariant::Hot), at(5, 5), &mut g).unwrap();
    do_build(Other::CellStateVariant(CellStateVariant::Feeder), at(5, 6), &mut g).unwrap();
    assert_eq!(cell(at(5, 5), &mut g), hot(Slot::Empty));
    assert_eq!(run(&mut g), vec![]);
    assert_eq!(cell(at(5, 5), &mut g), counting(CellStateVariant::Hot, 5));
    for left in [4, 3, 2, 1] {
        assert_eq!(run(&mut g), vec![]);
        assert_eq!(cell(at(5, 5), &mut g), counting(CellStateVariant::Hot, left));
        assert_eq!(cell(at(5, 6), &mut g), unit_state(CellStateVariant::Feeder));
    }
    assert_eq!(run(&mut g), vec![]);
    assert_eq!(cell(at(5, 5), &mut g), hot(Slot::Done));
    assert_eq!(run(&mut g), vec![]);
    assert_eq!(cell(at(5, 5), &mut g), hot(Slot::Done));
    assert_eq!(g.resources.sold, 0);
    do_build(Other::CellStateVariant(CellStateVariant::Seller), at(5, 4), &mut g).unwrap();
    assert_eq!(run(&mut g), vec![]);
    assert_eq!(cell(at(5, 5), &mut g), hot(Slot::Empty));
    assert_eq!(cell(at(5, 4), &mut g), unit_state(CellStateVariant::Seller));
    assert_eq!(g.resources.sold, 1);
    assert_eq!(run(&mut g), vec![]);
    assert_eq!(cell(at(5, 5), &mut g), counting(CellStateVariant::Hot, 5));
    for _ in 0..4 {
        assert_eq!(run(&mut g), vec![]);
        assert_eq!(g.resources.sold, 1);
    }
    assert_eq!(cell(at(5, 5), &mut g), counting(CellStateVariant::Hot, 1));
    assert_eq!(run(&mut g), vec![]);
    assert_eq!(cell(at(5, 5), &mut g), hot(Slot::Empty));
    assert_eq!(g.resources.sold, 2);
    for _ in 0..12 {
        assert_eq!(run(&mut g), vec![]);
    }
    assert_eq!(g.resources.sold, 4);
    assert_eq!(g.resources.tiles, 1);
    g.resources.sold = i32::MAX;
    assert_eq!(run(&mut g), vec![(at(5, 4), InternalError::Overflow)]);
    assert_eq!(g.resources.sold, i32::MAX);
}

#[test]
fn a_feeder_reaches_over_a_row_of_heat_producers() {
    let mut g = new_game();
    for x in 1..=3 {
        hexgrid::set(at(x, 0), hot(Slot::Done), &mut g.matrix);
    }
    hexgrid::set(at(4, 0), hot(Slot::Empty), &mut g.matrix);
    hexgrid::set(at(6, 0), hot(Slot::Empty), &mut g.matrix);
    let feeder = unit_state(CellStateVariant::Feeder);
    assert_eq!(do_tick(at(0, 0), feeder, &mut g), Ok(()));
    assert_eq!(cell(at(4, 0), &mut g), counting(CellStateVariant::Hot, 5));
    assert_eq!(cell(at(6, 0), &mut g), hot(Slot::Empty));
    assert_eq!(do_tick(at(0, 0), feeder, &mut g), Ok(()));
    assert_eq!(cell(at(6, 0), &mut g), hot(Slot::Empty));
    assert_eq!(g.resources.sold, 0);
    let seller = unit_state(CellStateVariant::Seller);
    assert_eq!(do_tick(at(0, 0), seller, &mut g), Ok(()));
    assert_eq!(cell(at(1, 0), &mut g), hot(Slot::Empty));
    assert_eq!(cell(at(2, 0), &mut g), hot(Slot::Done));
    assert_eq!(g.resources.sold, 1);
    assert_eq!(do_tick(at(9, 9), seller, &mut g), Ok(()));
    assert_eq!(g.resources.sold, 1);
}

#[test]
fn a_heat_producer_at_rest_is_left_alone() {
    let mut g = game_with_hub(0);
    do_build(Other::CellStateVariant(CellStateVariant::Hot), at(1, 0), &mut g).unwrap();
    do_build(Other::CellStateVariant(CellStateVariant::Hot), at(1, 1), &mut g).unwrap();
    hexgrid::set(at(1, 1), hot(Slot::Done), &mut g.matrix);
    let counters = g.resources;
    let lists = g.action_machine.snapshot();
    for _ in 0..25 {
        assert_eq!(run(&mut g), vec![]);
        assert_eq!(cell(at(1, 0), &mut g), hot(Slot::Empty));
        assert_eq!(cell(at(1, 1), &mut g), hot(Slot::Done));
    }
    assert_eq!(do_tick(at(1, 0), hot(Slot::Empty), &mut g), Ok(()));
    assert_eq!(do_tick(at(1, 1), hot(Slot::Done), &mut g), Ok(()));
    assert_eq!(g.resources, counters);
    assert_eq!(g.action_machine.snapshot(), lists);
    assert_eq!(cell(at(0, 0), &mut g), new_hub());
}

#[test]
fn a_cell_that_cannot_act_fails_alone() {
    let mut g = game_with_hub(0);
    do_build(Other::CellStateVariant(CellStateVariant::Hot), at(1, 0), &mut g).unwrap();
    do_build(Other::CellStateVariant(CellStateVariant::Feeder), at(1, 1), &mut g).unwrap();
    actionmachine::maybe_insert(&mut g.action_machine, at(7, 7), CellStateVariant::Hot);
    actionmachine::maybe_insert(&mut g.action_machine, at(8, 8), CellStateVariant::Building);
    hexgrid::set(at(8, 8), counting(CellStateVariant::Building, 0), &mut g.matrix);
    assert_eq!(
        run(&mut g),
        vec![
            (at(7, 7), InternalError::UnexpectedCell),
            (at(8, 8), InternalError::UnexpectedCell)
        ]
    );
    assert_eq!(cell(at(1, 0), &mut g), counting(CellStateVariant::Hot, 5));
    assert_eq!(do_tick(at(3, 3), unit_state(CellStateVariant::Road), &mut g), Err(InternalError::UnexpectedCell));
    assert_eq!(do_tick(at(3, 3), new_hub(), &mut g), Err(InternalError::UnexpectedCell));
    assert_eq!(
        do_tick(at(3, 3), unit_state(CellStateVariant::Building), &mut g),
        Err(InternalError::UnexpectedCell)
    );
    assert_eq!(
        do_in_progress(at(3, 3), CellStateVariant::Road, InProgress::Pure(1), &mut g),
        Err(InternalError::UnexpectedCell)
    );
    assert_eq!(
        do_in_progress(
            at(3, 3),
            CellStateVariant::Hot,
            InProgress::WithOther(1, Other::CellStateVariant(CellStateVariant::Hot)),
            &mut g
        ),
        Err(InternalError::UnexpectedCell)
    );
    assert_eq!(
        finalize_build(Other::CellStateVariant(CellStateVariant::Road), at(30, 30), &mut g),
        Err(InternalError::NotAvailable)
    );
}

#[test]
fn a_hub_is_built_with_wood_and_work() {
    let mut g = game_with_hub(50);
    assert_eq!(build(CellStateVariant::Hub, at(2, 0), &mut g), Ok(()));
    assert_eq!(
        cell(at(2, 0), &mut g),
        buildcost_cell(CellStateVariant::Hub).unwrap()
    );
    assert_eq!(ledger(at(0, 0), &mut g), [slot(16, 18), slot(50, 50), slot(2, 3), slot(0, 0)]);
    assert_eq!(run(&mut g), vec![]);
    assert_eq!(ledger(at(2, 0), &mut g), [slot(0, 0), slot(0, 0), slot(2, 2), slot(1, 10)]);
    assert_eq!(ledger(at(0, 0), &mut g), [slot(12, 18), slot(40, 50), slot(1, 3), slot(0, 0)]);
    assert_eq!(run(&mut g), vec![]);
    assert_eq!(ledger(at(2, 0), &mut g), [slot(0, 0), slot(0, 0), slot(2, 2), slot(3, 10)]);
    assert_eq!(ledger(at(0, 0), &mut g), [slot(8, 18), slot(20, 50), slot(0, 3), slot(0, 0)]);
    assert_eq!(run(&mut g), vec![]);
    assert_eq!(ledger(at(2, 0), &mut g), [slot(0, 0), slot(0, 0), slot(2, 2), slot(5, 10)]);
    assert_eq!(ledger(at(0, 0), &mut g), [slot(8, 18), slot(0, 50), slot(0, 3), slot(0, 0)]);
    assert_eq!(run(&mut g), vec![]);
    assert_eq!(ledger(at(2, 0), &mut g), [slot(0, 0), slot(0, 0), slot(2, 2), slot(5, 10)]);
    let hub = cell(at(0, 0), &mut g);
    let hub = resource::add(ResourceType::Wood, hub, 50).unwrap();
    hexgrid::set(at(0, 0), hub, &mut g.matrix);
    assert_eq!(run(&mut g), vec![]);
    assert_eq!(run(&mut g), vec![]);
    assert_eq!(ledger(at(2, 0), &mut g), [slot(0, 0), slot(0, 0), slot(2, 2), slot(9, 10)]);
    assert_eq!(run(&mut g), vec![]);
    assert_eq!(cell(at(2, 0), &mut g), new_hub());
    assert_eq!(net(at(2, 0), &mut g), LogisticsState::Source);
    assert_eq!(ledger(at(0, 0), &mut g), [slot(18, 18), slot(0, 50), slot(3, 3), slot(0, 0)]);
    assert_eq!(net(at(4, 0), &mut g), known(vec![at(2, 0)]));
    assert_eq!(net(at(1, 0), &mut g), known(vec![at(2, 0), at(0, 0)]));
    assert_eq!(g.action_machine.snapshot()[8], Vec::<Pos>::new());
    assert_eq!(
        do_build_progress(
            unit_state(CellStateVariant::Building),
            at(9, 9),
            [slot(0, 0); 4],
            CellStateVariant::Hub,
            &mut g
        ),
        Err(InternalError::NotAvailable)
    );
}

#[test]
fn hidden_ground_is_cleared_and_keeps_its_wood() {
    let mut g = game_with_hub(0);
    assert_eq!(build(CellStateVariant::Unused, at(1, 0), &mut g), Ok(()));
    assert_eq!(
        cell(at(1, 0), &mut g),
        actionmachine::new_in_progress_with_variant_and_resource(
            CellStateVariant::Building,
            2,
            CellStateVariant::Unused,
            [slot(0, 0), slot(32, 96), slot(0, 0), slot(0, 0)]
        )
    );
    assert_eq!(run(&mut g), vec![]);
    assert_eq!(run(&mut g), vec![]);
    assert_eq!(
        cell(at(1, 0), &mut g),
        stockpile_to_cell(
            CellStateVariant::Unused,
            [slot(0, 0), slot(32, 96), slot(0, 0), slot(0, 0)]
        )
    );
    assert_eq!(ledger(at(0, 0), &mut g), [slot(18, 18), slot(0, 50), slot(3, 3), slot(0, 0)]);
}

#[test]
fn nothing_can_be_ordered_before_the_first_hub() {
    let g = new_game();
    assert!(!has_worker(at(0, 0), &g));
    assert_eq!(building::has_actions(at(0, 0), unit_state(CellStateVariant::Unused), &g), None);
    assert_eq!(building::has_actions(at(0, 0), new_hub(), &game_with_hub(0)), None);
}

struct Patchy;

impl CellGen<Patchy> for hexworld::logistics_plane::LogisticsState {
    fn generated(_c: Patchy, _p: Pos) -> Self {
        unreachable!()
    }

    fn new_chunk(_p: Pos, _c: &mut Patchy) -> Chunk<Self> {
        chunk_from_example(LogisticsState::Source)
    }
}

struct Sampled(Vec<Vec<i32>>);

impl CellGen<Sampled> for CellState {
    fn generated(_c: Sampled, _p: Pos) -> Self {
        unreachable!()
    }

    fn new_chunk(_p: Pos, c: &mut Sampled) -> Chunk<Self> {
        hexworld::make_world::ground_chunk(&c.0).unwrap()
    }
}

#[test]
fn generated_ground_comes_from_the_samples() {
    let mut samples = vec![vec![0; 256]; 256];
    samples[3][200] = 77;
    let mut board = hexgrid::new(Sampled(samples), unit_state(CellStateVariant::OutOfBounds));
    assert_eq!(hexgrid::get(at(3, 200), &mut board), hexworld::make_world::ground_cell(77));
    assert_eq!(hexgrid::get(at(259, -56), &mut board), hexworld::make_world::ground_cell(77));
    assert_eq!(hexgrid::get(at(3, 201), &mut board), hexworld::make_world::ground_cell(0));
    let mut plane = hexgrid::new(Patchy, LogisticsState::Unreached);
    assert_eq!(hexgrid::unsafe_get(at(0, 0), &plane), LogisticsState::Unreached);
    assert_eq!(hexgrid::get(at(0, 0), &mut plane), LogisticsState::Source);
}
