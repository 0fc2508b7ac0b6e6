use hexworld::actionmachine::{
    new_in_progress, new_in_progress_with_other, new_in_progress_with_variant,
    new_in_progress_with_variant_and_resource, InProgress, Other,
};
use hexworld::celldata::{is_hot, is_hot_v, unit_state, CellState, CellStateData, CellStateVariant, Slot};
use hexworld::make_world::{ground_cell, ground_chunk, MAX_WOOD, MAX_WOOD_RANGE, SCALING_WOOD};
use hexworld::resource;
use hexworld::resource::{
    add_packet, add_packet_stockpile, add_packet_to_packet, add_to_packet, all_resourcetypes,
    empty_packet, empty_stockpile, from_key_value, has_capacity, has_resources, map_to_stockpile,
    neg_packet, new_hub, new_packet, new_pure_stockpile, new_stockpile, scale, set_to_empty,
    set_to_full, stockpile_to_cell, stockpile_to_cell_with_extra_variant, to_key_value,
    to_key_value_display_amounts, Resource, ResourceData, ResourceStockpile, ResourceType,
};

fn slot(current: i32, max: i32) -> ResourceData {
    ResourceData { current, max }
}

fn hub_ledger() -> ResourceStockpile {
    [slot(18, 18), slot(0, 50), slot(3, 3), slot(0, 0)]
}

#[test]
fn a_new_hub_is_full_of_builders_and_points() {
    let hub = new_hub();
    assert_eq!(hub.variant, CellStateVariant::Hub);
    assert_eq!(hub.data, CellStateData::Resource(Resource::Pure(hub_ledger())));
}

#[test]
fn the_kinds_stand_in_their_places() {
    assert_eq!(
        all_resourcetypes(),
        [
            ResourceType::LogisticsPoints,
            ResourceType::Wood,
            ResourceType::Builders,
            ResourceType::BuildTime
        ]
    );
    let l = hub_ledger();
    assert_eq!(resource::get(ResourceType::LogisticsPoints, l), 18);
    assert_eq!(resource::get(ResourceType::Wood, l), 0);
    assert_eq!(resource::get(ResourceType::Builders, l), 3);
    assert_eq!(resource::get(ResourceType::BuildTime, l), 0);
}

#[test]
fn what_fits_depends_on_the_kind_of_structure() {
    assert_eq!(resource::max(CellStateVariant::Hub, ResourceType::LogisticsPoints), 18);
    assert_eq!(resource::max(CellStateVariant::Hub, ResourceType::Wood), 50);
    assert_eq!(resource::max(CellStateVariant::Hub, ResourceType::Builders), 3);
    assert_eq!(resource::max(CellStateVariant::Building, ResourceType::BuildTime), 10);
    assert_eq!(resource::max(CellStateVariant::Building, ResourceType::Builders), 2);
    assert_eq!(resource::max(CellStateVariant::Hidden, ResourceType::Wood), 96);
    assert_eq!(resource::max(CellStateVariant::Unused, ResourceType::Wood), 96);
    assert_eq!(resource::max(CellStateVariant::Hot, ResourceType::Wood), 0);
    assert_eq!(resource::max(CellStateVariant::Hub, ResourceType::BuildTime), 0);
}

#[test]
fn empty_ledgers_and_packets() {
    assert_eq!(empty_packet(), [0, 0, 0, 0]);
    assert_eq!(
        empty_stockpile(CellStateVariant::Building),
        [slot(0, 0), slot(0, 0), slot(0, 2), slot(0, 10)]
    );
    assert_eq!(empty_stockpile(CellStateVariant::Road), [slot(0, 0); 4]);
    let l = set_to_full(ResourceType::Wood, 7, empty_stockpile(CellStateVariant::Road));
    assert_eq!(l, [slot(0, 0), slot(7, 7), slot(0, 0), slot(0, 0)]);
    let l = set_to_empty(ResourceType::Builders, 4, l);
    assert_eq!(l, [slot(0, 0), slot(7, 7), slot(0, 4), slot(0, 0)]);
    assert_eq!(resource::set(ResourceType::BuildTime, 5, [1, 2, 3, 4]), [1, 2, 3, 5]);
}

#[test]
fn a_ledger_from_listed_amounts() {
    let l = map_to_stockpile(
        CellStateVariant::Hub,
        vec![(ResourceType::Wood, 12), (ResourceType::Builders, 1), (ResourceType::Wood, 20)],
    );
    assert_eq!(l, [slot(0, 18), slot(20, 50), slot(1, 3), slot(0, 0)]);
    let c = new_pure_stockpile(CellStateVariant::Hidden, vec![(ResourceType::Wood, 40)]);
    assert_eq!(
        c,
        stockpile_to_cell(
            CellStateVariant::Hidden,
            [slot(0, 0), slot(40, 96), slot(0, 0), slot(0, 0)]
        )
    );
    let c = new_stockpile(
        CellStateVariant::Building,
        vec![(ResourceType::Builders, 1)],
        CellStateVariant::Hub,
    );
    assert_eq!(
        c,
        stockpile_to_cell_with_extra_variant(
            CellStateVariant::Building,
            [slot(0, 0), slot(0, 0), slot(1, 2), slot(0, 10)],
            CellStateVariant::Hub
        )
    );
}

#[test]
fn packets_are_built_added_and_turned() {
    assert_eq!(new_packet(1, 5), [5, 0, 1, 0]);
    assert_eq!(from_key_value(vec![(ResourceType::Wood, -10)]), [0, -10, 0, 0]);
    assert_eq!(
        from_key_value(vec![(ResourceType::Wood, 1), (ResourceType::BuildTime, 2), (ResourceType::Wood, 3)]),
        [0, 3, 0, 2]
    );
    assert_eq!(from_key_value(vec![]), [0, 0, 0, 0]);
    assert_eq!(add_packet_to_packet([1, 2, 3, 4], [10, -20, 30, -40]), [11, -18, 33, -36]);
    assert_eq!(neg_packet([1, -2, 0, i32::MAX]), [-1, 2, 0, -i32::MAX]);
    assert_eq!(add_to_packet(ResourceType::LogisticsPoints, -3, [5, 0, 1, 0]), [2, 0, 1, 0]);
    assert_eq!(add_packet_to_packet([1, 2, 3, 4], neg_packet([1, 2, 3, 4])), empty_packet());
}

#[test]
fn room_is_between_nothing_and_what_fits() {
    let l = [slot(5, 10), slot(0, 0), slot(3, 3), slot(-1, 4)];
    assert!(has_capacity(ResourceType::LogisticsPoints, l, 5));
    assert!(!has_capacity(ResourceType::LogisticsPoints, l, 6));
    assert!(has_capacity(ResourceType::LogisticsPoints, l, -5));
    assert!(!has_capacity(ResourceType::LogisticsPoints, l, -6));
    assert!(has_capacity(ResourceType::Wood, l, 0));
    assert!(!has_capacity(ResourceType::Wood, l, 1));
    assert!(!has_capacity(ResourceType::BuildTime, l, 0));
    assert!(has_capacity(ResourceType::BuildTime, l, 1));
    assert!(!has_capacity(ResourceType::LogisticsPoints, l, i32::MAX));
    assert!(!has_capacity(ResourceType::LogisticsPoints, l, i32::MIN));
}

#[test]
fn a_ledger_covers_a_request_kind_by_kind() {
    let l = hub_ledger();
    assert!(has_resources([18, 0, 3, 0], l));
    assert!(has_resources([1, -5, 1, 0], l));
    assert!(!has_resources([19, 0, 1, 0], l));
    assert!(!has_resources([1, 0, 1, 1], l));
}

#[test]
fn a_packet_is_taken_whole_or_not_at_all() {
    let l = hub_ledger();
    assert_eq!(
        add_packet_stockpile([-2, 10, -1, 0], l),
        Some([slot(16, 18), slot(10, 50), slot(2, 3), slot(0, 0)])
    );
    assert_eq!(add_packet_stockpile([-2, 10, -4, 0], l), None);
    assert_eq!(add_packet_stockpile([-2, 10, -1, 1], l), None);
    assert_eq!(add_packet_stockpile([1, 0, 0, 0], l), None);
    assert_eq!(add_packet_stockpile([0, 0, 0, 0], l), Some(l));
    let odd = [slot(-5, 3), slot(0, 0), slot(0, 0), slot(0, 0)];
    assert_eq!(add_packet_stockpile([0, 0, 0, 0], odd), Some(odd));
    assert_eq!(add_packet_stockpile([1, 0, 0, 0], odd), None);
    assert_eq!(
        add_packet_stockpile([6, 0, 0, 0], odd),
        Some([slot(1, 3), slot(0, 0), slot(0, 0), slot(0, 0)])
    );
}

#[test]
fn every_step_of_a_run_of_packets_leaves_the_ledger_at_rest() {
    let mut l = hub_ledger();
    let packets = [
        [-1, 10, -1, 0],
        [-18, 0, 0, 0],
        [-5, 45, -2, 0],
        [-12, 40, -2, 0],
        [14, 0, 0, 0],
        [0, -51, 0, 0],
        [13, -50, 3, 0],
        [0, 0, 0, 1],
    ];
    let taken = [true, false, false, true, false, false, true, false];
    for (p, ok) in packets.iter().zip(taken) {
        let before = l;
        match add_packet_stockpile(*p, l) {
            Some(after) => {
                assert!(ok);
                for i in 0..4 {
                    assert_eq!(after[i].current, before[i].current + p[i]);
                    assert_eq!(after[i].max, before[i].max);
                }
                l = after;
            }
            None => {
                assert!(!ok);
            }
        }
        for s in l {
            assert!(0 <= s.current && s.current <= s.max);
        }
    }
    assert_eq!(l, hub_ledger());
}

#[test]
fn a_packet_goes_into_the_ledger_of_a_cell() {
    let hub = new_hub();
    assert_eq!(
        add_packet([-1, 0, -1, 0], hub),
        Some(stockpile_to_cell(
            CellStateVariant::Hub,
            [slot(17, 18), slot(0, 50), slot(2, 3), slot(0, 0)]
        ))
    );
    assert_eq!(add_packet([0, 0, -4, 0], hub), None);
    assert_eq!(add_packet([0, 0, 0, 0], unit_state(CellStateVariant::Road)), None);
    assert_eq!(add_packet([0, 0, 0, 0], new_in_progress(CellStateVariant::Hot, 2)), None);
    let site = stockpile_to_cell_with_extra_variant(
        CellStateVariant::Building,
        [slot(0, 0), slot(0, 0), slot(1, 2), slot(0, 10)],
        CellStateVariant::Hub,
    );
    assert_eq!(
        resource::add(ResourceType::BuildTime, site, 2),
        Some(stockpile_to_cell_with_extra_variant(
            CellStateVariant::Building,
            [slot(0, 0), slot(0, 0), slot(1, 2), slot(2, 10)],
            CellStateVariant::Hub,
        ))
    );
    assert_eq!(resource::add(ResourceType::Builders, site, 2), None);
    assert_eq!(resource::add(ResourceType::Wood, hub, 10).map(|c| c.variant), Some(CellStateVariant::Hub));
}

#[test]
fn amounts_are_listed_for_display() {
    let l = [slot(3, 18), slot(40, 96), slot(0, 3), slot(-2, 0)];
    assert_eq!(
        to_key_value(l),
        vec![(ResourceType::LogisticsPoints, 3), (ResourceType::Wood, 40)]
    );
    assert_eq!(
        to_key_value_display_amounts(CellStateVariant::Hub, l),
        vec![(ResourceType::LogisticsPoints, 3), (ResourceType::Wood, 40)]
    );
    assert_eq!(
        to_key_value_display_amounts(CellStateVariant::Hidden, l),
        vec![(ResourceType::Wood, 2)]
    );
    assert_eq!(to_key_value([slot(0, 0); 4]), vec![]);
    assert_eq!(scale(CellStateVariant::Hidden, ResourceType::Wood, 96), 6);
    assert_eq!(scale(CellStateVariant::Hidden, ResourceType::Wood, 15), 0);
    assert_eq!(scale(CellStateVariant::Hidden, ResourceType::Wood, -17), -1);
    assert_eq!(scale(CellStateVariant::Unused, ResourceType::Wood, 96), 96);
}

#[test]
fn cells_in_progress_carry_their_countdown() {
    assert_eq!(
        new_in_progress(CellStateVariant::Hot, 5),
        CellState {
            variant: CellStateVariant::Hot,
            data: CellStateData::InProgress(InProgress::Pure(5))
        }
    );
    assert_eq!(
        new_in_progress_with_variant(CellStateVariant::Building, 3, CellStateVariant::Road).data,
        CellStateData::InProgress(InProgress::WithOther(
            3,
            Other::CellStateVariant(CellStateVariant::Road)
        ))
    );
    assert_eq!(
        new_in_progress_with_variant_and_resource(
            CellStateVariant::Building,
            2,
            CellStateVariant::Unused,
            hub_ledger()
        ),
        new_in_progress_with_other(
            CellStateVariant::Building,
            2,
            Other::CvAndRS(CellStateVariant::Unused, hub_ledger())
        )
    );
}

#[test]
fn only_the_heat_producer_is_hot() {
    assert!(is_hot_v(CellStateVariant::Hot));
    assert!(!is_hot_v(CellStateVariant::Insulation));
    assert!(is_hot(new_in_progress(CellStateVariant::Hot, 1)));
    assert!(is_hot(CellState {
        variant: CellStateVariant::Hot,
        data: CellStateData::Slot { slot: Slot::Done }
    }));
    assert!(!is_hot(unit_state(CellStateVariant::Feeder)));
    assert_eq!(unit_state(CellStateVariant::Road).data, CellStateData::Unit);
}

#[test]
fn ground_holds_the_wood_of_its_sample() {
    assert_eq!(MAX_WOOD * SCALING_WOOD, MAX_WOOD_RANGE);
    assert_eq!(
        ground_cell(40),
        stockpile_to_cell(
            CellStateVariant::Hidden,
            [slot(0, 0), slot(40, 96), slot(0, 0), slot(0, 0)]
        )
    );
    assert_eq!(ground_cell(-1), ground_cell(0));
    assert_eq!(ground_cell(97), ground_cell(96));
    assert_eq!(ground_cell(i32::MAX), ground_cell(96));
    assert_ne!(ground_cell(95), ground_cell(96));
    assert!(ground_chunk(&vec![vec![1; 256]; 255]).is_none());
    assert!(ground_chunk(&vec![vec![1; 255]; 256]).is_none());
    let mut samples = vec![vec![7; 256]; 256];
    samples[255][3] = 5;
    assert!(ground_chunk(&samples).is_some());
    samples[255].pop();
    assert!(ground_chunk(&samples).is_none());
}
