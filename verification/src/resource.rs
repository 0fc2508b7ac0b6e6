//! Resource ledgers, the packets of changes applied to them, and the cells
//! that carry a ledger.

use vstd::prelude::*;
use crate::celldata::{CellState, CellStateData, CellStateVariant};
use crate::make_world;

verus! {

broadcast use vstd::array::group_array_axioms;

/// An amount of a resource, or a change of one.
pub type ResourceValue = i32;

/// One entry for each kind of resource.
pub type ResourceContainer<T> = [T; 4];

/// A ledger: for each kind of resource what is there and how much fits.
pub type ResourceStockpile = [ResourceData; 4];

/// A change to a ledger: for each kind of resource the amount to add.
pub type ResourcePacket = [ResourceValue; 4];

/// Amounts by kind, for the kinds that are listed; a later entry for a kind
/// replaces an earlier one.
pub type PacketMap = Vec<(ResourceType, ResourceValue)>;

/// The kinds of resource.
#[derive(Debug, Clone, Copy, PartialEq, PartialOrd, Ord, Eq, Hash, Structural)]
pub enum ResourceType {
    LogisticsPoints,
    Wood,
    Builders,
    BuildTime,
}

/// What a ledger holds of one kind of resource.
#[derive(Debug, Clone, Copy, PartialEq, Eq, Hash)]
pub struct ResourceData {
    pub current: ResourceValue,
    pub max: ResourceValue,
}

/// A ledger, alone or with the kind of structure that the cell is to become.
#[derive(Debug, Clone, Copy, PartialEq, Eq, Hash)]
pub enum Resource {
    Pure(ResourceStockpile),
    WithVariant(ResourceStockpile, CellStateVariant),
}

/// The place of a kind of resource in a ledger or a packet.
pub open spec fn kind_index(t: ResourceType) -> int {
    match t {
        ResourceType::LogisticsPoints => 0,
        ResourceType::Wood => 1,
        ResourceType::Builders => 2,
        ResourceType::BuildTime => 3,
    }
}

/// The kind of resource at place `i`.
pub open spec fn kind_at(i: int) -> ResourceType {
    if i == 0 {
        ResourceType::LogisticsPoints
    } else if i == 1 {
        ResourceType::Wood
    } else if i == 2 {
        ResourceType::Builders
    } else {
        ResourceType::BuildTime
    }
}

fn index_of(t: ResourceType) -> (i: usize)
    ensures
        i == kind_index(t),
        i < 4,
{
    match t {
        ResourceType::LogisticsPoints => 0,
        ResourceType::Wood => 1,
        ResourceType::Builders => 2,
        ResourceType::BuildTime => 3,
    }
}

/// The kinds of resource in the order of their places.
pub fn all_resourcetypes() -> (r: [ResourceType; 4])
    ensures
        forall|i: int| 0 <= i < 4 ==> #[trigger] r[i] == kind_at(i),
{
    [
        ResourceType::LogisticsPoints,
        ResourceType::Wood,
        ResourceType::Builders,
        ResourceType::BuildTime,
    ]
}

/// The ledger with the entries `s`.
pub open spec fn stockpile_from(s: Seq<ResourceData>) -> ResourceStockpile {
    choose|a: ResourceStockpile| a@ == s
}

/// The packet with the entries `s`.
pub open spec fn packet_from(s: Seq<ResourceValue>) -> ResourcePacket {
    choose|a: ResourcePacket| a@ == s
}

/// A ledger is the ledger with its own entries.
pub proof fn lemma_stockpile_from(a: ResourceStockpile)
    ensures
        stockpile_from(a@) == a,
{
    let b = stockpile_from(a@);
    assert(b@ == a@);
    assert(b =~= a);
}

/// A packet is the packet with its own entries.
pub proof fn lemma_packet_from(a: ResourcePacket)
    ensures
        packet_from(a@) == a,
{
    let b = packet_from(a@);
    assert(b@ == a@);
    assert(b =~= a);
}

/// How much of `t` a structure of kind `cv` can hold.
pub open spec fn capacity(cv: CellStateVariant, t: ResourceType) -> int {
    match (cv, t) {
        (CellStateVariant::Hub, ResourceType::LogisticsPoints) => 18,
        (CellStateVariant::Hub, ResourceType::Wood) => 50,
        (CellStateVariant::Hub, ResourceType::Builders) => 3,
        (CellStateVariant::Building, ResourceType::BuildTime) => 10,
        (CellStateVariant::Building, ResourceType::Builders) => 2,
        (CellStateVariant::Hidden, ResourceType::Wood) => 96,
        (CellStateVariant::Unused, ResourceType::Wood) => 96,
        _ => 0,
    }
}

/// How much of `t` a structure of kind `cv` can hold.
pub fn max(cv: CellStateVariant, t: ResourceType) -> (r: i32)
    ensures
        r == capacity(cv, t),
{
    match (cv, t) {
        (CellStateVariant::Hub, ResourceType::LogisticsPoints) => 18,
        (CellStateVariant::Hub, ResourceType::Wood) => 50,
        (CellStateVariant::Hub, ResourceType::Builders) => 3,
        (CellStateVariant::Building, ResourceType::BuildTime) => 10,
        (CellStateVariant::Building, ResourceType::Builders) => 2,
        (CellStateVariant::Hidden, ResourceType::Wood) => make_world::MAX_WOOD_RANGE,
        (CellStateVariant::Unused, ResourceType::Wood) => make_world::MAX_WOOD_RANGE,
        _ => 0,
    }
}

/// The container `r` with the entry for `t` replaced by `new`.
pub fn set<I>(t: ResourceType, new: I, r: ResourceContainer<I>) -> (out: ResourceContainer<I>)
    ensures
        out@ == r@.update(kind_index(t), new),
{
    let mut out = r;
    out[index_of(t)] = new;
    out
}

/// The entries of the packet that changes nothing.
pub open spec fn no_change() -> Seq<ResourceValue> {
    Seq::new(4, |i: int| 0i32)
}

/// The packet that changes nothing.
pub fn empty_packet() -> (p: ResourcePacket)
    ensures
        p@ == no_change(),
{
    let nothing: i32 = 0;
    let p = [nothing;4];
    assert(p@ =~= no_change());
    p
}

/// The entries of the empty ledger of a structure of kind `cv`.
pub open spec fn bare_ledger(cv: CellStateVariant) -> Seq<ResourceData> {
    Seq::new(4, |i: int| ResourceData { current: 0, max: capacity(cv, kind_at(i)) as i32 })
}

/// The ledger of a structure of kind `cv` that holds nothing.
pub fn empty_stockpile(cv: CellStateVariant) -> (s: ResourceStockpile)
    ensures
        s@ == bare_ledger(cv),
{
    let nothing = ResourceData { current: 0, max: 0 };
    let mut ret = [nothing;4];
    let kinds = all_resourcetypes();
    let mut i: usize = 0;
    while i < 4
        invariant
            i <= 4,
            forall|j: int| 0 <= j < 4 ==> #[trigger] kinds[j] == kind_at(j),
            forall|j: int| 0 <= j < i ==> ret[j] == bare_ledger(cv)[j],
            forall|j: int| i <= j < 4 ==> ret[j] == nothing,
        decreases 4 - i,
    {
        let cap = max(cv, kinds[i]);
        ret[i] = ResourceData { current: 0, max: cap };
        i = i + 1;
    }
    assert(ret@ =~= bare_ledger(cv));
    ret
}

/// The ledger `r` with nothing of `t` and room for `new`.
pub fn set_to_empty(t: ResourceType, new: i32, r: ResourceStockpile) -> (out: ResourceStockpile)
    ensures
        out@ == r@.update(kind_index(t), ResourceData { current: 0, max: new }),
{
    let new = ResourceData { current: 0, max: new };
    set(t, new, r)
}

/// The ledger `r` with `new` of `t`, which is all that fits.
pub fn set_to_full(t: ResourceType, new: i32, r: ResourceStockpile) -> (out: ResourceStockpile)
    ensures
        out@ == r@.update(kind_index(t), ResourceData { current: new, max: new }),
{
    let new = ResourceData { current: new, max: new };
    set(t, new, r)
}

/// A cell of kind `cv` that carries the ledger `s`.
pub fn stockpile_to_cell(cv: CellStateVariant, s: ResourceStockpile) -> (c: CellState)
    ensures
        c == (CellState { variant: cv, data: CellStateData::Resource(Resource::Pure(s)) }),
{
    CellState { variant: cv, data: CellStateData::Resource(Resource::Pure(s)) }
}

/// A cell of kind `cv` that carries the ledger `s` and is to become a `to`.
pub fn stockpile_to_cell_with_extra_variant(
    cv: CellStateVariant,
    s: ResourceStockpile,
    to: CellStateVariant,
) -> (c: CellState)
    ensures
        c == (CellState {
            variant: cv,
            data: CellStateData::Resource(Resource::WithVariant(s, to)),
        }),
{
    CellState { variant: cv, data: CellStateData::Resource(Resource::WithVariant(s, to)) }
}

/// The entries of the ledger of a new hub: all builders and logistics points
/// that fit, and no wood.
pub open spec fn hub_ledger() -> Seq<ResourceData> {
    seq![
        ResourceData { current: 18, max: 18 },
        ResourceData { current: 0, max: 50 },
        ResourceData { current: 3, max: 3 },
        ResourceData { current: 0, max: 0 },
    ]
}

/// The cell of a new hub.
pub fn new_hub() -> (c: CellState)
    ensures
        c == (CellState {
            variant: CellStateVariant::Hub,
            data: CellStateData::Resource(Resource::Pure(stockpile_from(hub_ledger()))),
        }),
{
    let cv = CellStateVariant::Hub;
    let mut r: ResourceStockpile = empty_stockpile(cv);
    r = set_to_full(ResourceType::Builders, max(cv, ResourceType::Builders), r);
    r = set_to_empty(ResourceType::Wood, max(cv, ResourceType::Wood), r);
    r = set_to_full(ResourceType::LogisticsPoints, max(cv, ResourceType::LogisticsPoints), r);
    proof {
        assert(r@ =~= hub_ledger());
        lemma_stockpile_from(r);
    }
    stockpile_to_cell(CellStateVariant::Hub, r)
}

/// The entries of the ledger of a structure of kind `cv` after the first `n`
/// entries of `data` have been written into it one after the other.
pub open spec fn ledger_of_map(
    cv: CellStateVariant,
    data: Seq<(ResourceType, ResourceValue)>,
    n: int,
) -> Seq<ResourceData>
    decreases n,
{
    if n <= 0 {
        bare_ledger(cv)
    } else {
        ledger_of_map(cv, data, n - 1).update(
            kind_index(data[n - 1].0),
            ResourceData { current: data[n - 1].1, max: capacity(cv, data[n - 1].0) as i32 },
        )
    }
}

/// The ledger of a structure of kind `cv` that holds the amounts `data`.
pub fn map_to_stockpile(cv: CellStateVariant, data: PacketMap) -> (s: ResourceStockpile)
    ensures
        s@ == ledger_of_map(cv, data@, data.len() as int),
{
    let mut acc = empty_stockpile(cv);
    let mut i: usize = 0;
    while i < data.len()
        invariant
            i <= data.len(),
            acc@ == ledger_of_map(cv, data@, i as int),
        decreases data.len() - i,
    {
        let (t, d) = data[i];
        acc = set(t, ResourceData { current: d, max: max(cv, t) }, acc);
        i = i + 1;
    }
    acc
}

/// A cell of kind `cv` whose ledger holds the amounts `data`.
pub fn new_pure_stockpile(cv: CellStateVariant, data: PacketMap) -> (c: CellState)
    ensures
        c == (CellState {
            variant: cv,
            data: CellStateData::Resource(
                Resource::Pure(stockpile_from(ledger_of_map(cv, data@, data.len() as int))),
            ),
        }),
{
    let s = map_to_stockpile(cv, data);
    proof {
        lemma_stockpile_from(s);
    }
    stockpile_to_cell(cv, s)
}

/// A cell of kind `cv` that is to become a `to` and whose ledger holds the
/// amounts `data`.
pub fn new_stockpile(cv: CellStateVariant, data: PacketMap, to: CellStateVariant) -> (c: CellState)
    ensures
        c == (CellState {
            variant: cv,
            data: CellStateData::Resource(
                Resource::WithVariant(
                    stockpile_from(ledger_of_map(cv, data@, data.len() as int)),
                    to,
                ),
            ),
        }),
{
    let s = map_to_stockpile(cv, data);
    proof {
        lemma_stockpile_from(s);
    }
    stockpile_to_cell_with_extra_variant(cv, s, to)
}

/// The packet that asks for `builders` builders and `lp` logistics points.
pub fn new_packet(builders: i32, lp: i32) -> (p: ResourcePacket)
    ensures
        p@ == seq![lp, 0i32, builders, 0i32],
{
    let mut ret = empty_packet();
    ret = set(ResourceType::Builders, builders, ret);
    ret = set(ResourceType::LogisticsPoints, lp, ret);
    assert(ret@ =~= seq![lp, 0i32, builders, 0i32]);
    ret
}

/// What the ledger `r` holds of `t`.
pub fn get(t: ResourceType, r: ResourceStockpile) -> (v: i32)
    ensures
        v == r[kind_index(t)].current,
{
    r[index_of(t)].current
}

/// Whether an entry with `delta` added stays between nothing and what fits.
pub open spec fn slot_accepts(d: ResourceData, delta: int) -> bool {
    0 <= d.current + delta <= d.max
}

/// Whether the ledger `r` can take `min_capacity` more of `t`.
pub fn has_capacity(t: ResourceType, r: ResourceStockpile, min_capacity: i32) -> (ok: bool)
    ensures
        ok == slot_accepts(r[kind_index(t)], min_capacity as int),
{
    let slot = r[index_of(t)];
    let new_value: i64 = slot.current as i64 + min_capacity as i64;
    new_value <= slot.max as i64 && new_value >= 0
}

/// Whether the ledger holds at least what `req` names of every kind.
pub open spec fn covers(req: Seq<ResourceValue>, r: Seq<ResourceData>) -> bool {
    forall|i: int| 0 <= i < 4 ==> req[i] <= (#[trigger] r[i]).current
}

/// Whether the ledger `r` holds at least what `req` names of every kind.
pub fn has_resources(req: ResourcePacket, r: ResourceStockpile) -> (ok: bool)
    ensures
        ok == covers(req@, r@),
{
    let mut i: usize = 0;
    while i < 4
        invariant
            i <= 4,
            forall|j: int| 0 <= j < i ==> req[j] <= (#[trigger] r[j]).current,
        decreases 4 - i,
    {
        if !(req[i] <= r[i].current) {
            return false;
        }
        i = i + 1;
    }
    true
}

/// The entries of two packets added kind by kind.
pub open spec fn packet_sum(first: Seq<ResourceValue>, second: Seq<ResourceValue>) -> Seq<int> {
    Seq::new(4, |i: int| first[i] + second[i])
}

/// The entries of a packet with every sign turned.
pub open spec fn packet_neg(p: Seq<ResourceValue>) -> Seq<int> {
    Seq::new(4, |i: int| -p[i])
}

/// Every entry is an amount that a packet can hold.
pub open spec fn fits_packet(s: Seq<int>) -> bool {
    forall|i: int| 0 <= i < 4 ==> i32::MIN <= #[trigger] s[i] <= i32::MAX
}

/// The entries `s` as those of a packet.
pub open spec fn as_values(s: Seq<int>) -> Seq<ResourceValue> {
    Seq::new(4, |i: int| s[i] as i32)
}

/// The sum of two packets.
pub fn add_packet_to_packet(first: ResourcePacket, second: ResourcePacket) -> (r: ResourcePacket)
    requires
        fits_packet(packet_sum(first@, second@)),
    ensures
        r@ == as_values(packet_sum(first@, second@)),
{
    let mut r = first;
    let mut i: usize = 0;
    while i < 4
        invariant
            i <= 4,
            fits_packet(packet_sum(first@, second@)),
            forall|j: int| 0 <= j < i ==> r[j] == first[j] + second[j],
            forall|j: int| i <= j < 4 ==> r[j] == first[j],
        decreases 4 - i,
    {
        assert(i32::MIN <= packet_sum(first@, second@)[i as int] <= i32::MAX);
        r[i] = r[i] + second[i];
        i = i + 1;
    }
    assert(r@ =~= as_values(packet_sum(first@, second@)));
    r
}

/// The packet that undoes `first`.
pub fn neg_packet(first: ResourcePacket) -> (r: ResourcePacket)
    requires
        fits_packet(packet_neg(first@)),
    ensures
        r@ == as_values(packet_neg(first@)),
{
    let mut r = first;
    let mut i: usize = 0;
    while i < 4
        invariant
            i <= 4,
            fits_packet(packet_neg(first@)),
            forall|j: int| 0 <= j < i ==> r[j] == -first[j],
            forall|j: int| i <= j < 4 ==> r[j] == first[j],
        decreases 4 - i,
    {
        assert(i32::MIN <= packet_neg(first@)[i as int] <= i32::MAX);
        r[i] = r[i] * -1;
        i = i + 1;
    }
    assert(r@ =~= as_values(packet_neg(first@)));
    r
}

/// The packet `p` with `to_add` more of `t`.
pub fn add_to_packet(t: ResourceType, to_add: i32, p: ResourcePacket) -> (r: ResourcePacket)
    requires
        i32::MIN <= p[kind_index(t)] + to_add <= i32::MAX,
    ensures
        r@ == p@.update(kind_index(t), (p[kind_index(t)] + to_add) as i32),
{
    let mut r = p;
    let i = index_of(t);
    r[i] = r[i] + to_add;
    r
}

/// Whether the ledger can take the packet: every kind that the packet
/// changes stays between nothing and what fits.
pub open spec fn ledger_accepts(p: Seq<ResourceValue>, s: Seq<ResourceData>) -> bool {
    forall|i: int| 0 <= i < 4 ==> (#[trigger] p[i]) != 0 ==> slot_accepts(s[i], p[i] as int)
}

/// The entries of the ledger after the packet has been added.
pub open spec fn ledger_after(p: Seq<ResourceValue>, s: Seq<ResourceData>) -> Seq<ResourceData> {
    Seq::new(4, |i: int| ResourceData { current: (s[i].current + p[i]) as i32, max: s[i].max })
}

/// Adds the packet to the ledger, or refuses it as a whole.
pub fn add_packet_stockpile(p: ResourcePacket, s: ResourceStockpile) -> (r: Option<
    ResourceStockpile,
>)
    ensures
        r.is_some() == ledger_accepts(p@, s@),
        r matches Some(after) ==> after@ == ledger_after(p@, s@),
{
    let mut after = s;
    let kinds = all_resourcetypes();
    let mut i: usize = 0;
    while i < 4
        invariant
            i <= 4,
            forall|j: int| 0 <= j < 4 ==> #[trigger] kinds[j] == kind_at(j),
            forall|j: int| 0 <= j < i ==> (#[trigger] p[j]) != 0 ==> slot_accepts(s[j], p[j] as int),
            forall|j: int| 0 <= j < i ==> after[j] == ledger_after(p@, s@)[j],
            forall|j: int| i <= j < 4 ==> after[j] == s[j],
        decreases 4 - i,
    {
        let delta = p[i];
        if delta != 0 {
            assert(kinds[i as int] == kind_at(i as int));
            if has_capacity(kinds[i], after, delta) {
                after[i].current = after[i].current + delta;
            } else {
                assert(!slot_accepts(s[i as int], p[i as int] as int));
                return None;
            }
        }
        i = i + 1;
    }
    assert(after@ =~= ledger_after(p@, s@));
    Some(after)
}

/// The ledger of a cell that carries one.
pub open spec fn stockpile_of(c: CellState) -> Option<ResourceStockpile> {
    match c.data {
        CellStateData::Resource(Resource::Pure(s)) => Some(s),
        CellStateData::Resource(Resource::WithVariant(s, _)) => Some(s),
        _ => None,
    }
}

/// The cell `c` with its ledger replaced by `s`.
pub open spec fn with_stockpile(c: CellState, s: ResourceStockpile) -> CellState {
    match c.data {
        CellStateData::Resource(Resource::Pure(_)) => CellState {
            variant: c.variant,
            data: CellStateData::Resource(Resource::Pure(s)),
        },
        CellStateData::Resource(Resource::WithVariant(_, to)) => CellState {
            variant: c.variant,
            data: CellStateData::Resource(Resource::WithVariant(s, to)),
        },
        _ => c,
    }
}

/// What adding the packet to the cell gives: the cell with the changed
/// ledger, or nothing where the cell carries no ledger or the ledger refuses
/// the packet.
pub open spec fn cell_after(p: ResourcePacket, c: CellState) -> Option<CellState> {
    match stockpile_of(c) {
        Some(s) => if ledger_accepts(p@, s@) {
            Some(with_stockpile(c, stockpile_from(ledger_after(p@, s@))))
        } else {
            None
        },
        None => None,
    }
}

/// Adds the packet to the ledger of the cell, or refuses it as a whole.
pub fn add_packet(p: ResourcePacket, c: CellState) -> (r: Option<CellState>)
    ensures
        r == cell_after(p, c),
{
    match c {
        CellState { variant: cv, data: CellStateData::Resource(Resource::Pure(resources)) } => {
            if let Some(s) = add_packet_stockpile(p, resources) {
                proof {
                    lemma_stockpile_from(s);
                }
                Some(stockpile_to_cell(cv, s))
            } else {
                None
            }
        },
        CellState {
            variant: cv,
            data: CellStateData::Resource(Resource::WithVariant(resources, cv2)),
        } => {
            if let Some(s) = add_packet_stockpile(p, resources) {
                proof {
                    lemma_stockpile_from(s);
                }
                Some(stockpile_to_cell_with_extra_variant(cv, s, cv2))
            } else {
                None
            }
        },
        _ => None,
    }
}

/// The packet that changes `t` by `to_add` and nothing else.
pub open spec fn single_change(t: ResourceType, to_add: ResourceValue) -> ResourcePacket {
    packet_from(no_change().update(kind_index(t), to_add))
}

/// Adds `to_add` of `t` to the ledger of the cell, or refuses.
pub fn add(t: ResourceType, c: CellState, to_add: i32) -> (r: Option<CellState>)
    ensures
        r == cell_after(single_change(t, to_add), c),
{
    let mut p = empty_packet();
    p = set(t, to_add, p);
    proof {
        lemma_packet_from(p);
    }
    add_packet(p, c)
}

/// The quotient of `a` by a positive `b`, rounded towards zero.
pub open spec fn quotient(a: int, b: int) -> int {
    if a >= 0 {
        a / b
    } else {
        -((-a) / b)
    }
}

/// The number of stored units that make one display unit on a cell of kind `cv`.
pub open spec fn display_factor(cv: CellStateVariant) -> int {
    if cv is Hidden {
        16
    } else {
        1
    }
}

/// The amount `value` of a resource on a cell of kind `cv`, in display units.
pub fn scale(cv: CellStateVariant, _t: ResourceType, value: i32) -> (r: i32)
    ensures
        r == quotient(value as int, display_factor(cv)),
{
    let factor = match cv {
        CellStateVariant::Hidden => make_world::SCALING_WOOD,
        _ => 1,
    };
    value / factor
}

/// The kinds among the first `n` of which the ledger holds something, each
/// with the amount in the display units of a cell of kind `cv`, where that
/// amount is not nothing.
pub open spec fn display_amounts(cv: CellStateVariant, r: Seq<ResourceData>, n: int) -> Seq<
    (ResourceType, ResourceValue),
>
    decreases n,
{
    if n <= 0 {
        Seq::empty()
    } else {
        let rest = display_amounts(cv, r, n - 1);
        let value = quotient(r[n - 1].current as int, display_factor(cv));
        if value > 0 {
            rest.push((kind_at(n - 1), value as i32))
        } else {
            rest
        }
    }
}

/// What the ledger holds, in the display units of a cell of kind `cv`: the
/// kinds of which something shows, each with its amount.
pub fn to_key_value_display_amounts(cv: CellStateVariant, r: ResourceStockpile) -> (out: PacketMap)
    ensures
        out@ == display_amounts(cv, r@, 4),
{
    let mut ret: PacketMap = Vec::new();
    let kinds = all_resourcetypes();
    let mut i: usize = 0;
    while i < 4
        invariant
            i <= 4,
            forall|j: int| 0 <= j < 4 ==> #[trigger] kinds[j] == kind_at(j),
            ret@ == display_amounts(cv, r@, i as int),
        decreases 4 - i,
    {
        assert(kinds[i as int] == kind_at(i as int));
        let value0 = get(kinds[i], r);
        let value = scale(cv, kinds[i], value0);
        if value > 0 {
            ret.push((kinds[i], value));
        }
        i = i + 1;
    }
    ret
}

/// The kinds among the first `n` of which the ledger holds something, each
/// with its amount.
pub open spec fn held_amounts(r: Seq<ResourceData>, n: int) -> Seq<(ResourceType, ResourceValue)>
    decreases n,
{
    if n <= 0 {
        Seq::empty()
    } else {
        let rest = held_amounts(r, n - 1);
        if r[n - 1].current > 0 {
            rest.push((kind_at(n - 1), r[n - 1].current))
        } else {
            rest
        }
    }
}

/// What the ledger holds: the kinds of which there is something, each with
/// its amount.
pub fn to_key_value(r: ResourceStockpile) -> (out: PacketMap)
    ensures
        out@ == held_amounts(r@, 4),
{
    let mut ret: PacketMap = Vec::new();
    let kinds = all_resourcetypes();
    let mut i: usize = 0;
    while i < 4
        invariant
            i <= 4,
            forall|j: int| 0 <= j < 4 ==> #[trigger] kinds[j] == kind_at(j),
            ret@ == held_amounts(r@, i as int),
        decreases 4 - i,
    {
        assert(kinds[i as int] == kind_at(i as int));
        let value = get(kinds[i], r);
        if value > 0 {
            ret.push((kinds[i], value));
        }
        i = i + 1;
    }
    ret
}

/// The entries of the packet that the first `n` entries of `map` describe.
pub open spec fn packet_of_map(map: Seq<(ResourceType, ResourceValue)>, n: int) -> Seq<
    ResourceValue,
>
    decreases n,
{
    if n <= 0 {
        no_change()
    } else {
        packet_of_map(map, n - 1).update(kind_index(map[n - 1].0), map[n - 1].1)
    }
}

/// The packet that changes each listed kind by its amount.
pub fn from_key_value(map: PacketMap) -> (p: ResourcePacket)
    ensures
        p@ == packet_of_map(map@, map.len() as int),
{
    let mut ret = empty_packet();
    let mut i: usize = 0;
    while i < map.len()
        invariant
            i <= map.len(),
            ret@ == packet_of_map(map@, i as int),
        decreases map.len() - i,
    {
        let (t, v) = map[i];
        ret = set(t, v, ret);
        i = i + 1;
    }
    ret
}

/// A ledger at rest: of every kind there is no less than nothing and no more
/// than fits.
pub open spec fn ledger_at_rest(s: Seq<ResourceData>) -> bool {
    forall|i: int| 0 <= i < 4 ==> 0 <= (#[trigger] s[i]).current <= s[i].max
}

/// A packet changes all of a ledger or none of it, and leaves a ledger at
/// rest: where the ledger takes the packet, every kind has changed by the
/// amount in the packet and is again between nothing and what fits; where
/// it refuses, there is no result and so nothing has changed.
pub proof fn lemma_packet_all_or_nothing(p: ResourcePacket, s: ResourceStockpile)
    requires
        ledger_at_rest(s@),
    ensures
        ledger_accepts(p@, s@) ==> {
            &&& ledger_at_rest(ledger_after(p@, s@))
            &&& forall|i: int|
                0 <= i < 4 ==> (#[trigger] ledger_after(p@, s@)[i]).current == s[i].current + p[i]
                    && ledger_after(p@, s@)[i].max == s[i].max
        },
        forall|c: CellState|
            stockpile_of(c) == Some(s) && !ledger_accepts(p@, s@) ==> cell_after(p, c).is_none(),
        forall|c: CellState|
            stockpile_of(c) == Some(s) && ledger_accepts(p@, s@) ==> stockpile_of(
                #[trigger] cell_after(p, c).unwrap(),
            ) == Some(stockpile_from(ledger_after(p@, s@))),
{
    if ledger_accepts(p@, s@) {
        assert forall|i: int| 0 <= i < 4 implies 0 <= (#[trigger] ledger_after(
            p@,
            s@,
        )[i]).current <= ledger_after(p@, s@)[i].max && ledger_after(p@, s@)[i].current
            == s[i].current + p[i] by {
            assert(0 <= s@[i].current <= s@[i].max);
            if p@[i] != 0 {
                assert(slot_accepts(s[i], p[i] as int));
            }
        }
    }
}

} // verus!
