//! What a position of the board holds: the kind of structure and its state.

use vstd::prelude::*;
use crate::actionmachine::InProgress;
use crate::hexgrid::{self, positions_of, ring, Board, CellGen, Pos};
use crate::resource::Resource;

verus! {

/// The content of one position: the kind of structure and the state it is in.
/// Not every pair of the two occurs in a game.
#[derive(Debug, Clone, Copy, PartialEq, Eq, Hash)]
pub struct CellState {
    pub variant: CellStateVariant,
    pub data: CellStateData,
}

/// The state of a structure.
#[derive(Debug, Clone, Copy, PartialEq, Eq, Hash)]
pub enum CellStateData {
    Unit,
    Slot { slot: Slot },
    InProgress(InProgress),
    Resource(Resource),
}

/// The state of a structure that is filled and emptied.
#[derive(Debug, Clone, Copy, PartialEq, Eq, Hash, Structural)]
pub enum Slot {
    Empty,
    Done,
}

/// The kinds of structure, with the entries of the build menu among them.
/// `Last` stands for no structure; it closes the list.
#[derive(Debug, Clone, Copy, PartialEq, Eq, Hash, Structural)]
pub enum CellStateVariant {
    Hidden,
    Unused,
    Hot,
    Insulation,
    Feeder,
    WoodCutter,
    Seller,
    InProgress,
    Building,
    Hub,
    Road,
    OutOfBounds,
    Industry,
    Infrastructure,
    Extract,
    Back,
    Last,
}

/// A cell of kind `cv` without further state.
pub fn unit_state(cv: CellStateVariant) -> (c: CellState)
    ensures
        c == (CellState { variant: cv, data: CellStateData::Unit }),
{
    CellState { data: CellStateData::Unit, variant: cv }
}

/// Whether the cell is a heat producer.
pub fn is_hot(c: CellState) -> (r: bool)
    ensures
        r == (c.variant is Hot),
{
    is_hot_v(c.variant)
}

/// Whether `cv` is the heat producer.
pub fn is_hot_v(cv: CellStateVariant) -> (r: bool)
    ensures
        r == (cv is Hot),
{
    match cv {
        CellStateVariant::Hot => true,
        _ => false,
    }
}


/// What a new structure of kind `cv` adds to the leak before its neighbours
/// are looked at, where structures of that kind leak or insulate at all.
pub open spec fn leak_base(cv: CellStateVariant) -> Option<int> {
    match cv {
        CellStateVariant::Insulation => Some(0int),
        CellStateVariant::Hot => Some(12int),
        _ => None,
    }
}

/// What a neighbour of kind `n` changes in the leak of a new structure of kind
/// `cv`.
pub open spec fn leak_effect(cv: CellStateVariant, n: CellStateVariant) -> int {
    match (cv, n) {
        (CellStateVariant::Insulation, CellStateVariant::Hot) => -1,
        (CellStateVariant::Hot, CellStateVariant::Hot) => -4,
        (CellStateVariant::Hot, CellStateVariant::Insulation) => -1,
        _ => 0,
    }
}

/// What the cells at the first `n` of the positions `ps` change in the leak of
/// a new structure of kind `cv`.
pub open spec fn leak_sum(
    cv: CellStateVariant,
    values: Map<Pos, CellState>,
    ps: Seq<Pos>,
    n: int,
) -> int
    decreases n,
{
    if n <= 0 {
        0
    } else {
        leak_sum(cv, values, ps, n - 1) + leak_effect(cv, values[ps[n - 1]].variant)
    }
}

/// What a new structure of kind `cv` at `p` changes in the leak, where the
/// cells at the positions `ring` are its neighbours.
pub open spec fn leak_change(
    cv: CellStateVariant,
    values: Map<Pos, CellState>,
    ring: Seq<Pos>,
) -> int {
    match leak_base(cv) {
        Some(base) => base + leak_sum(cv, values, ring, ring.len() as int),
        None => 0,
    }
}

fn effect_of(cv: CellStateVariant, n: CellStateVariant) -> (r: i32)
    ensures
        r == leak_effect(cv, n),
{
    match (cv, n) {
        (CellStateVariant::Insulation, CellStateVariant::Hot) => -1,
        (CellStateVariant::Hot, CellStateVariant::Hot) => -4,
        (CellStateVariant::Hot, CellStateVariant::Insulation) => -1,
        _ => 0,
    }
}

/// What a new structure of kind `cv` at `p` changes in the leak: its own share
/// and what each of its neighbours adds or takes off. Nothing for a kind that
/// neither leaks nor insulates; the board is then left alone.
pub fn leak_delta<C>(cv: CellStateVariant, p: Pos, m: &mut Board<C>) -> (r: Option<i32>) where
    CellState: CellGen<C>,

    ensures
        leak_base(cv).is_none() ==> r.is_none() && final(m)@ == old(m)@,
        leak_base(cv).is_some() ==> r == Some(leak_change(cv, old(m)@.values, ring(p)) as i32) && -32
            <= leak_change(cv, old(m)@.values, ring(p)) <= 12 && final(m)@ == old(m)@.touched_all(
            hexgrid::disc(p, 1),
        ),
        old(m)@.grown_to(final(m)@),
{
    let base: i32 = match cv {
        CellStateVariant::Insulation => 0,
        CellStateVariant::Hot => 12,
        _ => {
            proof {
                old(m)@.lemma_grown_chain(old(m)@, old(m)@);
            }
            return None;
        },
    };
    let ghost values = m@.values;
    let ns = hexgrid::neighbors(p, m);
    let ghost around = positions_of(ns@);
    let mut sum: i32 = 0;
    let mut i: usize = 0;
    while i < ns.len()
        invariant
            i <= ns.len() <= 8,
            around == positions_of(ns@),
            forall|j: int| 0 <= j < ns.len() ==> (#[trigger] ns[j]).1 == values[ns[j].0],
            sum == leak_sum(cv, values, around, i as int),
            -4 * i <= sum <= 0,
        decreases ns.len() - i,
    {
        assert(around[i as int] == ns[i as int].0);
        sum = sum + effect_of(cv, ns[i].1.variant);
        i = i + 1;
    }
    proof {
        assert(around == ring(p));
        assert(m@ == old(m)@.touched_all(hexgrid::disc(p, 1)));
    }
    Some(base + sum)
}

} // verus!
