//! The ground of the generated world: hidden cells that hold wood.

use vstd::prelude::*;
use crate::celldata::{CellState, CellStateData, CellStateVariant};
use crate::hexgrid::matrix;
use crate::hexgrid::{Chunk, CHUNK_SIZE};
use crate::resource::{self, Resource, ResourceData, ResourceType};

verus! {

broadcast use vstd::array::group_array_axioms;

/// The largest amount of wood on a cell, in display units.
pub const MAX_WOOD: i32 = 6;

/// The number of stored units of wood that make one display unit.
pub const SCALING_WOOD: i32 = 16;

/// The largest amount of wood on a cell, in stored units.
pub const MAX_WOOD_RANGE: i32 = 96;

/// The amount of wood that a sample stands for: the sample itself, held
/// between nothing and the largest amount.
pub open spec fn wood_of(sample: int) -> int {
    if sample < 0 {
        0
    } else if sample > 96 {
        96
    } else {
        sample
    }
}

/// The cell of hidden ground that holds the wood of `sample`.
pub open spec fn ground(sample: int) -> CellState {
    CellState {
        variant: CellStateVariant::Hidden,
        data: CellStateData::Resource(
            Resource::Pure(
                resource::stockpile_from(
                    seq![
                        ResourceData { current: 0, max: 0 },
                        ResourceData { current: wood_of(sample) as i32, max: 96 },
                        ResourceData { current: 0, max: 0 },
                        ResourceData { current: 0, max: 0 },
                    ],
                ),
            ),
        ),
    }
}

/// The cell of hidden ground that holds the wood of `sample`.
pub fn ground_cell(sample: i32) -> (c: CellState)
    ensures
        c == ground(sample as int),
        resource::stockpile_of(c) matches Some(l) && resource::ledger_at_rest(l@),
{
    let wood = if sample < 0 {
        0
    } else if sample > MAX_WOOD_RANGE {
        MAX_WOOD_RANGE
    } else {
        sample
    };
    let mut data: resource::PacketMap = Vec::new();
    data.push((ResourceType::Wood, wood));
    let c = resource::new_pure_stockpile(CellStateVariant::Hidden, data);
    proof {
        reveal_with_fuel(resource::ledger_of_map, 2);
        let entries = seq![
            ResourceData { current: 0, max: 0 },
            ResourceData { current: wood, max: 96 },
            ResourceData { current: 0, max: 0 },
            ResourceData { current: 0, max: 0 },
        ];
        assert(resource::ledger_of_map(CellStateVariant::Hidden, data@, 1) =~= entries);
        let l = resource::stockpile_of(c).unwrap();
        assert(l@ == entries);
    }
    c
}

/// A chunk of hidden ground from one sample of wood for each cell, or nothing
/// where `wood` does not have the measures of a chunk.
pub fn ground_chunk(wood: &Vec<Vec<i32>>) -> (r: Option<Chunk<CellState>>)
    ensures
        r.is_some() <==> (wood.len() == CHUNK_SIZE && forall|i: int|
            0 <= i < wood.len() ==> (#[trigger] wood[i]).len() == CHUNK_SIZE),
        r matches Some(chunk) ==> forall|i: int, j: int|
            0 <= i < CHUNK_SIZE && 0 <= j < CHUNK_SIZE ==> chunk.cells()[i * 256 + j] == ground(
                #[trigger] wood[i][j] as int,
            ),
{
    if wood.len() != CHUNK_SIZE {
        return None;
    }
    let mut rows: Vec<Vec<CellState>> = Vec::new();
    let mut i: usize = 0;
    while i < CHUNK_SIZE
        invariant
            i <= CHUNK_SIZE,
            wood.len() == CHUNK_SIZE,
            rows.len() == i,
            forall|x: int| 0 <= x < i ==> (#[trigger] wood[x]).len() == CHUNK_SIZE,
            forall|x: int| 0 <= x < i ==> (#[trigger] rows[x]).len() == CHUNK_SIZE,
            forall|x: int, y: int|
                0 <= x < i && 0 <= y < CHUNK_SIZE ==> (#[trigger] rows[x][y]) == ground(
                    wood[x][y] as int,
                ),
        decreases CHUNK_SIZE - i,
    {
        if wood[i].len() != CHUNK_SIZE {
            return None;
        }
        let mut row: Vec<CellState> = Vec::new();
        let mut j: usize = 0;
        while j < CHUNK_SIZE
            invariant
                i < CHUNK_SIZE,
                j <= CHUNK_SIZE,
                wood.len() == CHUNK_SIZE,
                wood[i as int].len() == CHUNK_SIZE,
                row.len() == j,
                forall|y: int| 0 <= y < j ==> (#[trigger] row[y]) == ground(wood[i as int][y] as int),
            decreases CHUNK_SIZE - j,
        {
            row.push(ground_cell(wood[i][j]));
            j = j + 1;
        }
        rows.push(row);
        i = i + 1;
    }
    let ghost made = rows@;
    let table = matrix::new(CHUNK_SIZE, CHUNK_SIZE, rows);
    proof {
        assert forall|x: int, y: int| 0 <= x < CHUNK_SIZE && 0 <= y < CHUNK_SIZE implies table.cells()[x
            * 256 + y] == ground(#[trigger] wood[x][y] as int) by {
            assert(table.slot(x, y) == x * 256 + y);
            assert(cloned(made[x][y], table.cells()[table.slot(x, y)]));
        }
    }
    Chunk::from_matrix(table)
}

} // verus!
