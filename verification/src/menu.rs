//! The build menu: what choosing an entry makes of the cell it was chosen on.

use vstd::prelude::*;
use crate::celldata::{CellState, CellStateVariant};
use crate::hexgrid::{self, CellGen, Pos};
use crate::GameState;

verus! {

/// The cell that the entry `cv0` of a menu makes of a cell in the state
/// `old`: an opened menu or the way back to an unused cell, with the state
/// the cell was in.
pub open spec fn menu_step(cv0: CellStateVariant, old: CellState) -> Option<CellState> {
    match cv0 {
        CellStateVariant::Industry | CellStateVariant::Infrastructure | CellStateVariant::Extract => Some(
            CellState { variant: cv0, data: old.data },
        ),
        CellStateVariant::Back => Some(
            CellState { variant: CellStateVariant::Unused, data: old.data },
        ),
        _ => None,
    }
}

/// The cell that the entry `cv0` of a menu makes of the cell at `pos`, for the
/// entries that open a menu or lead back. The cell is read, not written.
pub fn transition<C>(cv0: CellStateVariant, pos: Pos, g: &mut GameState<C>) -> (r: Option<
    CellState,
>) where CellState: CellGen<C>
    ensures
        r == menu_step(cv0, old(g)@.board.values[pos]),
        final(g)@ == (crate::GameView { board: old(g)@.board.touched(pos), ..old(g)@ }),
{
    let old_data = hexgrid::get(pos, &mut g.matrix).data;
    match cv0 {
        CellStateVariant::Industry | CellStateVariant::Infrastructure | CellStateVariant::Extract => Some(
            CellState { variant: cv0, data: old_data },
        ),
        CellStateVariant::Back => Some(
            CellState { variant: CellStateVariant::Unused, data: old_data },
        ),
        _ => None,
    }
}

} // verus!
