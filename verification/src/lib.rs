//! Simulation core of a hex-grid production game.
//!
//! - [`hexgrid`]: positions, distances, and the unbounded grid of cells that is
//!   stored in chunks and generated when first read or written.
//! - [`resource`]: ledgers of what a cell holds and the packets of changes
//!   that a ledger takes whole or not at all.
//! - [`celldata`]: what a cell is: a kind of structure and the state it is in.
//! - [`logistics_plane`]: the network of hubs and roads over which positions
//!   borrow builders and draw resources, at a price in logistics points.
//! - [`actionmachine`]: the scheduler that lets every entered cell act once a
//!   turn, category after category.
//! - [`building`]: construction, from the order to the finished structure.
//! - [`menu`] and [`make_world`]: the steps of the build menu and the ground of
//!   the generated world.
//!
//! Every function here is verified against its contract. What a contract
//! says of cells that a generator made rests on the promise that an
//! implementation of [`hexgrid::CellGen`] gives.

use vstd::prelude::*;

pub mod actionmachine;
pub mod building;
pub mod celldata;
pub mod hexgrid;
pub mod logistics_plane;
pub mod make_world;
pub mod menu;
pub mod resource;

verus! {

/// Why a step of the game could not be carried out. None of these occurs in a
/// game that was only ever changed through this library.
#[derive(Debug, Clone, Copy, PartialEq, Eq, Hash, Structural)]
pub enum InternalError {
    /// A cell does not have the kind or the state that the step needs.
    UnexpectedCell,
    /// The position is not within reach of a logistics network.
    NotAvailable,
    /// A source refused to take back what was drawn from it.
    ReturnRefused,
    /// An amount left the range of the numbers that hold it.
    Overflow,
}

/// The counters of the heat economy. The efficiency of the heat producers is
/// the number of tiles divided by the leak.
#[derive(Debug, Clone, Copy, PartialEq, Eq, Hash)]
pub struct GameResources {
    /// The number of heat producers.
    pub tiles: i32,
    /// The heat that leaks from the heat producers.
    pub leak: i32,
    /// The number of loads of heat that sellers have sold.
    pub sold: i32,
}

/// The world of one game.
pub struct GameState<C> where celldata::CellState: hexgrid::CellGen<C> {
    pub matrix: hexgrid::Board<C>,
    pub logistics_plane: logistics_plane::LogisticsPlane,
    pub resources: GameResources,
    pub action_machine: actionmachine::ActionMachine,
}

/// What a game holds: the board, the state of the logistics network at every
/// position, the positions that act each turn by category, and the counters.
pub struct GameView {
    pub board: hexgrid::GridView<celldata::CellState>,
    pub net: Map<hexgrid::Pos, logistics_plane::LogisticsView>,
    pub buckets: Seq<Seq<hexgrid::Pos>>,
    pub resources: GameResources,
}

impl<C> View for GameState<C> where celldata::CellState: hexgrid::CellGen<C> {
    type V = GameView;

    open spec fn view(&self) -> GameView {
        GameView {
            board: self.matrix@,
            net: logistics_plane::net_of(self.logistics_plane@),
            buckets: self.action_machine@,
            resources: self.resources,
        }
    }
}

} // verus!
