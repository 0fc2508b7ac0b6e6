//! Giving back what was borrowed and the logistics points that were used.

use vstd::prelude::*;
use crate::celldata::CellState;
use crate::hexgrid::{self, Board, CellGen, GridView, Pos};
use crate::logistics_plane::{
    can_negate, get_available, negated, plane_set, Available, AvailableView, LogisticsState,
    LogisticsView,
};
use crate::resource::{self, ResourcePacket, ResourceType, ResourceValue};
use crate::{GameState, GameView, InternalError};

verus! {

broadcast use vstd::array::group_array_axioms;

/// What adding the packets `adds`, each to the cell at its position and one
/// after the other, makes of the board, and how many of them were added: the
/// first packet that a cell refuses ends the run.
pub open spec fn applied_all(board: GridView<CellState>, adds: Seq<(Pos, ResourcePacket)>) -> (
    GridView<CellState>,
    int,
)
    decreases adds.len(),
{
    if adds.len() == 0 {
        (board, 0)
    } else {
        match resource::cell_after(adds[0].1, board.values[adds[0].0]) {
            Some(c1) => {
                let rest = applied_all(board.put(adds[0].0, c1), adds.drop_first());
                (rest.0, rest.1 + 1)
            },
            None => (board.touched(adds[0].0), 0),
        }
    }
}

fn apply_all<C>(adds: &Vec<(Pos, ResourcePacket)>, board: &mut Board<C>) -> (n: usize) where
    CellState: CellGen<C>,

    ensures
        (final(board)@, n as int) == applied_all(old(board)@, adds@),
        n <= adds.len(),
{
    let mut i: usize = 0;
    let mut refused = false;
    proof {
        assert(adds@.skip(0) =~= adds@);
    }
    while i < adds.len() && !refused
        invariant
            i <= adds.len(),
            refused ==> applied_all(old(board)@, adds@) == (board@, i as int),
            !refused ==> applied_all(old(board)@, adds@) == (
                applied_all(board@, adds@.skip(i as int)).0,
                applied_all(board@, adds@.skip(i as int)).1 + i,
            ),
        decreases adds.len() - i + (if refused { 0int } else { 1int }),
    {
        let (at, packet) = adds[i];
        let ghost rest = adds@.skip(i as int);
        let ghost here = board@;
        proof {
            assert(rest[0] == adds[i as int]);
            assert(rest.drop_first() =~= adds@.skip(i + 1));
        }
        let c0 = hexgrid::get(at, board);
        match resource::add_packet(packet, c0) {
            Some(c1) => {
                hexgrid::set(at, c1, board);
                proof {
                    assert(board@.realized =~= here.put(at, c1).realized);
                }
                i = i + 1;
            },
            None => {
                refused = true;
            },
        }
    }
    proof {
        if !refused {
            assert(adds@.skip(i as int) =~= Seq::<(Pos, ResourcePacket)>::empty());
        }
    }
    i
}

/// How many entries at the start of `entries` hold a packet that can be undone
/// in the range of a packet.
pub open spec fn undo_count(entries: Seq<(Pos, ResourcePacket)>) -> int
    decreases entries.len(),
{
    if entries.len() == 0 {
        0
    } else if !resource::fits_packet(resource::packet_neg(entries[0].1@)) {
        0
    } else {
        1 + undo_count(entries.drop_first())
    }
}

/// The packets that give back what `entries` note, as far as they can be
/// written down.
pub open spec fn undo_list(entries: Seq<(Pos, ResourcePacket)>) -> Seq<(Pos, ResourcePacket)> {
    Seq::new(undo_count(entries) as nat, |i: int| (entries[i].0, negated(entries[i].1)))
}

proof fn lemma_undo_count(entries: Seq<(Pos, ResourcePacket)>, n: int)
    requires
        0 <= n <= entries.len(),
        forall|j: int|
            0 <= j < n ==> resource::fits_packet(resource::packet_neg((#[trigger] entries[j]).1@)),
        n < entries.len() ==> !resource::fits_packet(resource::packet_neg(entries[n].1@)),
    ensures
        undo_count(entries) == n,
    decreases entries.len(),
{
    if entries.len() > 0 && n > 0 {
        assert(resource::fits_packet(resource::packet_neg(entries[0].1@)));
        let rest = entries.drop_first();
        assert forall|j: int| 0 <= j < n - 1 implies resource::fits_packet(
            resource::packet_neg((#[trigger] rest[j]).1@),
        ) by {
            assert(rest[j] == entries[j + 1]);
        }
        lemma_undo_count(rest, n - 1);
    }
}

/// Where every note can be undone, there is a packet to give back for each.
pub proof fn lemma_undo_all(entries: Seq<(Pos, ResourcePacket)>)
    requires
        forall|j: int|
            0 <= j < entries.len() ==> resource::fits_packet(
                resource::packet_neg((#[trigger] entries[j]).1@),
            ),
    ensures
        undo_count(entries) == entries.len(),
{
    lemma_undo_count(entries, entries.len() as int);
}

fn undo_packets(entries: &Vec<(Pos, ResourcePacket)>) -> (r: Vec<(Pos, ResourcePacket)>)
    ensures
        r@ == undo_list(entries@),
        r.len() <= entries.len(),
{
    let mut out: Vec<(Pos, ResourcePacket)> = Vec::new();
    let mut i: usize = 0;
    let mut stop = false;
    while i < entries.len() && !stop
        invariant
            i <= entries.len(),
            out.len() == i,
            forall|j: int|
                0 <= j < i ==> resource::fits_packet(
                    resource::packet_neg((#[trigger] entries[j]).1@),
                ),
            forall|j: int| 0 <= j < i ==> out[j] == (entries[j].0, negated(entries[j].1)),
            stop ==> i < entries.len() && !resource::fits_packet(
                resource::packet_neg(entries[i as int].1@),
            ),
        decreases entries.len() - i + (if stop { 0int } else { 1int }),
    {
        let (at, b) = entries[i];
        if can_negate(&b) {
            let b1 = resource::neg_packet(b);
            proof {
                resource::lemma_packet_from(b1);
            }
            out.push((at, b1));
            i = i + 1;
        } else {
            stop = true;
        }
    }
    proof {
        lemma_undo_count(entries@, i as int);
        assert(out@ =~= undo_list(entries@));
    }
    out
}

fn tail_of<V: Copy>(v: &Vec<V>, from: usize) -> (r: Vec<V>)
    requires
        from <= v.len(),
    ensures
        r@ == v@.skip(from as int),
{
    let mut out: Vec<V> = Vec::new();
    let mut i: usize = from;
    while i < v.len()
        invariant
            from <= i <= v.len(),
            out@ == v@.subrange(from as int, i as int),
        decreases v.len() - i,
    {
        out.push(v[i]);
        assert(v@.subrange(from as int, i + 1) =~= v@.subrange(from as int, i as int).push(
            v[i as int],
        ));
        i = i + 1;
    }
    assert(v@.subrange(from as int, i as int) =~= v@.skip(from as int));
    out
}

/// What giving back the borrows of `pos` makes of the game, and what it
/// reports.
///
/// Each source from which `pos` has borrowed gets back what is noted for it,
/// one source after the other, and the note is struck. The first source that
/// refuses ends the run: what was given back stays given back and is no
/// longer noted, the rest stays noted, and the report is an error. So is it
/// where a note cannot be undone in the range of a packet, or where `pos` is
/// not within reach of a network.
pub open spec fn returned_borrows(g: GameView, pos: Pos) -> (GameView, Result<(), InternalError>) {
    match g.net[pos] {
        LogisticsView::Available(a) => {
            let undo = undo_list(a.borrows);
            let (board, n) = applied_all(g.board, undo);
            (
                GameView {
                    board,
                    net: g.net.insert(
                        pos,
                        LogisticsView::Available(
                            AvailableView { borrows: a.borrows.skip(n), ..a },
                        ),
                    ),
                    ..g
                },
                if n == a.borrows.len() {
                    Ok(())
                } else if n < undo.len() {
                    Err(InternalError::ReturnRefused)
                } else {
                    Err(InternalError::Overflow)
                },
            )
        },
        _ => (g, Err(InternalError::NotAvailable)),
    }
}

/// Gives back to each source what `pos` has borrowed from it; see
/// [`returned_borrows`].
pub fn return_borrows<C>(pos: Pos, g: &mut GameState<C>) -> (r: Result<(), InternalError>) where
    CellState: CellGen<C>,

    ensures
        final(g)@ == returned_borrows(old(g)@, pos).0,
        r == returned_borrows(old(g)@, pos).1,
{
    let a = match get_available(pos, g) {
        Some(a) => a,
        None => {
            return Err(InternalError::NotAvailable);
        },
    };
    let Available { locations, borrows, taken_lp } = a;
    let undo = undo_packets(&borrows);
    let n = apply_all(&undo, &mut g.matrix);
    let left = tail_of(&borrows, n);
    let all = n == borrows.len();
    let refused = n < undo.len();
    plane_set(
        pos,
        LogisticsState::Available(Available { locations, borrows: left, taken_lp }),
        &mut g.logistics_plane,
    );
    if all {
        Ok(())
    } else if refused {
        Err(InternalError::ReturnRefused)
    } else {
        Err(InternalError::Overflow)
    }
}

/// The packets that give back the logistics points that `entries` note.
pub open spec fn refund_list(entries: Seq<(Pos, ResourceValue)>) -> Seq<(Pos, ResourcePacket)> {
    Seq::new(
        entries.len(),
        |i: int| (entries[i].0, resource::single_change(ResourceType::LogisticsPoints, entries[i].1)),
    )
}

/// What giving back the logistics points that `pos` has used makes of the
/// game, and what it reports.
///
/// Each source at which `pos` has used logistics points gets them back, one
/// source after the other, and the note is struck. The first source that
/// refuses ends the run: what was given back stays given back and is no
/// longer noted, the rest stays noted, and the report is an error. So is it
/// where `pos` is not within reach of a network.
pub open spec fn returned_lp(g: GameView, pos: Pos) -> (GameView, Result<(), InternalError>) {
    match g.net[pos] {
        LogisticsView::Available(a) => {
            let (board, n) = applied_all(g.board, refund_list(a.taken_lp));
            (
                GameView {
                    board,
                    net: g.net.insert(
                        pos,
                        LogisticsView::Available(
                            AvailableView { taken_lp: a.taken_lp.skip(n), ..a },
                        ),
                    ),
                    ..g
                },
                if n == a.taken_lp.len() {
                    Ok(())
                } else {
                    Err(InternalError::ReturnRefused)
                },
            )
        },
        _ => (g, Err(InternalError::NotAvailable)),
    }
}

fn refund_packets(entries: &Vec<(Pos, ResourceValue)>) -> (r: Vec<(Pos, ResourcePacket)>)
    ensures
        r@ == refund_list(entries@),
{
    let mut out: Vec<(Pos, ResourcePacket)> = Vec::new();
    let mut i: usize = 0;
    while i < entries.len()
        invariant
            i <= entries.len(),
            out.len() == i,
            forall|j: int|
                0 <= j < i ==> out[j] == (
                    entries[j].0,
                    resource::single_change(ResourceType::LogisticsPoints, entries[j].1),
                ),
        decreases entries.len() - i,
    {
        let (at, b) = entries[i];
        let mut packet = resource::empty_packet();
        packet = resource::set(ResourceType::LogisticsPoints, b, packet);
        proof {
            resource::lemma_packet_from(packet);
        }
        out.push((at, packet));
        i = i + 1;
    }
    proof {
        assert(out@ =~= refund_list(entries@));
    }
    out
}

/// Gives back to each source the logistics points that `pos` has used at it;
/// see [`returned_lp`].
pub fn return_lp<C>(pos: Pos, g: &mut GameState<C>) -> (r: Result<(), InternalError>) where
    CellState: CellGen<C>,

    ensures
        final(g)@ == returned_lp(old(g)@, pos).0,
        r == returned_lp(old(g)@, pos).1,
{
    let a = match get_available(pos, g) {
        Some(a) => a,
        None => {
            return Err(InternalError::NotAvailable);
        },
    };
    let Available { locations, borrows, taken_lp } = a;
    let refund = refund_packets(&taken_lp);
    let n = apply_all(&refund, &mut g.matrix);
    let left = tail_of(&taken_lp, n);
    let all = n == taken_lp.len();
    plane_set(
        pos,
        LogisticsState::Available(Available { locations, borrows, taken_lp: left }),
        &mut g.logistics_plane,
    );
    if all {
        Ok(())
    } else {
        Err(InternalError::ReturnRefused)
    }
}

} // verus!
