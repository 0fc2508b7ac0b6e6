//! What borrowing and giving back amount to together.

use vstd::prelude::*;
use crate::celldata::CellState;
use crate::hexgrid::{GridView, Pos};
use crate::logistics_plane::{
    applied_all, charged, draw, key_index, negated, noted_borrow, ranked, requested,
    returned_borrows, serve, undo_list, AvailableView, LogisticsView,
};
use crate::resource::{
    as_values, cell_after, fits_packet, ledger_accepts, ledger_after, ledger_at_rest, packet_from,
    packet_neg, packet_sum, stockpile_from, stockpile_of, with_stockpile, ResourceData,
    ResourcePacket, ResourceStockpile, ResourceValue,
};
use crate::GameView;

verus! {

broadcast use vstd::array::group_array_axioms;

/// Every ledger on the board is at rest.
pub open spec fn ledgers_at_rest(values: Map<Pos, CellState>) -> bool {
    forall|s: Pos|
        (#[trigger] stockpile_of(values[s])) matches Some(l) ==> ledger_at_rest(l@)
}

/// The game after `pos` has asked to borrow each of the packets `asked`, one
/// after the other.
pub open spec fn borrowed_all(g: GameView, pos: Pos, asked: Seq<ResourcePacket>) -> GameView
    decreases asked.len(),
{
    if asked.len() == 0 {
        g
    } else {
        requested(borrowed_all(g, pos, asked.drop_last()), pos, asked.last(), true).0
    }
}

proof fn lemma_stockpile_of_entries(some: ResourceStockpile, s: Seq<ResourceData>)
    requires
        s.len() == 4,
    ensures
        stockpile_from(s)@ == s,
{
    let a0 = vstd::array::spec_array_update(some, 0, s[0]);
    let a1 = vstd::array::spec_array_update(a0, 1, s[1]);
    let a2 = vstd::array::spec_array_update(a1, 2, s[2]);
    let a3 = vstd::array::spec_array_update(a2, 3, s[3]);
    assert(a3@ =~= s);
}

proof fn lemma_packet_of_entries(some: ResourcePacket, s: Seq<ResourceValue>)
    requires
        s.len() == 4,
    ensures
        packet_from(s)@ == s,
{
    let a0 = vstd::array::spec_array_update(some, 0, s[0]);
    let a1 = vstd::array::spec_array_update(a0, 1, s[1]);
    let a2 = vstd::array::spec_array_update(a1, 2, s[2]);
    let a3 = vstd::array::spec_array_update(a2, 3, s[3]);
    assert(a3@ =~= s);
}

proof fn lemma_key_index_meaning<V>(m: Seq<(Pos, V)>, k: Pos)
    ensures
        0 <= key_index(m, k) <= m.len(),
        key_index(m, k) < m.len() ==> m[key_index(m, k)].0 == k,
        forall|j: int| 0 <= j < key_index(m, k) ==> (#[trigger] m[j]).0 != k,
    decreases m.len(),
{
    if m.len() > 0 && m[0].0 != k {
        let rest = m.drop_first();
        lemma_key_index_meaning(rest, k);
        assert forall|j: int| 0 <= j < key_index(m, k) implies (#[trigger] m[j]).0 != k by {
            if j > 0 {
                assert(rest[j - 1] == m[j]);
            }
        }
        if key_index(m, k) < m.len() {
            assert(rest[key_index(rest, k)] == m[key_index(m, k)]);
        }
    }
}

proof fn lemma_key_index_absent<V>(m: Seq<(Pos, V)>, k: Pos)
    requires
        forall|j: int| 0 <= j < m.len() ==> (#[trigger] m[j]).0 != k,
    ensures
        key_index(m, k) == m.len(),
    decreases m.len(),
{
    if m.len() > 0 {
        assert(m[0].0 != k);
        let rest = m.drop_first();
        assert forall|j: int| 0 <= j < rest.len() implies (#[trigger] rest[j]).0 != k by {
            assert(rest[j] == m[j + 1]);
        }
        lemma_key_index_absent(rest, k);
    }
}

/// The source that serves a request to borrow, with its distance, if one does.
spec fn draw_hit(
    board: GridView<CellState>,
    a: AvailableView,
    p: ResourcePacket,
    cands: Seq<(i64, Pos)>,
) -> Option<(int, Pos)>
    decreases cands.len(),
{
    if cands.len() == 0 {
        None
    } else {
        let d = cands[0].0 as int;
        let t = cands[0].1;
        if charged(p, d).is_none() {
            draw_hit(board, a, p, cands.drop_first())
        } else if serve(board.values[t], a, p, true, d, t).is_some() {
            Some((d, t))
        } else {
            draw_hit(board.touched(t), a, p, cands.drop_first())
        }
    }
}

proof fn lemma_draw(
    board: GridView<CellState>,
    a: AvailableView,
    p: ResourcePacket,
    cands: Seq<(i64, Pos)>,
)
    ensures
        match draw_hit(board, a, p, cands) {
            None => draw(board, a, p, true, cands).1.is_none() && draw(
                board,
                a,
                p,
                true,
                cands,
            ).0.values == board.values,
            Some((d, t)) => serve(board.values[t], a, p, true, d, t).is_some() && draw(
                board,
                a,
                p,
                true,
                cands,
            ).1 == Some(serve(board.values[t], a, p, true, d, t).unwrap().1) && draw(
                board,
                a,
                p,
                true,
                cands,
            ).0.values == board.values.insert(
                t,
                serve(board.values[t], a, p, true, d, t).unwrap().0,
            ),
        },
    decreases cands.len(),
{
    if cands.len() > 0 {
        let d = cands[0].0 as int;
        let t = cands[0].1;
        if charged(p, d).is_none() {
            lemma_draw(board, a, p, cands.drop_first());
        } else if serve(board.values[t], a, p, true, d, t).is_some() {
        } else {
            lemma_draw(board.touched(t), a, p, cands.drop_first());
        }
    }
}

/// The cell `c` is the cell `c0` with the packet `b` added to its ledger.
spec fn owes(c0: CellState, c: CellState, b: ResourcePacket) -> bool {
    match (stockpile_of(c0), stockpile_of(c)) {
        (Some(l0), Some(l)) => c == with_stockpile(c0, l) && forall|k: int|
            0 <= k < 4 ==> (#[trigger] l[k]).current == l0[k].current + b[k] && l[k].max
                == l0[k].max,
        _ => false,
    }
}

spec fn distinct_keys(m: Seq<(Pos, ResourcePacket)>) -> bool {
    forall|i: int, j: int| 0 <= i < j < m.len() ==> (#[trigger] m[i]).0 != (#[trigger] m[j]).0
}

/// What holds of a game `g` that came from `g0` by requests of `pos` to borrow:
/// each source that `pos` has a note for holds what it held plus the note,
/// and every other cell is as it was.
spec fn owed(g0: GameView, g: GameView, pos: Pos) -> bool {
    &&& ledgers_at_rest(g0.board.values)
    &&& ledgers_at_rest(g.board.values)
    &&& g0.net[pos] is Available
    &&& g.net[pos] is Available
    &&& g.net[pos]->Available_0.locations == g0.net[pos]->Available_0.locations
    &&& g.net[pos]->Available_0.taken_lp == g0.net[pos]->Available_0.taken_lp
    &&& distinct_keys(g.net[pos]->Available_0.borrows)
    &&& forall|i: int|
        0 <= i < g.net[pos]->Available_0.borrows.len() ==> owes(
            g0.board.values[(#[trigger] g.net[pos]->Available_0.borrows[i]).0],
            g.board.values[g.net[pos]->Available_0.borrows[i].0],
            g.net[pos]->Available_0.borrows[i].1,
        )
    &&& forall|s: Pos|
        key_index(g.net[pos]->Available_0.borrows, s) >= g.net[pos]->Available_0.borrows.len()
            ==> #[trigger] g.board.values[s] == g0.board.values[s]
}

proof fn lemma_served_cell(c0: CellState, c: CellState, b: ResourcePacket, due: ResourcePacket, sum: ResourcePacket)
    requires
        owes(c0, c, b),
        stockpile_of(c0) matches Some(l0) && ledger_at_rest(l0@),
        stockpile_of(c) matches Some(l) && ledger_at_rest(l@),
        cell_after(due, c).is_some(),
        forall|k: int| 0 <= k < 4 ==> #[trigger] sum[k] == b[k] + due[k],
    ensures
        owes(c0, cell_after(due, c).unwrap(), sum),
        stockpile_of(cell_after(due, c).unwrap()) matches Some(l2) && ledger_at_rest(l2@),
{
    let l0 = stockpile_of(c0).unwrap();
    let l = stockpile_of(c).unwrap();
    let after = ledger_after(due@, l@);
    lemma_stockpile_of_entries(l, after);
    let l2 = stockpile_from(after);
    let c2 = cell_after(due, c).unwrap();
    assert(c2 == with_stockpile(c, l2));
    assert(stockpile_of(c2) == Some(l2));
    assert forall|k: int| 0 <= k < 4 implies (#[trigger] l2[k]).current == l0[k].current + sum[k]
        && l2[k].max == l0[k].max && 0 <= l2[k].current <= l2[k].max by {
        assert(l2[k] == after[k]);
        assert(0 <= l[k].current <= l[k].max);
        if due[k] != 0 {
            assert(due@[k] != 0);
        }
    }
}

proof fn lemma_borrow_keeps_owed(g0: GameView, g: GameView, pos: Pos, p: ResourcePacket)
    requires
        owed(g0, g, pos),
    ensures
        owed(g0, requested(g, pos, p, true).0, pos),
{
    if fits_packet(packet_neg(p@)) {
        let a = g.net[pos]->Available_0;
        let undo = negated(p);
        let cands = ranked(pos, a.locations);
        lemma_draw(g.board, a, undo, cands);
        let g2 = requested(g, pos, p, true).0;
        match draw_hit(g.board, a, undo, cands) {
            None => {
                assert(g2.net == g.net);
                assert(g2.board.values == g.board.values);
            },
            Some((d, t)) => {
                let due = charged(undo, d).unwrap();
                let c = g.board.values[t];
                let new = cell_after(due, c).unwrap();
                let borrows = a.borrows;
                let borrows2 = noted_borrow(borrows, t, due).unwrap();
                let a2 = AvailableView { borrows: borrows2, ..a };
                assert(serve(c, a, undo, true, d, t) == Some((new, a2)));
                assert(g2.net == g.net.insert(pos, LogisticsView::Available(a2)));
                assert(g2.board.values == g.board.values.insert(t, new));
                let i = key_index(borrows, t);
                lemma_key_index_meaning(borrows, t);
                let c0 = g0.board.values[t];
                assert(stockpile_of(c).is_some());
                let l = stockpile_of(c).unwrap();
                if i < borrows.len() {
                    let b = borrows[i].1;
                    let sum_entries = as_values(packet_sum(b@, due@));
                    lemma_packet_of_entries(b, sum_entries);
                    let sum = packet_from(sum_entries);
                    assert(borrows2 == borrows.update(i, (t, sum)));
                    assert(owes(c0, c, b));
                    assert forall|k: int| 0 <= k < 4 implies #[trigger] sum[k] == b[k] + due[k] by {
                        assert(sum[k] == sum_entries[k]);
                        assert(i32::MIN <= packet_sum(b@, due@)[k] <= i32::MAX);
                    }
                    lemma_served_cell(c0, c, b, due, sum);
                    assert forall|j: int| 0 <= j < borrows2.len() implies owes(
                        g0.board.values[(#[trigger] borrows2[j]).0],
                        g2.board.values[borrows2[j].0],
                        borrows2[j].1,
                    ) by {
                        if j != i {
                            assert(borrows2[j] == borrows[j]);
                            if j < i {
                                assert(borrows[j].0 != borrows[i].0);
                            } else {
                                assert(borrows[i].0 != borrows[j].0);
                            }
                        }
                    }
                    assert(distinct_keys(borrows2)) by {
                        assert forall|x: int, y: int| 0 <= x < y < borrows2.len() implies (
                        #[trigger] borrows2[x]).0 != (#[trigger] borrows2[y]).0 by {
                            assert(borrows2[x].0 == borrows[x].0);
                            assert(borrows2[y].0 == borrows[y].0);
                        }
                    }
                    assert forall|s: Pos|
                        key_index(borrows2, s) >= borrows2.len() implies #[trigger] g2.board.values[s]
                        == g0.board.values[s] by {
                        lemma_key_index_meaning(borrows2, s);
                        assert forall|j: int| 0 <= j < borrows.len() implies (
                        #[trigger] borrows[j]).0 != s by {
                            assert(borrows2[j].0 == borrows[j].0);
                        }
                        lemma_key_index_absent(borrows, s);
                        assert(borrows2[i].0 == t);
                    }
                } else {
                    assert(borrows2 == borrows.push((t, due)));
                    assert(c == c0);
                    let zero = nothing_of(due);
                    assert(owes(c0, c, zero)) by {
                        assert(c == with_stockpile(c, l));
                    }
                    assert forall|k: int| 0 <= k < 4 implies #[trigger] due[k] == zero[k] + due[k] by {}
                    lemma_served_cell(c0, c, zero, due, due);
                    assert forall|j: int| 0 <= j < borrows2.len() implies owes(
                        g0.board.values[(#[trigger] borrows2[j]).0],
                        g2.board.values[borrows2[j].0],
                        borrows2[j].1,
                    ) by {
                        if j < borrows.len() {
                            assert(borrows2[j] == borrows[j]);
                            assert(borrows[j].0 != t);
                        }
                    }
                    assert(distinct_keys(borrows2)) by {
                        assert forall|x: int, y: int| 0 <= x < y < borrows2.len() implies (
                        #[trigger] borrows2[x]).0 != (#[trigger] borrows2[y]).0 by {
                            assert(borrows2[x] == borrows[x]);
                            if y < borrows.len() {
                                assert(borrows2[y] == borrows[y]);
                            } else {
                                assert(borrows[x].0 != t);
                            }
                        }
                    }
                    assert forall|s: Pos|
                        key_index(borrows2, s) >= borrows2.len() implies #[trigger] g2.board.values[s]
                        == g0.board.values[s] by {
                        lemma_key_index_meaning(borrows2, s);
                        assert forall|j: int| 0 <= j < borrows.len() implies (
                        #[trigger] borrows[j]).0 != s by {
                            assert(borrows2[j] == borrows[j]);
                        }
                        lemma_key_index_absent(borrows, s);
                        assert(borrows2[borrows.len() as int].0 == t);
                    }
                }
                assert(ledgers_at_rest(g2.board.values)) by {
                    assert forall|s: Pos|
                        (#[trigger] stockpile_of(g2.board.values[s])).is_some() implies ledger_at_rest(
                        stockpile_of(g2.board.values[s]).unwrap()@,
                    ) by {
                        if s != t {
                            assert(g2.board.values[s] == g.board.values[s]);
                        }
                    }
                }
            },
        }
    }
}

/// The packet with nothing in it, made from any packet.
spec fn nothing_of(some: ResourcePacket) -> ResourcePacket {
    vstd::array::spec_array_update(
        vstd::array::spec_array_update(
            vstd::array::spec_array_update(vstd::array::spec_array_update(some, 0, 0i32), 1, 0i32),
            2,
            0i32,
        ),
        3,
        0i32,
    )
}

proof fn lemma_borrowed_all_owed(g0: GameView, pos: Pos, asked: Seq<ResourcePacket>)
    requires
        owed(g0, g0, pos),
    ensures
        owed(g0, borrowed_all(g0, pos, asked), pos),
    decreases asked.len(),
{
    if asked.len() > 0 {
        lemma_borrowed_all_owed(g0, pos, asked.drop_last());
        lemma_borrow_keeps_owed(g0, borrowed_all(g0, pos, asked.drop_last()), pos, asked.last());
    }
}

proof fn lemma_applied_all_restores(
    board: GridView<CellState>,
    adds: Seq<(Pos, ResourcePacket)>,
    want: Map<Pos, CellState>,
)
    requires
        forall|i: int, j: int|
            0 <= i < j < adds.len() ==> (#[trigger] adds[i]).0 != (#[trigger] adds[j]).0,
        forall|j: int|
            0 <= j < adds.len() ==> cell_after(
                (#[trigger] adds[j]).1,
                board.values[adds[j].0],
            ) == Some(want[adds[j].0]),
    ensures
        applied_all(board, adds).1 == adds.len(),
        forall|s: Pos|
            #![trigger applied_all(board, adds).0.values[s]]
            applied_all(board, adds).0.values[s] == if key_index(adds, s) < adds.len() {
                want[s]
            } else {
                board.values[s]
            },
    decreases adds.len(),
{
    if adds.len() > 0 {
        let s0 = adds[0].0;
        let c1 = want[s0];
        let next = board.put(s0, c1);
        let rest = adds.drop_first();
        assert forall|j: int| 0 <= j < rest.len() implies cell_after(
            (#[trigger] rest[j]).1,
            next.values[rest[j].0],
        ) == Some(want[rest[j].0]) by {
            assert(rest[j] == adds[j + 1]);
            assert(adds[0].0 != adds[j + 1].0);
        }
        assert forall|i: int, j: int| 0 <= i < j < rest.len() implies (#[trigger] rest[i]).0 != (
        #[trigger] rest[j]).0 by {
            assert(rest[i] == adds[i + 1]);
            assert(rest[j] == adds[j + 1]);
        }
        lemma_applied_all_restores(next, rest, want);
        assert forall|s: Pos|
            #![trigger applied_all(board, adds).0.values[s]]
            applied_all(board, adds).0.values[s] == if key_index(adds, s) < adds.len() {
                want[s]
            } else {
                board.values[s]
            } by {
            assert(applied_all(board, adds).0 == applied_all(next, rest).0);
            lemma_key_index_meaning(adds, s);
            lemma_key_index_meaning(rest, s);
        }
    }
}

proof fn lemma_return_restores(g0: GameView, g: GameView, pos: Pos)
    requires
        owed(g0, g, pos),
    ensures
        returned_borrows(g, pos).1.is_ok(),
        forall|s: Pos| #[trigger]
            returned_borrows(g, pos).0.board.values[s] == g0.board.values[s],
        returned_borrows(g, pos).0.net[pos] == LogisticsView::Available(
            AvailableView { borrows: Seq::empty(), ..g.net[pos]->Available_0 },
        ),
{
    let a = g.net[pos]->Available_0;
    let entries = a.borrows;
    assert forall|j: int| 0 <= j < entries.len() implies fits_packet(
        packet_neg((#[trigger] entries[j]).1@),
    ) by {
        let s = entries[j].0;
        let b = entries[j].1;
        assert(owes(g0.board.values[s], g.board.values[s], b));
        let l0 = stockpile_of(g0.board.values[s]).unwrap();
        let l = stockpile_of(g.board.values[s]).unwrap();
        assert(ledger_at_rest(l0@));
        assert(ledger_at_rest(l@));
        assert forall|k: int| 0 <= k < 4 implies i32::MIN <= #[trigger] packet_neg(b@)[k]
            <= i32::MAX by {
            assert(l[k].current == l0[k].current + b[k]);
            assert(0 <= l0@[k].current <= l0@[k].max);
            assert(0 <= l@[k].current <= l@[k].max);
        }
    }
    crate::logistics_plane::lemma_undo_all(entries);
    let undo = undo_list(entries);
    assert(undo.len() == entries.len());
    assert forall|j: int| 0 <= j < undo.len() implies cell_after(
        (#[trigger] undo[j]).1,
        g.board.values[undo[j].0],
    ) == Some(g0.board.values[undo[j].0]) by {
        let s = entries[j].0;
        let b = entries[j].1;
        assert(undo[j] == (s, negated(b)));
        let c0 = g0.board.values[s];
        let c = g.board.values[s];
        assert(owes(c0, c, b));
        let l0 = stockpile_of(c0).unwrap();
        let l = stockpile_of(c).unwrap();
        assert(ledger_at_rest(l0@));
        let turned = as_values(packet_neg(b@));
        lemma_packet_of_entries(b, turned);
        let n = negated(b);
        assert(n@ == turned);
        assert forall|k: int| 0 <= k < 4 implies (#[trigger] n@[k]) != 0 ==> 0 <= l@[k].current
            + n@[k] <= l@[k].max by {
            assert(l[k].current == l0[k].current + b[k]);
            assert(0 <= l0@[k].current <= l0@[k].max);
            assert(fits_packet(packet_neg(b@)));
            assert(i32::MIN <= packet_neg(b@)[k] <= i32::MAX);
        }
        assert(ledger_accepts(n@, l@));
        let after = ledger_after(n@, l@);
        assert(after =~= l0@) by {
            assert forall|k: int| 0 <= k < 4 implies after[k] == l0@[k] by {
                assert(l[k].current == l0[k].current + b[k]);
                assert(i32::MIN <= packet_neg(b@)[k] <= i32::MAX);
            }
        }
        crate::resource::lemma_stockpile_from(l0);
        assert(stockpile_from(after) == l0);
        assert(with_stockpile(c, l0) == c0);
    }
    assert forall|i: int, j: int| 0 <= i < j < undo.len() implies (#[trigger] undo[i]).0 != (
    #[trigger] undo[j]).0 by {
        assert(entries[i].0 != entries[j].0);
    }
    lemma_applied_all_restores(g.board, undo, g0.board.values);
    let after = applied_all(g.board, undo).0;
    assert forall|s: Pos| #[trigger] after.values[s] == g0.board.values[s] by {
        lemma_key_index_meaning(undo, s);
        if key_index(undo, s) >= undo.len() {
            assert forall|j: int| 0 <= j < entries.len() implies (#[trigger] entries[j]).0 != s by {
                assert(undo[j].0 == entries[j].0);
            }
            lemma_key_index_absent(entries, s);
        }
    }
    assert(entries.skip(entries.len() as int) =~= Seq::<(Pos, ResourcePacket)>::empty());
}

/// What is borrowed comes back whole. Let `pos` be within reach of a network
/// with nothing borrowed, on a board whose ledgers are at rest. After any run
/// of requests to borrow from `pos`, served or not, giving back the borrows of
/// `pos` succeeds, leaves every cell of the board as it was before the first
/// request, and leaves `pos` with nothing borrowed.
pub proof fn lemma_borrow_return_round_trip(g0: GameView, pos: Pos, asked: Seq<ResourcePacket>)
    requires
        ledgers_at_rest(g0.board.values),
        g0.net[pos] matches LogisticsView::Available(a) && a.borrows.len() == 0,
    ensures
        returned_borrows(borrowed_all(g0, pos, asked), pos).1.is_ok(),
        forall|s: Pos| #[trigger]
            returned_borrows(borrowed_all(g0, pos, asked), pos).0.board.values[s]
                == g0.board.values[s],
        returned_borrows(borrowed_all(g0, pos, asked), pos).0.net[pos] == g0.net[pos],
{
    let a = g0.net[pos]->Available_0;
    assert(owed(g0, g0, pos)) by {
        assert forall|s: Pos| key_index(a.borrows, s) >= a.borrows.len() implies #[trigger] g0.board.values[s]
            == g0.board.values[s] by {}
    }
    lemma_borrowed_all_owed(g0, pos, asked);
    lemma_return_restores(g0, borrowed_all(g0, pos, asked), pos);
    assert(a.borrows =~= Seq::<(Pos, ResourcePacket)>::empty());
}

} // verus!
