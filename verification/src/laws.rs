//! The rules the simulation is held to, stated and proved once and for all:
//! which moves are rejected and that a rejected move leaves the turn's
//! outcome untouched, what an empty turn does, army conservation, and the
//! game-over condition.

use vstd::prelude::*;

use crate::board::Board;
use crate::model::{AgentId, Move, Space};
use crate::resolver::{
    accepted_moves, flat, grow_board, grow_space, lemma_accepted_valid, lemma_sort_contains,
    move_amount, resolve_moves, resolve_one, sort_moves_spec, territory_grows, transfer_space,
    valid_move, with_armies,
};
use crate::state::{at_most_one_owner, owns_space, turn_result};

verus! {

/// A move with either end off the board is never accepted.
pub proof fn lemma_out_of_bounds_rejected(b: Board, m: Move)
    requires
        !b.spec_in_bounds(m.from) || !b.spec_in_bounds(m.to),
    ensures
        !valid_move(b, m),
{
}

/// A move from a space its proposer does not currently own is never
/// accepted.
pub proof fn lemma_unowned_from_rejected(b: Board, m: Move)
    requires
        b.spec_owner_of(m.from) != Some(m.owner),
    ensures
        !valid_move(b, m),
{
}

/// A move onto a mountain is never accepted.
pub proof fn lemma_mountain_target_rejected(b: Board, m: Move)
    requires
        b.spec_at(m.to) == Space::Mountain,
    ensures
        !valid_move(b, m),
{
}

/// A rejected move changes nothing: a batch with it resolves to the same
/// board, on any turn, as the batch without it.
pub proof fn lemma_rejected_move_ignored(b: Board, ms: Seq<Move>, m: Move, turn: u64)
    requires
        !valid_move(b, m),
    ensures
        accepted_moves(b, ms.push(m)) == accepted_moves(b, ms),
        turn_result(b, ms.push(m), turn) == turn_result(b, ms, turn),
{
    assert(ms.push(m).drop_last() =~= ms);
}

/// Growth never changes who owns a space.
pub proof fn lemma_growth_preserves_ownership(sp: Space, turn: u64)
    ensures
        grow_space(sp, turn).spec_owner() == sp.spec_owner(),
{
}

/// An empty batch changes only growth-rule army increments, never
/// ownership: every space of the turn's result is exactly the old space run
/// through the growth rule.
pub proof fn lemma_empty_batch(b: Board, turn: u64)
    ensures
        turn_result(b, Seq::empty(), turn).len() == b.spaces@.len(),
        forall|i: int|
            0 <= i < b.spaces@.len() ==> turn_result(b, Seq::empty(), turn)[i] == grow_space(
                b.spaces@[i],
                turn,
            ),
        forall|i: int|
            0 <= i < b.spaces@.len() ==> turn_result(b, Seq::empty(), turn)[i].spec_owner()
                == b.spaces@[i].spec_owner(),
{
    assert(accepted_moves(b, Seq::empty()) =~= Seq::<Move>::empty());
    assert(sort_moves_spec(Seq::empty()) =~= Seq::<Move>::empty());
    assert(resolve_moves(b.side as int, b.spaces@, Seq::empty()) == b.spaces@);
}

/// Once one agent owns every owned space, at most one owner is left, so the
/// turn that reaches this board reports the game over.
pub proof fn lemma_single_owner_is_over(s: Seq<Space>, a: AgentId)
    requires
        forall|i: int|
            0 <= i < s.len() ==> (s[i].spec_owner() == None::<AgentId> || s[i].spec_owner()
                == Some(a)),
    ensures
        at_most_one_owner(s),
{
    assert forall|x: AgentId, y: AgentId|
        owns_space(s, x) && owns_space(s, y) implies x == y by {
        let i = choose|i: int| 0 <= i < s.len() && s[i].spec_owner() == Some(x);
        let j = choose|j: int| 0 <= j < s.len() && s[j].spec_owner() == Some(y);
    }
}

/// One resolved move never invents an owner: whoever owns a space
/// afterwards owned some space before.
pub proof fn lemma_resolve_one_no_new_owners(n: int, s: Seq<Space>, m: Move)
    requires
        0 <= flat(n, m.from) < s.len(),
        0 <= flat(n, m.to) < s.len(),
    ensures
        forall|a: AgentId| owns_space(resolve_one(n, s, m), a) ==> owns_space(s, a),
{
    let fi = flat(n, m.from);
    let ti = flat(n, m.to);
    let r = resolve_one(n, s, m);
    if s[fi].spec_owner() != Some(m.owner) || s[ti] == Space::Mountain {
    } else {
        assert(owns_space(s, m.owner));
        let from_armies = s[fi].spec_armies();
        let amount = move_amount(from_armies);
        let s1 = s.update(fi, with_armies(s[fi], (from_armies - amount) as u32));
        assert forall|a: AgentId| owns_space(s1, a) implies owns_space(s, a) by {
            let i = choose|i: int| 0 <= i < s1.len() && s1[i].spec_owner() == Some(a);
            if i == fi {
                assert(s[fi].spec_owner() == Some(a));
            } else {
                assert(s[i].spec_owner() == Some(a));
            }
        }
        assert forall|a: AgentId| owns_space(r, a) implies owns_space(s, a) by {
            let i = choose|i: int| 0 <= i < r.len() && r[i].spec_owner() == Some(a);
            match s1[ti] {
                Space::Empty => {
                    if i != ti {
                        assert(s1[i].spec_owner() == Some(a));
                    }
                },
                Space::Mountain => {},
                Space::Owned { owner: p, armies: d } => {
                    if i != ti {
                        assert(s1[i].spec_owner() == Some(a));
                    } else {
                        if a != m.owner {
                            assert(s1[ti].spec_owner() == Some(a));
                        }
                    }
                },
                Space::Capital { owner: po, armies: d } => {
                    match po {
                        None => {
                            if i != ti {
                                assert(s1[i].spec_owner() == Some(a));
                            }
                        },
                        Some(p) => {
                            if p != m.owner && amount > d {
                                let captured = s1.update(
                                    ti,
                                    Space::Capital {
                                        owner: Some(m.owner),
                                        armies: crate::resolver::invaded(d, amount),
                                    },
                                );
                                assert(r[i] == transfer_space(captured[i], p, m.owner));
                                if a != m.owner {
                                    assert(captured[i].spec_owner() == Some(a));
                                    assert(i != ti);
                                    assert(s1[i].spec_owner() == Some(a));
                                }
                            } else {
                                if i != ti {
                                    assert(s1[i].spec_owner() == Some(a));
                                } else {
                                    if a != m.owner {
                                        assert(s1[ti].spec_owner() == Some(a));
                                    }
                                }
                            }
                        },
                    }
                },
            }
        }
    }
}

/// Nor does a whole batch.
pub proof fn lemma_resolve_batch_no_new_owners(n: int, s: Seq<Space>, ms: Seq<Move>)
    requires
        forall|k: int|
            0 <= k < ms.len() ==> 0 <= flat(n, (#[trigger] ms[k]).from) < s.len() && 0 <= flat(
                n,
                ms[k].to,
            ) < s.len(),
    ensures
        resolve_moves(n, s, ms).len() == s.len(),
        forall|a: AgentId| owns_space(resolve_moves(n, s, ms), a) ==> owns_space(s, a),
    decreases ms.len(),
{
    if ms.len() > 0 {
        lemma_resolve_one_no_new_owners(n, s, ms.first());
        crate::resolver::lemma_resolve_one_len(n, s, ms.first());
        let s2 = resolve_one(n, s, ms.first());
        assert forall|k: int|
            0 <= k < ms.drop_first().len() implies 0 <= flat(
            n,
            (#[trigger] ms.drop_first()[k]).from,
        ) < s2.len() && 0 <= flat(n, ms.drop_first()[k].to) < s2.len() by {
            assert(ms.drop_first()[k] == ms[k + 1]);
        }
        lemma_resolve_batch_no_new_owners(n, s2, ms.drop_first());
    }
}

/// An elimination is complete: afterwards the loser holds nothing at all.
pub proof fn lemma_eliminate_dispossesses(s: Seq<Space>, loser: AgentId, winner: AgentId)
    requires
        loser != winner,
    ensures
        !owns_space(crate::resolver::eliminate(s, loser, winner), loser),
{
    let e = crate::resolver::eliminate(s, loser, winner);
    assert forall|i: int| 0 <= i < e.len() implies e[i].spec_owner() != Some(loser) by {
        assert(e[i] == transfer_space(s[i], loser, winner));
    }
}

/// Growth changes no owner anywhere.
pub proof fn lemma_grow_board_owners(s: Seq<Space>, turn: u64)
    ensures
        grow_board(s, turn).len() == s.len(),
        forall|a: AgentId| owns_space(grow_board(s, turn), a) <==> owns_space(s, a),
{
    let g = grow_board(s, turn);
    assert forall|a: AgentId| owns_space(g, a) <==> owns_space(s, a) by {
        if owns_space(g, a) {
            let i = choose|i: int| 0 <= i < g.len() && g[i].spec_owner() == Some(a);
            assert(g[i] == grow_space(s[i], turn));
            assert(s[i].spec_owner() == Some(a));
        }
        if owns_space(s, a) {
            let i = choose|i: int| 0 <= i < s.len() && s[i].spec_owner() == Some(a);
            assert(g[i] == grow_space(s[i], turn));
            assert(g[i].spec_owner() == Some(a));
        }
    }
}

/// The board invariant over a whole turn: only agents that already owned
/// spaces can own spaces afterwards — nobody enters the game mid-way.
pub proof fn lemma_turn_no_new_owners(b: Board, ms: Seq<Move>, turn: u64)
    requires
        b.wf(),
    ensures
        forall|a: AgentId| owns_space(turn_result(b, ms, turn), a) ==> owns_space(b.spaces@, a),
{
    let n = b.side as int;
    let s = b.spaces@;
    let ordered = sort_moves_spec(accepted_moves(b, ms));
    assert forall|k: int|
        0 <= k < ordered.len() implies 0 <= flat(n, (#[trigger] ordered[k]).from) < s.len() && 0
        <= flat(n, ordered[k].to) < s.len() by {
        assert(ordered.contains(ordered[k]));
        lemma_sort_contains(accepted_moves(b, ms), ordered[k]);
        lemma_accepted_valid(b, ms, ordered[k]);
        b.lemma_idx_in_range(ordered[k].from);
        b.lemma_idx_in_range(ordered[k].to);
    }
    lemma_resolve_batch_no_new_owners(n, s, ordered);
    lemma_grow_board_owners(resolve_moves(n, s, ordered), turn);
}

/// Once out, always out: an agent that owns no space cannot own one after
/// any later turn, whatever anyone proposes — so a departed agent never
/// re-enters the game.
pub proof fn lemma_eliminated_stays_out(b: Board, ms: Seq<Move>, turn: u64, a: AgentId)
    requires
        b.wf(),
        !owns_space(b.spaces@, a),
    ensures
        !owns_space(turn_result(b, ms, turn), a),
{
    lemma_turn_no_new_owners(b, ms, turn);
}

/// Whether a space is a capital, whoever holds it.
pub open spec fn is_capital(sp: Space) -> bool {
    match sp {
        Space::Capital { .. } => true,
        _ => false,
    }
}

/// One resolved move leaves the terrain alone: capitals stay capitals and
/// nothing else becomes one, and mountains are never touched.
pub proof fn lemma_resolve_one_terrain(n: int, s: Seq<Space>, m: Move)
    requires
        0 <= flat(n, m.from) < s.len(),
        0 <= flat(n, m.to) < s.len(),
    ensures
        forall|i: int|
            0 <= i < s.len() ==> is_capital(#[trigger] resolve_one(n, s, m)[i]) == is_capital(
                s[i],
            ) && ((resolve_one(n, s, m)[i] == Space::Mountain) <==> (s[i] == Space::Mountain)),
{
    let fi = flat(n, m.from);
    let ti = flat(n, m.to);
    let r = resolve_one(n, s, m);
    if s[fi].spec_owner() != Some(m.owner) || s[ti] == Space::Mountain {
    } else {
        let from_armies = s[fi].spec_armies();
        let amount = move_amount(from_armies);
        let s1 = s.update(fi, with_armies(s[fi], (from_armies - amount) as u32));
        assert forall|i: int|
            0 <= i < s.len() implies is_capital(#[trigger] r[i]) == is_capital(s[i]) && ((r[i]
            == Space::Mountain) <==> (s[i] == Space::Mountain)) by {
            assert(is_capital(s1[i]) == is_capital(s[i]));
            assert((s1[i] == Space::Mountain) <==> (s[i] == Space::Mountain));
            match s1[ti] {
                Space::Empty => {},
                Space::Mountain => {},
                Space::Owned { .. } => {},
                Space::Capital { owner: po, armies: d } => {
                    if po is Some && po != Some(m.owner) && amount > d {
                        let p = po->0;
                        let captured = s1.update(
                            ti,
                            Space::Capital {
                                owner: Some(m.owner),
                                armies: crate::resolver::invaded(d, amount),
                            },
                        );
                        assert(r[i] == transfer_space(captured[i], p, m.owner));
                    }
                },
            }
        }
    }
}

/// Nor does a whole batch of them.
pub proof fn lemma_resolve_batch_terrain(n: int, s: Seq<Space>, ms: Seq<Move>)
    requires
        forall|k: int|
            0 <= k < ms.len() ==> 0 <= flat(n, (#[trigger] ms[k]).from) < s.len() && 0 <= flat(
                n,
                ms[k].to,
            ) < s.len(),
    ensures
        resolve_moves(n, s, ms).len() == s.len(),
        forall|i: int|
            0 <= i < s.len() ==> is_capital(#[trigger] resolve_moves(n, s, ms)[i]) == is_capital(
                s[i],
            ) && ((resolve_moves(n, s, ms)[i] == Space::Mountain) <==> (s[i] == Space::Mountain)),
    decreases ms.len(),
{
    if ms.len() > 0 {
        lemma_resolve_one_terrain(n, s, ms.first());
        crate::resolver::lemma_resolve_one_len(n, s, ms.first());
        let s2 = resolve_one(n, s, ms.first());
        assert forall|k: int|
            0 <= k < ms.drop_first().len() implies 0 <= flat(
            n,
            (#[trigger] ms.drop_first()[k]).from,
        ) < s2.len() && 0 <= flat(n, ms.drop_first()[k].to) < s2.len() by {
            assert(ms.drop_first()[k] == ms[k + 1]);
        }
        lemma_resolve_batch_terrain(n, s2, ms.drop_first());
    }
}

/// The terrain invariant over a whole turn: capitals are fixed at creation
/// and never relocate, and mountains never change at all.
pub proof fn lemma_turn_terrain_fixed(b: Board, ms: Seq<Move>, turn: u64)
    requires
        b.wf(),
    ensures
        turn_result(b, ms, turn).len() == b.spaces@.len(),
        forall|i: int|
            0 <= i < b.spaces@.len() ==> is_capital(#[trigger] turn_result(b, ms, turn)[i])
                == is_capital(b.spaces@[i]) && ((turn_result(b, ms, turn)[i] == Space::Mountain)
                <==> (b.spaces@[i] == Space::Mountain)),
{
    let n = b.side as int;
    let s = b.spaces@;
    let ordered = sort_moves_spec(accepted_moves(b, ms));
    assert forall|k: int|
        0 <= k < ordered.len() implies 0 <= flat(n, (#[trigger] ordered[k]).from) < s.len() && 0
        <= flat(n, ordered[k].to) < s.len() by {
        assert(ordered.contains(ordered[k]));
        lemma_sort_contains(accepted_moves(b, ms), ordered[k]);
        lemma_accepted_valid(b, ms, ordered[k]);
        b.lemma_idx_in_range(ordered[k].from);
        b.lemma_idx_in_range(ordered[k].to);
    }
    lemma_resolve_batch_terrain(n, s, ordered);
    let resolved = resolve_moves(n, s, ordered);
    assert forall|i: int|
        0 <= i < s.len() implies is_capital(#[trigger] turn_result(b, ms, turn)[i]) == is_capital(
        s[i],
    ) && ((turn_result(b, ms, turn)[i] == Space::Mountain) <==> (s[i] == Space::Mountain)) by {
        assert(turn_result(b, ms, turn)[i] == grow_space(resolved[i], turn));
    }
}

/// All armies standing on the board, summed.
pub open spec fn total_armies(s: Seq<Space>) -> int
    decreases s.len(),
{
    if s.len() == 0 {
        0
    } else {
        total_armies(s.drop_last()) + s.last().spec_armies()
    }
}

/// The sum is never negative.
pub proof fn lemma_total_nonneg(s: Seq<Space>)
    ensures
        total_armies(s) >= 0,
    decreases s.len(),
{
    if s.len() > 0 {
        lemma_total_nonneg(s.drop_last());
    }
}

/// No single space carries more than the whole board.
pub proof fn lemma_elem_le_total(s: Seq<Space>, i: int)
    requires
        0 <= i < s.len(),
    ensures
        s[i].spec_armies() <= total_armies(s),
    decreases s.len(),
{
    if i == s.len() - 1 {
        lemma_total_nonneg(s.drop_last());
    } else {
        lemma_elem_le_total(s.drop_last(), i);
        assert(s.drop_last()[i] == s[i]);
    }
}

/// Nor do two distinct spaces together.
pub proof fn lemma_pair_le_total(s: Seq<Space>, i: int, j: int)
    requires
        0 <= i < s.len(),
        0 <= j < s.len(),
        i != j,
    ensures
        s[i].spec_armies() + s[j].spec_armies() <= total_armies(s),
    decreases s.len(),
{
    if j == s.len() - 1 {
        lemma_elem_le_total(s.drop_last(), i);
        assert(s.drop_last()[i] == s[i]);
    } else if i == s.len() - 1 {
        lemma_elem_le_total(s.drop_last(), j);
        assert(s.drop_last()[j] == s[j]);
    } else {
        lemma_pair_le_total(s.drop_last(), i, j);
        assert(s.drop_last()[i] == s[i]);
        assert(s.drop_last()[j] == s[j]);
    }
}

/// Replacing one space moves the sum by exactly the difference.
pub proof fn lemma_total_update(s: Seq<Space>, i: int, v: Space)
    requires
        0 <= i < s.len(),
    ensures
        total_armies(s.update(i, v)) == total_armies(s) - s[i].spec_armies() + v.spec_armies(),
    decreases s.len(),
{
    if i == s.len() - 1 {
        assert(s.update(i, v).drop_last() =~= s.drop_last());
        assert(s.update(i, v).last() == v);
    } else {
        assert(s.update(i, v).drop_last() =~= s.drop_last().update(i, v));
        assert(s.update(i, v).last() == s.last());
        lemma_total_update(s.drop_last(), i, v);
    }
}

/// An elimination only relabels owners; it neither creates nor destroys
/// armies.
pub proof fn lemma_total_eliminate(s: Seq<Space>, loser: AgentId, winner: AgentId)
    ensures
        crate::resolver::eliminate(s, loser, winner).len() == s.len(),
        total_armies(crate::resolver::eliminate(s, loser, winner)) == total_armies(s),
    decreases s.len(),
{
    let e = crate::resolver::eliminate(s, loser, winner);
    if s.len() == 0 {
        assert(e =~= Seq::<Space>::empty());
    } else {
        assert(e.drop_last() =~= crate::resolver::eliminate(s.drop_last(), loser, winner));
        assert(e.last() == transfer_space(s.last(), loser, winner));
        lemma_total_eliminate(s.drop_last(), loser, winner);
    }
}

/// The armies a single move destroys in combat: both sides lose the smaller
/// of the clashing counts when an owned or neutral-capital space is invaded
/// by another agent; friendly merges and marches into empty space lose
/// nothing, and neither does a move dropped at resolution time.
pub open spec fn move_loss(n: int, s: Seq<Space>, m: Move) -> int {
    let fi = flat(n, m.from);
    let ti = flat(n, m.to);
    if s[fi].spec_owner() != Some(m.owner) || s[ti] == Space::Mountain {
        0
    } else {
        let from_armies = s[fi].spec_armies();
        let amount = move_amount(from_armies);
        let s1 = s.update(fi, with_armies(s[fi], (from_armies - amount) as u32));
        match s1[ti] {
            Space::Empty => 0,
            Space::Mountain => 0,
            Space::Owned { owner: p, armies: d } => if p == m.owner {
                0
            } else if amount <= d {
                2 * amount
            } else {
                2 * d
            },
            Space::Capital { owner: po, armies: d } => if po == Some(m.owner) {
                0
            } else if amount <= d {
                2 * amount
            } else {
                2 * d
            },
        }
    }
}

/// One resolved move neither creates armies nor destroys any beyond its
/// combat loss — as long as the board's total fits the army counter, so
/// that no merge saturates.
pub proof fn lemma_resolve_one_total(n: int, s: Seq<Space>, m: Move)
    requires
        0 <= flat(n, m.from) < s.len(),
        0 <= flat(n, m.to) < s.len(),
        total_armies(s) <= u32::MAX,
    ensures
        resolve_one(n, s, m).len() == s.len(),
        0 <= move_loss(n, s, m),
        total_armies(resolve_one(n, s, m)) == total_armies(s) - move_loss(n, s, m),
{
    let fi = flat(n, m.from);
    let ti = flat(n, m.to);
    if s[fi].spec_owner() != Some(m.owner) || s[ti] == Space::Mountain {
    } else {
        let from_armies = s[fi].spec_armies();
        let amount = move_amount(from_armies);
        let s1 = s.update(fi, with_armies(s[fi], (from_armies - amount) as u32));
        lemma_total_update(s, fi, with_armies(s[fi], (from_armies - amount) as u32));
        assert(total_armies(s1) == total_armies(s) - amount);
        let d = s1[ti].spec_armies();
        if ti == fi {
            assert(d + amount == from_armies);
        } else {
            assert(s1[ti] == s[ti]);
            lemma_pair_le_total(s, fi, ti);
            assert(d + amount <= total_armies(s));
        }
        match s1[ti] {
            Space::Empty => {
                lemma_total_update(s1, ti, Space::Owned { owner: m.owner, armies: amount });
            },
            Space::Mountain => {},
            Space::Owned { owner: p, armies: dd } => {
                if p == m.owner {
                    lemma_total_update(
                        s1,
                        ti,
                        Space::Owned { owner: p, armies: crate::resolver::sat_add(dd, amount) },
                    );
                } else if amount > dd {
                    lemma_total_update(
                        s1,
                        ti,
                        Space::Owned {
                            owner: m.owner,
                            armies: crate::resolver::invaded(dd, amount),
                        },
                    );
                } else {
                    lemma_total_update(
                        s1,
                        ti,
                        Space::Owned { owner: p, armies: crate::resolver::invaded(dd, amount) },
                    );
                }
            },
            Space::Capital { owner: po, armies: dd } => {
                match po {
                    None => {
                        if amount > dd {
                            lemma_total_update(
                                s1,
                                ti,
                                Space::Capital {
                                    owner: Some(m.owner),
                                    armies: crate::resolver::invaded(dd, amount),
                                },
                            );
                        } else {
                            lemma_total_update(
                                s1,
                                ti,
                                Space::Capital {
                                    owner: None,
                                    armies: crate::resolver::invaded(dd, amount),
                                },
                            );
                        }
                    },
                    Some(p) => {
                        if p == m.owner {
                            lemma_total_update(
                                s1,
                                ti,
                                Space::Capital {
                                    owner: Some(p),
                                    armies: crate::resolver::sat_add(dd, amount),
                                },
                            );
                        } else if amount > dd {
                            let captured = s1.update(
                                ti,
                                Space::Capital {
                                    owner: Some(m.owner),
                                    armies: crate::resolver::invaded(dd, amount),
                                },
                            );
                            lemma_total_update(
                                s1,
                                ti,
                                Space::Capital {
                                    owner: Some(m.owner),
                                    armies: crate::resolver::invaded(dd, amount),
                                },
                            );
                            lemma_total_eliminate(captured, p, m.owner);
                        } else {
                            lemma_total_update(
                                s1,
                                ti,
                                Space::Capital {
                                    owner: Some(p),
                                    armies: crate::resolver::invaded(dd, amount),
                                },
                            );
                        }
                    },
                }
            },
        }
    }
}

/// The combat losses of a whole batch, summed in processing order.
pub open spec fn batch_loss(n: int, s: Seq<Space>, ms: Seq<Move>) -> int
    decreases ms.len(),
{
    if ms.len() == 0 {
        0
    } else {
        move_loss(n, s, ms.first()) + batch_loss(n, resolve_one(n, s, ms.first()), ms.drop_first())
    }
}

/// A resolved batch loses exactly its summed combat losses.
pub proof fn lemma_resolve_batch_total(n: int, s: Seq<Space>, ms: Seq<Move>)
    requires
        forall|k: int|
            0 <= k < ms.len() ==> 0 <= flat(n, (#[trigger] ms[k]).from) < s.len() && 0 <= flat(
                n,
                ms[k].to,
            ) < s.len(),
        total_armies(s) <= u32::MAX,
    ensures
        resolve_moves(n, s, ms).len() == s.len(),
        0 <= batch_loss(n, s, ms),
        total_armies(resolve_moves(n, s, ms)) == total_armies(s) - batch_loss(n, s, ms),
    decreases ms.len(),
{
    if ms.len() > 0 {
        lemma_resolve_one_total(n, s, ms.first());
        let s2 = resolve_one(n, s, ms.first());
        assert forall|k: int|
            0 <= k < ms.drop_first().len() implies 0 <= flat(
            n,
            (#[trigger] ms.drop_first()[k]).from,
        ) < s2.len() && 0 <= flat(n, ms.drop_first()[k].to) < s2.len() by {
            assert(ms.drop_first()[k] == ms[k + 1]);
        }
        lemma_resolve_batch_total(n, s2, ms.drop_first());
    }
}

/// Whether a space gains a growth army this turn.
pub open spec fn space_grows(sp: Space, turn: u64) -> bool {
    match sp {
        Space::Owned { .. } => territory_grows(turn),
        Space::Capital { owner: Some(_), .. } => true,
        _ => false,
    }
}

/// How many armies the growth rule hands out on this board this turn.
pub open spec fn growth_amount(s: Seq<Space>, turn: u64) -> int
    decreases s.len(),
{
    if s.len() == 0 {
        0
    } else {
        growth_amount(s.drop_last(), turn) + if space_grows(s.last(), turn) {
            1int
        } else {
            0int
        }
    }
}

/// Growth adds exactly its increments — as long as no single count sits at
/// the counter's ceiling.
pub proof fn lemma_grow_total(s: Seq<Space>, turn: u64)
    requires
        forall|i: int| 0 <= i < s.len() ==> s[i].spec_armies() < u32::MAX,
    ensures
        grow_board(s, turn).len() == s.len(),
        0 <= growth_amount(s, turn) <= s.len(),
        total_armies(grow_board(s, turn)) == total_armies(s) + growth_amount(s, turn),
    decreases s.len(),
{
    let g = grow_board(s, turn);
    if s.len() == 0 {
        assert(g =~= Seq::<Space>::empty());
    } else {
        assert(g.drop_last() =~= grow_board(s.drop_last(), turn));
        assert(g.last() == grow_space(s.last(), turn));
        assert forall|i: int|
            0 <= i < s.drop_last().len() implies s.drop_last()[i].spec_armies() < u32::MAX by {
            assert(s.drop_last()[i] == s[i]);
        }
        assert(s[s.len() - 1].spec_armies() < u32::MAX);
        lemma_grow_total(s.drop_last(), turn);
    }
}

/// Conservation over one whole turn: the change in the board's total army
/// count is exactly the growth increments handed out minus the combat
/// losses of the accepted moves — armies are never created or destroyed
/// outside those two rules. Stated away from the army counter's ceiling,
/// where saturation would otherwise swallow armies.
pub proof fn lemma_turn_conservation(b: Board, ms: Seq<Move>, turn: u64)
    requires
        b.wf(),
        total_armies(b.spaces@) + b.spaces@.len() <= u32::MAX,
    ensures
        ({
            let ordered = sort_moves_spec(accepted_moves(b, ms));
            let resolved = resolve_moves(b.side as int, b.spaces@, ordered);
            &&& 0 <= batch_loss(b.side as int, b.spaces@, ordered)
            &&& 0 <= growth_amount(resolved, turn)
            &&& total_armies(turn_result(b, ms, turn)) == total_armies(b.spaces@)
                + growth_amount(resolved, turn) - batch_loss(b.side as int, b.spaces@, ordered)
        }),
{
    let n = b.side as int;
    let s = b.spaces@;
    let ordered = sort_moves_spec(accepted_moves(b, ms));
    assert forall|k: int|
        0 <= k < ordered.len() implies 0 <= flat(n, (#[trigger] ordered[k]).from) < s.len() && 0
        <= flat(n, ordered[k].to) < s.len() by {
        assert(ordered.contains(ordered[k]));
        lemma_sort_contains(accepted_moves(b, ms), ordered[k]);
        lemma_accepted_valid(b, ms, ordered[k]);
        b.lemma_idx_in_range(ordered[k].from);
        b.lemma_idx_in_range(ordered[k].to);
    }
    lemma_total_nonneg(s);
    lemma_resolve_batch_total(n, s, ordered);
    let resolved = resolve_moves(n, s, ordered);
    assert forall|i: int| 0 <= i < resolved.len() implies resolved[i].spec_armies()
        < u32::MAX by {
        lemma_elem_le_total(resolved, i);
        lemma_total_nonneg(resolved);
    }
    lemma_grow_total(resolved, turn);
}

} // verus!
