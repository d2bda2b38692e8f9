//! The turn resolver: validation of proposed moves, a deterministic
//! processing order, combat resolution, elimination on capital capture, and
//! the passive growth rule.
//!
//! Every rule here is a pure function of the board and the batch of moves.
//! Ties and ordering are fixed by policy, never by arrival order: accepted
//! moves are processed sorted by `(to, from, owner)`, an invaded space goes
//! to the strictly larger army with the difference left standing, and an
//! exact tie destroys both sides down to zero armies with no owner change.

use vstd::prelude::*;

use crate::board::Board;
use crate::model::{AgentId, Coord, Move, Space};

verus! {

/// A proposed move is accepted exactly when both ends are on the board, the
/// proposer currently owns `from`, and `to` is not a mountain. Anything else
/// is dropped, never fatal.
pub open spec fn valid_move(b: Board, m: Move) -> bool {
    &&& b.spec_in_bounds(m.from)
    &&& b.spec_in_bounds(m.to)
    &&& b.spec_owner_of(m.from) == Some(m.owner)
    &&& b.spec_at(m.to) != Space::Mountain
}

/// The validation filter on one move.
pub fn validate_move(b: &Board, m: &Move) -> (r: bool)
    requires
        b.wf(),
    ensures
        r == valid_move(*b, *m),
{
    b.in_bounds(m.from) && b.in_bounds(m.to) && b.owner_of(m.from) == Some(m.owner)
        && !b.is_mountain(m.to)
}

/// The accepted subsequence of a batch, in the batch's order.
pub open spec fn accepted_moves(b: Board, ms: Seq<Move>) -> Seq<Move>
    decreases ms.len(),
{
    if ms.len() == 0 {
        Seq::empty()
    } else {
        let rest = accepted_moves(b, ms.drop_last());
        if valid_move(b, ms.last()) {
            rest.push(ms.last())
        } else {
            rest
        }
    }
}

/// Keep exactly the accepted moves of a batch, in order.
pub fn filter_moves(b: &Board, ms: &Vec<Move>) -> (r: Vec<Move>)
    requires
        b.wf(),
    ensures
        r@ == accepted_moves(*b, ms@),
{
    let mut r: Vec<Move> = Vec::new();
    let mut i: usize = 0;
    while i < ms.len()
        invariant
            b.wf(),
            i <= ms.len(),
            r@ == accepted_moves(*b, ms@.take(i as int)),
        decreases ms.len() - i,
    {
        if validate_move(b, &ms[i]) {
            r.push(ms[i]);
        }
        proof {
            assert(ms@.take(i + 1).drop_last() =~= ms@.take(i as int));
            assert(ms@.take(i + 1).last() == ms@[i as int]);
        }
        i = i + 1;
    }
    proof {
        assert(ms@.take(ms@.len() as int) =~= ms@);
    }
    r
}

/// The processing order on moves: lexicographic by
/// `(to.x, to.y, from.x, from.y, owner)`. Since those fields are the whole
/// move, this is a total order in which equal moves are identical, so the
/// sorted batch is a function of the set of accepted moves alone and the
/// outcome of a turn never depends on arrival order.
pub open spec fn move_le(a: Move, b: Move) -> bool {
    if a.to.x != b.to.x {
        a.to.x < b.to.x
    } else if a.to.y != b.to.y {
        a.to.y < b.to.y
    } else if a.from.x != b.from.x {
        a.from.x < b.from.x
    } else if a.from.y != b.from.y {
        a.from.y < b.from.y
    } else {
        a.owner <= b.owner
    }
}

/// The processing order, decided in code.
pub fn move_le_exec(a: &Move, b: &Move) -> (r: bool)
    ensures
        r == move_le(*a, *b),
{
    if a.to.x != b.to.x {
        a.to.x < b.to.x
    } else if a.to.y != b.to.y {
        a.to.y < b.to.y
    } else if a.from.x != b.from.x {
        a.from.x < b.from.x
    } else if a.from.y != b.from.y {
        a.from.y < b.from.y
    } else {
        a.owner <= b.owner
    }
}

/// `m` placed into the already sorted `s`, after every element below it.
pub open spec fn insert_sorted(s: Seq<Move>, m: Move) -> Seq<Move>
    decreases s.len(),
{
    if s.len() == 0 {
        seq![m]
    } else if move_le(s.last(), m) {
        s.push(m)
    } else {
        insert_sorted(s.drop_last(), m).push(s.last())
    }
}

/// The batch in processing order: insertion sort, element by element.
pub open spec fn sort_moves_spec(ms: Seq<Move>) -> Seq<Move>
    decreases ms.len(),
{
    if ms.len() == 0 {
        Seq::empty()
    } else {
        insert_sorted(sort_moves_spec(ms.drop_last()), ms.last())
    }
}

/// Every adjacent pair of `s` is ordered.
pub open spec fn sorted_moves(s: Seq<Move>) -> bool {
    forall|i: int, j: int| 0 <= i <= j < s.len() ==> move_le(s[i], s[j])
}

/// The processing order is total: of two moves, one comes first.
pub proof fn lemma_move_le_total(a: Move, b: Move)
    ensures
        move_le(a, b) || move_le(b, a),
{
}

/// The processing order is transitive.
pub proof fn lemma_move_le_trans(a: Move, b: Move, c: Move)
    requires
        move_le(a, b),
        move_le(b, c),
    ensures
        move_le(a, c),
{
}

/// Inserting into a sorted sequence keeps it sorted.
pub proof fn lemma_insert_sorted_sorted(s: Seq<Move>, m: Move)
    requires
        sorted_moves(s),
    ensures
        sorted_moves(insert_sorted(s, m)),
    decreases s.len(),
{
    if s.len() == 0 {
    } else if move_le(s.last(), m) {
        let r = s.push(m);
        assert forall|i: int, j: int| 0 <= i <= j < r.len() implies move_le(r[i], r[j]) by {
            if j == r.len() - 1 {
                if i < s.len() {
                    lemma_move_le_trans(s[i], s.last(), m);
                }
            }
        }
    } else {
        lemma_move_le_total(s.last(), m);
        assert(move_le(m, s.last()));
        assert forall|i: int, j: int|
            0 <= i <= j < s.drop_last().len() implies move_le(s.drop_last()[i], s.drop_last()[j]) by {
            assert(s.drop_last()[i] == s[i]);
            assert(s.drop_last()[j] == s[j]);
        }
        lemma_insert_sorted_sorted(s.drop_last(), m);
        let t = insert_sorted(s.drop_last(), m);
        let r = t.push(s.last());
        assert forall|i: int, j: int| 0 <= i <= j < r.len() implies move_le(r[i], r[j]) by {
            if j == r.len() - 1 && i < t.len() {
                assert(t.contains(t[i]));
                lemma_insert_sorted_contains(s.drop_last(), m, t[i]);
                if t[i] == m {
                } else {
                    let k = choose|k: int|
                        0 <= k < s.drop_last().len() && s.drop_last()[k] == t[i];
                    assert(s[k] == t[i]);
                    assert(move_le(s[k], s[s.len() - 1]));
                }
            }
        }
    }
}

/// What the resolver processes is sorted: the turn's outcome is a function
/// of which moves were accepted, never of the order they arrived in.
pub proof fn lemma_sort_moves_sorted(ms: Seq<Move>)
    ensures
        sorted_moves(sort_moves_spec(ms)),
    decreases ms.len(),
{
    if ms.len() > 0 {
        lemma_sort_moves_sorted(ms.drop_last());
        lemma_insert_sorted_sorted(sort_moves_spec(ms.drop_last()), ms.last());
    }
}

/// Insertion adds exactly the one move to the batch's contents.
pub proof fn lemma_insert_sorted_multiset(s: Seq<Move>, m: Move)
    ensures
        insert_sorted(s, m).to_multiset() == s.to_multiset().insert(m),
    decreases s.len(),
{
    broadcast use vstd::seq_lib::group_to_multiset_ensures;

    if s.len() == 0 {
        assert(seq![m] =~= Seq::<Move>::empty().push(m));
    } else if move_le(s.last(), m) {
    } else {
        lemma_insert_sorted_multiset(s.drop_last(), m);
        assert(s.drop_last().push(s.last()) =~= s);
        assert(insert_sorted(s.drop_last(), m).push(s.last()).to_multiset() == insert_sorted(
            s.drop_last(),
            m,
        ).to_multiset().insert(s.last()));
        assert(s.to_multiset() == s.drop_last().to_multiset().insert(s.last()));
        assert(insert_sorted(s, m).to_multiset() =~= s.to_multiset().insert(m));
    }
}

/// The processing order is a permutation of the accepted batch: sorting
/// drops nothing and invents nothing.
pub proof fn lemma_sort_moves_permutes(ms: Seq<Move>)
    ensures
        sort_moves_spec(ms).to_multiset() == ms.to_multiset(),
    decreases ms.len(),
{
    broadcast use vstd::seq_lib::group_to_multiset_ensures;

    if ms.len() > 0 {
        lemma_sort_moves_permutes(ms.drop_last());
        lemma_insert_sorted_multiset(sort_moves_spec(ms.drop_last()), ms.last());
        assert(ms.drop_last().push(ms.last()) =~= ms);
        assert(ms.to_multiset() == ms.drop_last().to_multiset().insert(ms.last()));
    }
}

/// Splicing `m` into `s` at a position `j` whose left neighbour is below `m`
/// and whose suffix is all above `m` is exactly `insert_sorted`.
proof fn lemma_insert_at(s: Seq<Move>, m: Move, j: int)
    requires
        0 <= j <= s.len(),
        j > 0 ==> move_le(s[j - 1], m),
        forall|k: int| j <= k < s.len() ==> !move_le(s[k], m),
    ensures
        s.insert(j, m) == insert_sorted(s, m),
    decreases s.len(),
{
    if s.len() == 0 {
        assert(s.insert(0, m) =~= seq![m]);
    } else if j == s.len() {
        assert(move_le(s.last(), m));
        assert(s.insert(j, m) =~= s.push(m));
    } else {
        assert(!move_le(s.last(), m));
        lemma_insert_at(s.drop_last(), m, j);
        assert(s.insert(j, m) =~= insert_sorted(s.drop_last(), m).push(s.last()));
    }
}

/// Sort a batch into processing order.
pub fn sort_moves(ms: &Vec<Move>) -> (r: Vec<Move>)
    ensures
        r@ == sort_moves_spec(ms@),
{
    let mut r: Vec<Move> = Vec::new();
    let mut i: usize = 0;
    while i < ms.len()
        invariant
            i <= ms.len(),
            r@ == sort_moves_spec(ms@.take(i as int)),
        decreases ms.len() - i,
    {
        let m = ms[i];
        let mut j: usize = r.len();
        while j > 0 && !move_le_exec(&r[j - 1], &m)
            invariant
                j <= r.len(),
                forall|k: int| j <= k < r@.len() ==> !move_le(r@[k], m),
            decreases j,
        {
            j = j - 1;
        }
        proof {
            lemma_insert_at(r@, m, j as int);
            assert(ms@.take(i + 1).drop_last() =~= ms@.take(i as int));
            assert(ms@.take(i + 1).last() == ms@[i as int]);
        }
        r.insert(j, m);
        i = i + 1;
    }
    proof {
        assert(ms@.take(ms@.len() as int) =~= ms@);
    }
    r
}

/// Flat index of `c` on a board of side `n`.
pub open spec fn flat(n: int, c: Coord) -> int {
    c.x * n + c.y
}

/// Addition of army counts, capped at the counter's ceiling.
pub open spec fn sat_add(a: u32, b: u32) -> u32 {
    if a + b > u32::MAX {
        u32::MAX
    } else {
        (a + b) as u32
    }
}

/// How many armies a move launches: all but one from `from`.
pub open spec fn move_amount(armies: u32) -> u32 {
    if armies >= 1 {
        (armies - 1) as u32
    } else {
        0
    }
}

/// The same space with its army count replaced; `Empty` and `Mountain`
/// carry no armies and stay as they are.
pub open spec fn with_armies(sp: Space, a: u32) -> Space {
    match sp {
        Space::Owned { owner, .. } => Space::Owned { owner, armies: a },
        Space::Capital { owner, .. } => Space::Capital { owner, armies: a },
        _ => sp,
    }
}

/// One space after an elimination: everything the loser held passes to the
/// eliminator, armies untouched; other spaces are unchanged.
pub open spec fn transfer_space(sp: Space, loser: AgentId, winner: AgentId) -> Space {
    match sp {
        Space::Owned { owner, armies } => if owner == loser {
            Space::Owned { owner: winner, armies }
        } else {
            sp
        },
        Space::Capital { owner, armies } => if owner == Some(loser) {
            Space::Capital { owner: Some(winner), armies }
        } else {
            sp
        },
        _ => sp,
    }
}

/// The whole board after an elimination.
pub open spec fn eliminate(s: Seq<Space>, loser: AgentId, winner: AgentId) -> Seq<Space> {
    s.map_values(|sp: Space| transfer_space(sp, loser, winner))
}

/// What an invasion leaves on the target space: the strictly larger army
/// wins with the difference left standing; an exact tie destroys both down
/// to zero with no owner change.
pub open spec fn invaded(defender: u32, attacker: u32) -> u32 {
    if attacker > defender {
        (attacker - defender) as u32
    } else {
        (defender - attacker) as u32
    }
}

/// One accepted move applied to the board.
///
/// The mover must still own `from` when its move comes up — an elimination
/// earlier in the same batch may have taken the space — otherwise the move
/// is dropped here, leaving the board as it is. The launched armies then
/// merge with a friendly target, invade an enemy or neutral one, and a
/// captured capital eliminates its owner on the spot.
pub open spec fn resolve_one(n: int, s: Seq<Space>, m: Move) -> Seq<Space> {
    let fi = flat(n, m.from);
    let ti = flat(n, m.to);
    if s[fi].spec_owner() != Some(m.owner) || s[ti] == Space::Mountain {
        s
    } else {
        let from_armies = s[fi].spec_armies();
        let amount = move_amount(from_armies);
        let s1 = s.update(fi, with_armies(s[fi], (from_armies - amount) as u32));
        let target = s1[ti];
        match target {
            Space::Empty => s1.update(ti, Space::Owned { owner: m.owner, armies: amount }),
            Space::Mountain => s,
            Space::Owned { owner: p, armies: d } => if p == m.owner {
                s1.update(ti, Space::Owned { owner: p, armies: sat_add(d, amount) })
            } else if amount > d {
                s1.update(ti, Space::Owned { owner: m.owner, armies: invaded(d, amount) })
            } else {
                s1.update(ti, Space::Owned { owner: p, armies: invaded(d, amount) })
            },
            Space::Capital { owner: po, armies: d } => match po {
                None => if amount > d {
                    s1.update(
                        ti,
                        Space::Capital { owner: Some(m.owner), armies: invaded(d, amount) },
                    )
                } else {
                    s1.update(ti, Space::Capital { owner: None, armies: invaded(d, amount) })
                },
                Some(p) => if p == m.owner {
                    s1.update(ti, Space::Capital { owner: Some(p), armies: sat_add(d, amount) })
                } else if amount > d {
                    eliminate(
                        s1.update(
                            ti,
                            Space::Capital { owner: Some(m.owner), armies: invaded(d, amount) },
                        ),
                        p,
                        m.owner,
                    )
                } else {
                    s1.update(ti, Space::Capital { owner: Some(p), armies: invaded(d, amount) })
                },
            },
        }
    }
}

/// A batch applied in order, front to back.
pub open spec fn resolve_moves(n: int, s: Seq<Space>, ms: Seq<Move>) -> Seq<Space>
    decreases ms.len(),
{
    if ms.len() == 0 {
        s
    } else {
        resolve_moves(n, resolve_one(n, s, ms.first()), ms.drop_first())
    }
}

/// Resolution never changes the number of spaces.
pub proof fn lemma_resolve_one_len(n: int, s: Seq<Space>, m: Move)
    requires
        0 <= flat(n, m.from) < s.len(),
        0 <= flat(n, m.to) < s.len(),
    ensures
        resolve_one(n, s, m).len() == s.len(),
{
}

/// The army count replacement, in code.
fn with_armies_exec(sp: Space, a: u32) -> (r: Space)
    ensures
        r == with_armies(sp, a),
{
    match sp {
        Space::Owned { owner, .. } => Space::Owned { owner, armies: a },
        Space::Capital { owner, .. } => Space::Capital { owner, armies: a },
        _ => sp,
    }
}

/// The elimination sweep, in code: every space the loser held passes to the
/// winner.
fn eliminate_board(b: &mut Board, loser: AgentId, winner: AgentId)
    requires
        old(b).wf(),
    ensures
        final(b).wf(),
        final(b).side == old(b).side,
        final(b).spaces@ == eliminate(old(b).spaces@, loser, winner),
{
    let n = b.spaces.len();
    let mut i: usize = 0;
    while i < n
        invariant
            i <= n,
            b.side == old(b).side,
            b.spaces@.len() == n,
            old(b).spaces@.len() == n,
            forall|k: int|
                0 <= k < i ==> b.spaces@[k] == transfer_space(old(b).spaces@[k], loser, winner),
            forall|k: int| i <= k < n ==> b.spaces@[k] == old(b).spaces@[k],
        decreases n - i,
    {
        let sp = b.spaces[i];
        let replaced = match sp {
            Space::Owned { owner, armies } => if owner == loser {
                Space::Owned { owner: winner, armies }
            } else {
                sp
            },
            Space::Capital { owner: Some(p), armies } => if p == loser {
                Space::Capital { owner: Some(winner), armies }
            } else {
                sp
            },
            _ => sp,
        };
        b.spaces.set(i, replaced);
        i = i + 1;
    }
    proof {
        assert(b.spaces@ =~= eliminate(old(b).spaces@, loser, winner));
    }
}

/// One accepted move applied to the board, in code.
pub fn apply_move(b: &mut Board, m: Move)
    requires
        old(b).wf(),
        old(b).spec_in_bounds(m.from),
        old(b).spec_in_bounds(m.to),
    ensures
        final(b).wf(),
        final(b).side == old(b).side,
        final(b).spaces@ == resolve_one(old(b).side as int, old(b).spaces@, m),
{
    let from_sp = b.at(m.from);
    if from_sp.owner() != Some(m.owner) || b.at(m.to) == Space::Mountain {
        return ;
    }
    let from_armies = from_sp.armies();
    let amount = if from_armies >= 1 {
        from_armies - 1
    } else {
        0
    };
    b.set(m.from, with_armies_exec(from_sp, from_armies - amount));
    let target = b.at(m.to);
    match target {
        Space::Empty => {
            b.set(m.to, Space::Owned { owner: m.owner, armies: amount });
        },
        Space::Mountain => {
            proof {
                assert(false);
            }
        },
        Space::Owned { owner: p, armies: d } => {
            if p == m.owner {
                let merged = if d <= u32::MAX - amount {
                    d + amount
                } else {
                    u32::MAX
                };
                b.set(m.to, Space::Owned { owner: p, armies: merged });
            } else if amount > d {
                b.set(m.to, Space::Owned { owner: m.owner, armies: amount - d });
            } else {
                b.set(m.to, Space::Owned { owner: p, armies: d - amount });
            }
        },
        Space::Capital { owner: po, armies: d } => {
            match po {
                None => {
                    if amount > d {
                        b.set(
                            m.to,
                            Space::Capital { owner: Some(m.owner), armies: amount - d },
                        );
                    } else {
                        b.set(m.to, Space::Capital { owner: None, armies: d - amount });
                    }
                },
                Some(p) => {
                    if p == m.owner {
                        let merged = if d <= u32::MAX - amount {
                            d + amount
                        } else {
                            u32::MAX
                        };
                        b.set(m.to, Space::Capital { owner: Some(p), armies: merged });
                    } else if amount > d {
                        b.set(
                            m.to,
                            Space::Capital { owner: Some(m.owner), armies: amount - d },
                        );
                        eliminate_board(b, p, m.owner);
                    } else {
                        b.set(m.to, Space::Capital { owner: Some(p), armies: d - amount });
                    }
                },
            }
        },
    }
}

/// A batch applied in order, front to back, in code.
pub fn resolve_batch(b: &mut Board, ms: &Vec<Move>)
    requires
        old(b).wf(),
        forall|k: int|
            0 <= k < ms@.len() ==> old(b).spec_in_bounds(ms@[k].from) && old(b).spec_in_bounds(
                ms@[k].to,
            ),
    ensures
        final(b).wf(),
        final(b).side == old(b).side,
        final(b).spaces@ == resolve_moves(old(b).side as int, old(b).spaces@, ms@),
{
    let mut i: usize = 0;
    proof {
        assert(ms@.skip(0) =~= ms@);
    }
    while i < ms.len()
        invariant
            i <= ms.len(),
            b.wf(),
            b.side == old(b).side,
            forall|k: int|
                0 <= k < ms@.len() ==> old(b).spec_in_bounds(ms@[k].from) && old(
                    b,
                ).spec_in_bounds(ms@[k].to),
            resolve_moves(old(b).side as int, old(b).spaces@, ms@) == resolve_moves(
                b.side as int,
                b.spaces@,
                ms@.skip(i as int),
            ),
        decreases ms.len() - i,
    {
        proof {
            assert(ms@.skip(i as int).first() == ms@[i as int]);
            assert(ms@.skip(i as int).drop_first() =~= ms@.skip(i + 1));
        }
        apply_move(b, ms[i]);
        i = i + 1;
    }
    proof {
        assert(ms@.skip(ms@.len() as int) =~= Seq::<Move>::empty());
    }
}

/// Plain territory gains its army on every such turn; capitals gain one
/// every turn.
pub const TERRITORY_GROWTH_INTERVAL: u64 = 25;

/// Whether plain owned territory grows on this turn: once every
/// `TERRITORY_GROWTH_INTERVAL` turns, the turn number alone deciding.
pub open spec fn territory_grows(turn: u64) -> bool {
    turn % TERRITORY_GROWTH_INTERVAL == TERRITORY_GROWTH_INTERVAL - 1
}

/// One space after the growth rule: an owned capital gains one army every
/// turn, plain owned territory one army every `TERRITORY_GROWTH_INTERVAL`
/// turns; everything else is untouched. Deterministic and turn-number
/// driven.
pub open spec fn grow_space(sp: Space, turn: u64) -> Space {
    match sp {
        Space::Owned { owner, armies } => if territory_grows(turn) {
            Space::Owned { owner, armies: sat_add(armies, 1) }
        } else {
            sp
        },
        Space::Capital { owner: Some(p), armies } => Space::Capital {
            owner: Some(p),
            armies: sat_add(armies, 1),
        },
        _ => sp,
    }
}

/// The whole board after the growth rule.
pub open spec fn grow_board(s: Seq<Space>, turn: u64) -> Seq<Space> {
    s.map_values(|sp: Space| grow_space(sp, turn))
}

/// The growth rule, in code.
pub fn grow(b: &mut Board, turn: u64)
    requires
        old(b).wf(),
    ensures
        final(b).wf(),
        final(b).side == old(b).side,
        final(b).spaces@ == grow_board(old(b).spaces@, turn),
{
    let grows = turn % TERRITORY_GROWTH_INTERVAL == TERRITORY_GROWTH_INTERVAL - 1;
    let n = b.spaces.len();
    let mut i: usize = 0;
    while i < n
        invariant
            i <= n,
            b.side == old(b).side,
            b.spaces@.len() == n,
            old(b).spaces@.len() == n,
            grows == territory_grows(turn),
            forall|k: int| 0 <= k < i ==> b.spaces@[k] == grow_space(old(b).spaces@[k], turn),
            forall|k: int| i <= k < n ==> b.spaces@[k] == old(b).spaces@[k],
        decreases n - i,
    {
        let sp = b.spaces[i];
        let replaced = match sp {
            Space::Owned { owner, armies } => if grows {
                let a = if armies <= u32::MAX - 1 {
                    armies + 1
                } else {
                    u32::MAX
                };
                Space::Owned { owner, armies: a }
            } else {
                sp
            },
            Space::Capital { owner: Some(p), armies } => {
                let a = if armies <= u32::MAX - 1 {
                    armies + 1
                } else {
                    u32::MAX
                };
                Space::Capital { owner: Some(p), armies: a }
            },
            _ => sp,
        };
        b.spaces.set(i, replaced);
        i = i + 1;
    }
    proof {
        assert(b.spaces@ =~= grow_board(old(b).spaces@, turn));
    }
}

/// Insertion adds exactly one element to those already present.
pub proof fn lemma_insert_sorted_contains(s: Seq<Move>, m: Move, x: Move)
    ensures
        insert_sorted(s, m).contains(x) <==> (s.contains(x) || x == m),
    decreases s.len(),
{
    if s.len() == 0 {
        assert(seq![m].contains(x) <==> x == m) by {
            assert(seq![m][0] == m);
            if seq![m].contains(x) {
                let i = choose|i: int| 0 <= i < seq![m].len() && seq![m][i] == x;
                assert(i == 0);
            }
        }
    } else if move_le(s.last(), m) {
        assert(s.push(m).contains(x) <==> (s.contains(x) || x == m)) by {
            assert(s.push(m)[s.len() as int] == m);
            if s.contains(x) {
                let i = choose|i: int| 0 <= i < s.len() && s[i] == x;
                assert(s.push(m)[i] == x);
            }
            if s.push(m).contains(x) && x != m {
                let i = choose|i: int| 0 <= i < s.push(m).len() && s.push(m)[i] == x;
                if i < s.len() {
                    assert(s[i] == x);
                }
            }
        }
    } else {
        lemma_insert_sorted_contains(s.drop_last(), m, x);
        let t = insert_sorted(s.drop_last(), m);
        assert(t.push(s.last()).contains(x) <==> (t.contains(x) || x == s.last())) by {
            assert(t.push(s.last())[t.len() as int] == s.last());
            if t.contains(x) {
                let i = choose|i: int| 0 <= i < t.len() && t[i] == x;
                assert(t.push(s.last())[i] == x);
            }
            if t.push(s.last()).contains(x) && x != s.last() {
                let i = choose|i: int| 0 <= i < t.push(s.last()).len() && t.push(s.last())[i] == x;
                if i < t.len() {
                    assert(t[i] == x);
                }
            }
        }
        assert(s.contains(x) <==> (s.drop_last().contains(x) || x == s.last())) by {
            if s.drop_last().contains(x) {
                let i = choose|i: int| 0 <= i < s.drop_last().len() && s.drop_last()[i] == x;
                assert(s[i] == x);
            }
            if x == s.last() {
                assert(s[s.len() - 1] == x);
            }
            if s.contains(x) && x != s.last() {
                let i = choose|i: int| 0 <= i < s.len() && s[i] == x;
                assert(s.drop_last()[i] == x);
            }
        }
    }
}

/// Sorting neither adds nor loses moves.
pub proof fn lemma_sort_contains(ms: Seq<Move>, x: Move)
    ensures
        sort_moves_spec(ms).contains(x) <==> ms.contains(x),
    decreases ms.len(),
{
    if ms.len() == 0 {
    } else {
        lemma_sort_contains(ms.drop_last(), x);
        lemma_insert_sorted_contains(sort_moves_spec(ms.drop_last()), ms.last(), x);
        assert(ms.contains(x) <==> (ms.drop_last().contains(x) || x == ms.last())) by {
            if ms.drop_last().contains(x) {
                let i = choose|i: int| 0 <= i < ms.drop_last().len() && ms.drop_last()[i] == x;
                assert(ms[i] == x);
            }
            if x == ms.last() {
                assert(ms[ms.len() - 1] == x);
            }
            if ms.contains(x) && x != ms.last() {
                let i = choose|i: int| 0 <= i < ms.len() && ms[i] == x;
                assert(ms.drop_last()[i] == x);
            }
        }
    }
}

/// Whatever passed the filter was in the batch and is valid.
pub proof fn lemma_accepted_valid(b: Board, ms: Seq<Move>, x: Move)
    requires
        accepted_moves(b, ms).contains(x),
    ensures
        valid_move(b, x),
        ms.contains(x),
    decreases ms.len(),
{
    if ms.len() == 0 {
    } else {
        let rest = accepted_moves(b, ms.drop_last());
        if valid_move(b, ms.last()) && x == ms.last() {
            assert(ms[ms.len() - 1] == x);
        } else {
            assert(rest.contains(x)) by {
                let r = if valid_move(b, ms.last()) {
                    rest.push(ms.last())
                } else {
                    rest
                };
                assert(r.contains(x));
                if valid_move(b, ms.last()) {
                    let i = choose|i: int| 0 <= i < r.len() && r[i] == x;
                    assert(i < rest.len());
                    assert(rest[i] == x);
                }
            }
            lemma_accepted_valid(b, ms.drop_last(), x);
            let i = choose|i: int| 0 <= i < ms.drop_last().len() && ms.drop_last()[i] == x;
            assert(ms[i] == x);
        }
    }
}

} // verus!
