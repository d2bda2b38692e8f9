//! The game's state and the per-turn transition: apply a batch of proposed
//! moves, run the growth rule, detect whether the game is over, and advance
//! the turn counter.

use vstd::prelude::*;
use vstd::seq_lib::lemma_seq_contains_after_push;

use crate::board::Board;
use crate::model::{AgentId, Coord, Move, Space, BOARD_SIZE};
use crate::resolver::{
    accepted_moves, filter_moves, grow, grow_board, lemma_accepted_valid, lemma_sort_contains,
    resolve_batch, resolve_moves, sort_moves, sort_moves_spec,
};

verus! {

/// How many armies a capital starts with.
pub const CAPITAL_START_ARMIES: u32 = 1;

/// `a` owns at least one space of `s`.
pub open spec fn owns_space(s: Seq<Space>, a: AgentId) -> bool {
    exists|i: int| 0 <= i < s.len() && s[i].spec_owner() == Some(a)
}

/// At most one agent owns spaces of `s`: the game-over condition.
pub open spec fn at_most_one_owner(s: Seq<Space>) -> bool {
    forall|a: AgentId, b: AgentId| owns_space(s, a) && owns_space(s, b) ==> a == b
}

/// The board a turn's resolution leaves behind: the batch filtered, put in
/// processing order, applied, and the growth rule run for `turn`.
pub open spec fn turn_result(b: Board, ms: Seq<Move>, turn: u64) -> Seq<Space> {
    grow_board(
        resolve_moves(b.side as int, b.spaces@, sort_moves_spec(accepted_moves(b, ms))),
        turn,
    )
}

/// Full state of one game. The turn loop around the library owns it
/// exclusively; agents and viewers only ever see clones.
#[derive(Debug)]
pub struct GameState {
    pub game_id: String,
    pub turn: u64,
    pub spaces: Board,
}

/// Membership scan used to keep the remaining-player roster free of
/// duplicates.
fn roster_contains(v: &Vec<AgentId>, a: AgentId) -> (r: bool)
    ensures
        r == v@.contains(a),
{
    let mut i: usize = 0;
    while i < v.len()
        invariant
            i <= v.len(),
            forall|k: int| 0 <= k < i ==> v@[k] != a,
        decreases v.len() - i,
    {
        if v[i] == a {
            return true;
        }
        i = i + 1;
    }
    false
}

impl GameState {
    /// The state's invariant: a well-formed board.
    pub open spec fn wf(self) -> bool {
        self.spaces.wf()
    }

    /// A fresh game on the default board: the `k`-th player's capital stands
    /// at `(k, k)` with its starting garrison, every other space is empty.
    pub fn new(game_id: String, players: Vec<AgentId>) -> (r: GameState)
        requires
            players@.len() <= BOARD_SIZE,
        ensures
            r.wf(),
            r.turn == 0,
            r.game_id == game_id,
            r.spaces.side == BOARD_SIZE,
            forall|k: int|
                0 <= k < players@.len() ==> r.spaces.spec_at(
                    Coord { x: k as usize, y: k as usize },
                ) == (Space::Capital {
                    owner: Some(players@[k]),
                    armies: CAPITAL_START_ARMIES,
                }),
            forall|c: Coord|
                r.spaces.spec_in_bounds(c) && !(c.x == c.y && c.x < players@.len())
                    ==> r.spaces.spec_at(c) == Space::Empty,
    {
        let mut board = Board::new(BOARD_SIZE);
        let mut k: usize = 0;
        while k < players.len()
            invariant
                k <= players@.len(),
                players@.len() <= BOARD_SIZE,
                board.wf(),
                board.side == BOARD_SIZE,
                forall|j: int|
                    0 <= j < k ==> board.spec_at(Coord { x: j as usize, y: j as usize })
                        == (Space::Capital {
                        owner: Some(players@[j]),
                        armies: CAPITAL_START_ARMIES,
                    }),
                forall|c: Coord|
                    board.spec_in_bounds(c) && !(c.x == c.y && c.x < k) ==> board.spec_at(c)
                        == Space::Empty,
            decreases players.len() - k,
        {
            board.set(
                Coord { x: k, y: k },
                Space::Capital { owner: Some(players[k]), armies: CAPITAL_START_ARMIES },
            );
            k = k + 1;
        }
        GameState { game_id, turn: 0, spaces: board }
    }

    /// The agents still in the game: exactly those owning at least one
    /// space, each listed once.
    pub fn remaining_players(&self) -> (r: Vec<AgentId>)
        requires
            self.wf(),
        ensures
            forall|a: AgentId| r@.contains(a) <==> owns_space(self.spaces.spaces@, a),
            forall|i: int, j: int| 0 <= i < j < r@.len() ==> r@[i] != r@[j],
    {
        let mut r: Vec<AgentId> = Vec::new();
        let n = self.spaces.spaces.len();
        let mut i: usize = 0;
        while i < n
            invariant
                i <= n,
                n == self.spaces.spaces@.len(),
                forall|a: AgentId|
                    r@.contains(a) <==> exists|k: int|
                        0 <= k < i && self.spaces.spaces@[k].spec_owner() == Some(a),
                forall|p: int, q: int| 0 <= p < q < r@.len() ==> r@[p] != r@[q],
            decreases n - i,
        {
            let sp = self.spaces.spaces[i];
            match sp.owner() {
                Some(a) => {
                    if !roster_contains(&r, a) {
                        let ghost old_r = r@;
                        r.push(a);
                        proof {
                            assert forall|x: AgentId| r@.contains(x) <==> (exists|k: int|
                                0 <= k < i + 1 && self.spaces.spaces@[k].spec_owner() == Some(
                                    x,
                                )) by {
                                lemma_seq_contains_after_push(old_r, a, x);
                                if old_r.contains(x) {
                                    let k = choose|k: int|
                                        0 <= k < i && self.spaces.spaces@[k].spec_owner() == Some(
                                            x,
                                        );
                                    assert(self.spaces.spaces@[k].spec_owner() == Some(x));
                                }
                                if x == a {
                                    assert(self.spaces.spaces@[i as int].spec_owner() == Some(x));
                                }
                            }
                        }
                    } else {
                        proof {
                            assert forall|x: AgentId| r@.contains(x) <==> (exists|k: int|
                                0 <= k < i + 1 && self.spaces.spaces@[k].spec_owner() == Some(
                                    x,
                                )) by {
                                if x == a {
                                    assert(self.spaces.spaces@[i as int].spec_owner() == Some(x));
                                }
                            }
                        }
                    }
                },
                None => {
                    proof {
                        assert forall|x: AgentId| r@.contains(x) <==> (exists|k: int|
                            0 <= k < i + 1 && self.spaces.spaces@[k].spec_owner() == Some(x)) by {
                            if exists|k: int|
                                0 <= k < i + 1 && self.spaces.spaces@[k].spec_owner() == Some(x) {
                                let k = choose|k: int|
                                    0 <= k < i + 1 && self.spaces.spaces@[k].spec_owner() == Some(
                                        x,
                                    );
                                assert(k < i);
                            }
                        }
                    }
                },
            }
            i = i + 1;
        }
        r
    }

    /// Validate, order and apply one turn's batch of proposed moves.
    ///
    /// Every move that fails validation is dropped silently; the accepted
    /// rest is applied in the deterministic processing order.
    pub fn handle_moves(&mut self, moves: Vec<Move>)
        requires
            old(self).wf(),
        ensures
            final(self).wf(),
            final(self).game_id == old(self).game_id,
            final(self).turn == old(self).turn,
            final(self).spaces.side == old(self).spaces.side,
            final(self).spaces.spaces@ == resolve_moves(
                old(self).spaces.side as int,
                old(self).spaces.spaces@,
                sort_moves_spec(accepted_moves(old(self).spaces, moves@)),
            ),
    {
        let accepted = filter_moves(&self.spaces, &moves);
        let ordered = sort_moves(&accepted);
        proof {
            assert forall|k: int|
                0 <= k < ordered@.len() implies self.spaces.spec_in_bounds(ordered@[k].from)
                && self.spaces.spec_in_bounds(ordered@[k].to) by {
                assert(ordered@.contains(ordered@[k]));
                lemma_sort_contains(accepted@, ordered@[k]);
                lemma_accepted_valid(self.spaces, moves@, ordered@[k]);
            }
        }
        resolve_batch(&mut self.spaces, &ordered);
    }

    /// Run the growth rule for the current turn.
    pub fn populate_spaces(&mut self)
        requires
            old(self).wf(),
        ensures
            final(self).wf(),
            final(self).game_id == old(self).game_id,
            final(self).turn == old(self).turn,
            final(self).spaces.side == old(self).spaces.side,
            final(self).spaces.spaces@ == grow_board(old(self).spaces.spaces@, old(self).turn),
    {
        let turn = self.turn;
        grow(&mut self.spaces, turn);
    }

    /// One full turn: validate and apply `moves`, run the growth rule, and
    /// report whether the game is over — at most one agent left owning
    /// spaces. The turn counter advances only while the game goes on.
    pub fn advance_turn(&mut self, moves: Vec<Move>) -> (over: bool)
        requires
            old(self).wf(),
            old(self).turn < u64::MAX,
        ensures
            final(self).wf(),
            final(self).game_id == old(self).game_id,
            final(self).spaces.side == old(self).spaces.side,
            final(self).spaces.spaces@ == turn_result(old(self).spaces, moves@, old(self).turn),
            over == at_most_one_owner(final(self).spaces.spaces@),
            final(self).turn == if over {
                old(self).turn
            } else {
                (old(self).turn + 1) as u64
            },
    {
        self.handle_moves(moves);
        self.populate_spaces();
        let remaining = self.remaining_players();
        let over = remaining.len() <= 1;
        proof {
            let s = self.spaces.spaces@;
            if remaining@.len() == 0 {
                assert forall|a: AgentId, b: AgentId|
                    owns_space(s, a) && owns_space(s, b) implies a == b by {
                    assert(remaining@.contains(a));
                }
            } else if remaining@.len() == 1 {
                assert forall|a: AgentId, b: AgentId|
                    owns_space(s, a) && owns_space(s, b) implies a == b by {
                    assert(remaining@.contains(a));
                    assert(remaining@.contains(b));
                    let i = choose|i: int| 0 <= i < remaining@.len() && remaining@[i] == a;
                    let j = choose|j: int| 0 <= j < remaining@.len() && remaining@[j] == b;
                    assert(i == 0 && j == 0);
                }
            } else {
                assert(remaining@[0] != remaining@[1]);
                assert(remaining@.contains(remaining@[0]));
                assert(remaining@.contains(remaining@[1]));
                assert(owns_space(s, remaining@[0]) && owns_space(s, remaining@[1]));
                assert(!at_most_one_owner(s));
            }
        }
        if !over {
            self.turn = self.turn + 1;
        }
        over
    }
}

} // verus!
