use game::board::Board;
use game::model::{Coord, Move, Space, BOARD_SIZE};
use game::resolver::TERRITORY_GROWTH_INTERVAL;
use game::state::{GameState, CAPITAL_START_ARMIES};

const A: u64 = 1;
const B: u64 = 2;

fn c(x: usize, y: usize) -> Coord {
    Coord { x, y }
}

/// A 4x4 board with A's capital at (0,0) and B's at (3,3).
fn two_capital_board(a_armies: u32, b_armies: u32) -> Board {
    let mut board = Board::new(4);
    board.set(
        c(0, 0),
        Space::Capital {
            owner: Some(A),
            armies: a_armies,
        },
    );
    board.set(
        c(3, 3),
        Space::Capital {
            owner: Some(B),
            armies: b_armies,
        },
    );
    board
}

fn state_of(board: Board) -> GameState {
    GameState {
        game_id: "test-game".to_string(),
        turn: 0,
        spaces: board,
    }
}

fn total_armies(board: &Board) -> u64 {
    let mut sum: u64 = 0;
    for x in 0..board.side {
        for y in 0..board.side {
            match board.at(c(x, y)) {
                Space::Owned { armies, .. } => sum += armies as u64,
                Space::Capital { armies, .. } => sum += armies as u64,
                _ => {}
            }
        }
    }
    sum
}

#[test]
fn new_game_places_capitals_on_diagonal() {
    let state = GameState::new("g".to_string(), vec![A, B]);
    assert_eq!(state.turn, 0);
    assert_eq!(state.spaces.side, BOARD_SIZE);
    assert_eq!(
        state.spaces.at(c(0, 0)),
        Space::Capital {
            owner: Some(A),
            armies: CAPITAL_START_ARMIES
        }
    );
    assert_eq!(
        state.spaces.at(c(1, 1)),
        Space::Capital {
            owner: Some(B),
            armies: CAPITAL_START_ARMIES
        }
    );
    assert_eq!(state.spaces.at(c(2, 2)), Space::Empty);
    assert_eq!(state.spaces.at(c(0, 1)), Space::Empty);
    let remaining = state.remaining_players();
    assert_eq!(remaining.len(), 2);
    assert!(remaining.contains(&A));
    assert!(remaining.contains(&B));
}

#[test]
fn out_of_bounds_move_is_rejected_and_changes_nothing() {
    let board = two_capital_board(5, 5);
    let mut state = state_of(board);
    // `to.x == side` is already off the board: [0, side) on both axes.
    let m = Move {
        from: c(0, 0),
        to: c(4, 0),
        owner: A,
    };
    assert!(!game::resolver::validate_move(&state.spaces, &m));
    state.handle_moves(vec![m]);
    assert_eq!(
        state.spaces.at(c(0, 0)),
        Space::Capital {
            owner: Some(A),
            armies: 5
        }
    );
    for x in 0..4 {
        for y in 0..4 {
            if (x, y) != (0, 0) && (x, y) != (3, 3) {
                assert_eq!(state.spaces.at(c(x, y)), Space::Empty);
            }
        }
    }
}

#[test]
fn unowned_from_is_rejected() {
    let board = two_capital_board(5, 5);
    let state = state_of(board);
    // A proposes to move out of B's capital.
    let m = Move {
        from: c(3, 3),
        to: c(3, 2),
        owner: A,
    };
    assert!(!game::resolver::validate_move(&state.spaces, &m));
    // And out of an empty space.
    let m2 = Move {
        from: c(2, 2),
        to: c(2, 1),
        owner: A,
    };
    assert!(!game::resolver::validate_move(&state.spaces, &m2));
}

#[test]
fn mountain_target_is_rejected() {
    let mut board = two_capital_board(5, 5);
    board.set(c(0, 1), Space::Mountain);
    let mut state = state_of(board);
    let m = Move {
        from: c(0, 0),
        to: c(0, 1),
        owner: A,
    };
    assert!(!game::resolver::validate_move(&state.spaces, &m));
    state.handle_moves(vec![m]);
    assert_eq!(
        state.spaces.at(c(0, 0)),
        Space::Capital {
            owner: Some(A),
            armies: 5
        }
    );
    assert_eq!(state.spaces.at(c(0, 1)), Space::Mountain);
}

#[test]
fn empty_batch_changes_only_growth_increments() {
    let board = two_capital_board(5, 3);
    let mut state = state_of(board);
    let over = state.advance_turn(vec![]);
    assert!(!over);
    // Capitals each gained their per-turn army; ownership nowhere changed.
    assert_eq!(
        state.spaces.at(c(0, 0)),
        Space::Capital {
            owner: Some(A),
            armies: 6
        }
    );
    assert_eq!(
        state.spaces.at(c(3, 3)),
        Space::Capital {
            owner: Some(B),
            armies: 4
        }
    );
    for x in 0..4 {
        for y in 0..4 {
            if (x, y) != (0, 0) && (x, y) != (3, 3) {
                assert_eq!(state.spaces.at(c(x, y)), Space::Empty);
            }
        }
    }
}

#[test]
fn opening_turn_scenario() {
    // 4x4 board, A and B each owning one capital at opposite corners.
    // A marches into an adjacent empty space; B proposes nothing.
    let board = two_capital_board(5, 3);
    let mut state = state_of(board);
    let over = state.advance_turn(vec![Move {
        from: c(0, 0),
        to: c(0, 1),
        owner: A,
    }]);
    assert!(!over);
    // The target now belongs to A with the moved armies (all but one).
    assert_eq!(
        state.spaces.at(c(0, 1)),
        Space::Owned {
            owner: A,
            armies: 4
        }
    );
    // A's capital kept one army and gained its growth increment.
    assert_eq!(
        state.spaces.at(c(0, 0)),
        Space::Capital {
            owner: Some(A),
            armies: 2
        }
    );
    // B's capital gained its growth increment.
    assert_eq!(
        state.spaces.at(c(3, 3)),
        Space::Capital {
            owner: Some(B),
            armies: 4
        }
    );
    // The turn advanced by one.
    assert_eq!(state.turn, 1);
}

#[test]
fn move_from_unowned_space_drops_silently() {
    let board = two_capital_board(5, 3);
    let mut state = state_of(board);
    let before_a = state.spaces.at(c(0, 0));
    let over = state.advance_turn(vec![Move {
        from: c(1, 0),
        to: c(1, 1),
        owner: A,
    }]);
    assert!(!over);
    // The move was dropped: its spaces are untouched, only growth ran.
    assert_eq!(state.spaces.at(c(1, 0)), Space::Empty);
    assert_eq!(state.spaces.at(c(1, 1)), Space::Empty);
    assert_eq!(
        state.spaces.at(c(0, 0)),
        Space::Capital {
            owner: Some(A),
            armies: before_a.armies() + 1
        }
    );
    assert_eq!(state.turn, 1);
}

#[test]
fn invasion_with_greater_army_transfers_ownership() {
    let mut board = two_capital_board(5, 3);
    board.set(
        c(1, 1),
        Space::Owned {
            owner: A,
            armies: 10,
        },
    );
    board.set(
        c(1, 2),
        Space::Owned {
            owner: B,
            armies: 4,
        },
    );
    let mut state = state_of(board);
    state.handle_moves(vec![Move {
        from: c(1, 1),
        to: c(1, 2),
        owner: A,
    }]);
    // 9 attackers against 4 defenders: A takes the space with the difference.
    assert_eq!(
        state.spaces.at(c(1, 2)),
        Space::Owned {
            owner: A,
            armies: 5
        }
    );
    assert_eq!(
        state.spaces.at(c(1, 1)),
        Space::Owned {
            owner: A,
            armies: 1
        }
    );
}

#[test]
fn invasion_tie_destroys_both_sides() {
    let mut board = two_capital_board(5, 3);
    board.set(
        c(1, 1),
        Space::Owned {
            owner: A,
            armies: 5,
        },
    );
    board.set(
        c(1, 2),
        Space::Owned {
            owner: B,
            armies: 4,
        },
    );
    let mut state = state_of(board);
    state.handle_moves(vec![Move {
        from: c(1, 1),
        to: c(1, 2),
        owner: A,
    }]);
    // 4 against 4: both sides burn down, the defender keeps the space.
    assert_eq!(
        state.spaces.at(c(1, 2)),
        Space::Owned {
            owner: B,
            armies: 0
        }
    );
}

#[test]
fn weaker_invasion_leaves_defender_with_difference() {
    let mut board = two_capital_board(5, 3);
    board.set(
        c(1, 1),
        Space::Owned {
            owner: A,
            armies: 3,
        },
    );
    board.set(
        c(1, 2),
        Space::Owned {
            owner: B,
            armies: 7,
        },
    );
    let mut state = state_of(board);
    state.handle_moves(vec![Move {
        from: c(1, 1),
        to: c(1, 2),
        owner: A,
    }]);
    assert_eq!(
        state.spaces.at(c(1, 2)),
        Space::Owned {
            owner: B,
            armies: 5
        }
    );
    assert_eq!(
        state.spaces.at(c(1, 1)),
        Space::Owned {
            owner: A,
            armies: 1
        }
    );
}

#[test]
fn friendly_merge_adds_armies() {
    let mut board = two_capital_board(5, 3);
    board.set(
        c(1, 1),
        Space::Owned {
            owner: A,
            armies: 6,
        },
    );
    board.set(
        c(1, 2),
        Space::Owned {
            owner: A,
            armies: 2,
        },
    );
    let mut state = state_of(board);
    state.handle_moves(vec![Move {
        from: c(1, 1),
        to: c(1, 2),
        owner: A,
    }]);
    assert_eq!(
        state.spaces.at(c(1, 2)),
        Space::Owned {
            owner: A,
            armies: 7
        }
    );
    assert_eq!(
        state.spaces.at(c(1, 1)),
        Space::Owned {
            owner: A,
            armies: 1
        }
    );
}

#[test]
fn single_army_space_moves_nothing_useful() {
    let mut board = two_capital_board(5, 3);
    board.set(
        c(1, 1),
        Space::Owned {
            owner: A,
            armies: 1,
        },
    );
    let mut state = state_of(board);
    state.handle_moves(vec![Move {
        from: c(1, 1),
        to: c(1, 2),
        owner: A,
    }]);
    // All but one of one army is zero: the march claims the empty target
    // with nothing standing on it.
    assert_eq!(
        state.spaces.at(c(1, 1)),
        Space::Owned {
            owner: A,
            armies: 1
        }
    );
    assert_eq!(
        state.spaces.at(c(1, 2)),
        Space::Owned {
            owner: A,
            armies: 0
        }
    );
}

#[test]
fn capital_capture_eliminates_owner_and_converts_spaces() {
    let mut board = two_capital_board(5, 3);
    board.set(
        c(3, 2),
        Space::Owned {
            owner: B,
            armies: 2,
        },
    );
    board.set(
        c(2, 3),
        Space::Owned {
            owner: A,
            armies: 20,
        },
    );
    let mut state = state_of(board);
    state.handle_moves(vec![Move {
        from: c(2, 3),
        to: c(3, 3),
        owner: A,
    }]);
    // 19 attackers against 3 on the capital: captured with the difference.
    assert_eq!(
        state.spaces.at(c(3, 3)),
        Space::Capital {
            owner: Some(A),
            armies: 16
        }
    );
    // B's remaining territory passed to A, armies untouched.
    assert_eq!(
        state.spaces.at(c(3, 2)),
        Space::Owned {
            owner: A,
            armies: 2
        }
    );
    let remaining = state.remaining_players();
    assert_eq!(remaining, vec![A]);
}

#[test]
fn game_over_when_one_agent_owns_everything_owned() {
    let mut board = two_capital_board(5, 3);
    board.set(
        c(2, 3),
        Space::Owned {
            owner: A,
            armies: 20,
        },
    );
    let mut state = state_of(board);
    let over = state.advance_turn(vec![Move {
        from: c(2, 3),
        to: c(3, 3),
        owner: A,
    }]);
    // B's capital fell and with it B's last space: only A remains.
    assert!(over);
    // On the closing turn the counter does not advance.
    assert_eq!(state.turn, 0);
    assert_eq!(state.remaining_players(), vec![A]);
}

#[test]
fn eliminated_agent_stays_out() {
    let mut board = two_capital_board(5, 3);
    board.set(
        c(2, 3),
        Space::Owned {
            owner: A,
            armies: 20,
        },
    );
    board.set(
        c(0, 1),
        Space::Owned {
            owner: A,
            armies: 2,
        },
    );
    let mut state = state_of(board);
    state.handle_moves(vec![Move {
        from: c(2, 3),
        to: c(3, 3),
        owner: A,
    }]);
    assert_eq!(state.remaining_players(), vec![A]);
    // A later turn, even with a stale move tagged with B, brings B back
    // nowhere: the move is dropped at validation.
    state.advance_turn(vec![Move {
        from: c(3, 3),
        to: c(3, 2),
        owner: B,
    }]);
    assert_eq!(state.remaining_players(), vec![A]);
}

#[test]
fn marching_back_into_own_capital_merges() {
    let mut board = two_capital_board(5, 3);
    board.set(
        c(0, 1),
        Space::Owned {
            owner: A,
            armies: 6,
        },
    );
    let mut state = state_of(board);
    state.handle_moves(vec![Move {
        from: c(0, 1),
        to: c(0, 0),
        owner: A,
    }]);
    assert_eq!(
        state.spaces.at(c(0, 0)),
        Space::Capital {
            owner: Some(A),
            armies: 10
        }
    );
    assert_eq!(
        state.spaces.at(c(0, 1)),
        Space::Owned {
            owner: A,
            armies: 1
        }
    );
}

#[test]
fn conservation_through_a_combat_turn() {
    let mut board = two_capital_board(5, 3);
    board.set(
        c(1, 1),
        Space::Owned {
            owner: A,
            armies: 10,
        },
    );
    board.set(
        c(1, 2),
        Space::Owned {
            owner: B,
            armies: 4,
        },
    );
    let before = total_armies(&board);
    let mut state = state_of(board);
    state.advance_turn(vec![Move {
        from: c(1, 1),
        to: c(1, 2),
        owner: A,
    }]);
    let after = total_armies(&state.spaces);
    // Combat burns 2 * min(9, 4) = 8 armies; growth hands out one per
    // owned capital (plain territory does not grow on turn 0).
    assert_eq!(after, before - 8 + 2);
}

#[test]
fn outcome_does_not_depend_on_batch_order() {
    let moves_ab = vec![
        Move {
            from: c(1, 1),
            to: c(1, 2),
            owner: A,
        },
        Move {
            from: c(1, 3),
            to: c(1, 2),
            owner: B,
        },
    ];
    let moves_ba = vec![moves_ab[1], moves_ab[0]];
    let mut results = Vec::new();
    for batch in [moves_ab, moves_ba] {
        let mut board = two_capital_board(5, 3);
        board.set(
            c(1, 1),
            Space::Owned {
                owner: A,
                armies: 8,
            },
        );
        board.set(
            c(1, 3),
            Space::Owned {
                owner: B,
                armies: 6,
            },
        );
        let mut state = state_of(board);
        state.handle_moves(batch);
        results.push(state);
    }
    for x in 0..4 {
        for y in 0..4 {
            assert_eq!(results[0].spaces.at(c(x, y)), results[1].spaces.at(c(x, y)));
        }
    }
}

#[test]
fn territory_grows_only_on_its_interval() {
    let mut board = two_capital_board(5, 3);
    board.set(
        c(1, 1),
        Space::Owned {
            owner: A,
            armies: 7,
        },
    );
    let mut state = state_of(board);
    state.turn = TERRITORY_GROWTH_INTERVAL - 2;
    state.populate_spaces();
    assert_eq!(
        state.spaces.at(c(1, 1)),
        Space::Owned {
            owner: A,
            armies: 7
        }
    );
    state.turn = TERRITORY_GROWTH_INTERVAL - 1;
    state.populate_spaces();
    assert_eq!(
        state.spaces.at(c(1, 1)),
        Space::Owned {
            owner: A,
            armies: 8
        }
    );
}

#[test]
fn remaining_players_lists_each_owner_once() {
    let mut board = two_capital_board(5, 3);
    board.set(
        c(1, 1),
        Space::Owned {
            owner: A,
            armies: 2,
        },
    );
    board.set(
        c(2, 2),
        Space::Owned {
            owner: A,
            armies: 2,
        },
    );
    let state = state_of(board);
    let mut remaining = state.remaining_players();
    remaining.sort();
    assert_eq!(remaining, vec![A, B]);
}

#[test]
fn unowned_capital_can_be_taken_without_elimination() {
    let mut board = Board::new(4);
    board.set(
        c(0, 0),
        Space::Capital {
            owner: Some(A),
            armies: 5,
        },
    );
    board.set(
        c(1, 1),
        Space::Capital {
            owner: None,
            armies: 2,
        },
    );
    board.set(
        c(3, 3),
        Space::Capital {
            owner: Some(B),
            armies: 3,
        },
    );
    let mut state = state_of(board);
    state.handle_moves(vec![Move {
        from: c(0, 0),
        to: c(1, 1),
        owner: A,
    }]);
    assert_eq!(
        state.spaces.at(c(1, 1)),
        Space::Capital {
            owner: Some(A),
            armies: 2
        }
    );
    // B is untouched: claiming a neutral capital eliminates nobody.
    assert_eq!(
        state.spaces.at(c(3, 3)),
        Space::Capital {
            owner: Some(B),
            armies: 3
        }
    );
}
