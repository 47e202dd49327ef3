use vstd::prelude::*;

use crate::board::{count, lemma_counts_cover, Square, CELLS};
use crate::minimax::{lemma_successor_measure, measure};
use crate::moves::{legal_moves, successors};
use crate::state::{pass_turn, passed, State, StateView};

verus! {

/// The last state of a game played from `v` in which each side always takes the first
/// placement that `legal_moves` lists, and passes when it has none. That this function is
/// well defined is the proof that such a game ends.
pub open spec fn first_move_game(v: StateView) -> StateView
    decreases measure(v),
{
    let ms = successors(v);
    if ms.len() > 0 {
        if measure(ms[0].1) < measure(v) {
            first_move_game(ms[0].1)
        } else {
            v
        }
    } else if v.last_skipped {
        v
    } else if measure(passed(v)) < measure(v) {
        first_move_game(passed(v))
    } else {
        v
    }
}

/// A game of first placements ends in a state where the side to move cannot place after a
/// pass, and the two sides' pieces together fit on the board.
pub proof fn lemma_first_move_game_ends(v: StateView)
    requires
        v.cells.len() == CELLS,
    ensures
        first_move_game(v).cells.len() == CELLS,
        successors(first_move_game(v)).len() == 0,
        first_move_game(v).last_skipped,
        count(first_move_game(v).cells, Square::Dark) + count(
            first_move_game(v).cells,
            Square::Light,
        ) <= CELLS,
    decreases measure(v),
{
    let ms = successors(v);
    if ms.len() > 0 {
        lemma_successor_measure(v, 0);
        lemma_first_move_game_ends(ms[0].1);
    } else if !v.last_skipped {
        lemma_first_move_game_ends(passed(v));
    } else {
        lemma_counts_cover(v.cells);
    }
}

/// Plays from `state` to the end of the game, each side always taking its first listed
/// placement, and returns the final state.
pub fn play_first_moves(state: State) -> (r: State)
    ensures
        r@ == first_move_game(state@),
        successors(r@).len() == 0,
        r.last_skipped,
        count(r@.cells, Square::Dark) + count(r@.cells, Square::Light) <= CELLS,
{
    let mut current = state;
    loop
        invariant
            current@.cells.len() == CELLS,
            first_move_game(current@) == first_move_game(state@),
        decreases measure(current@),
    {
        let moves = legal_moves(current);
        if moves.len() > 0 {
            proof {
                lemma_successor_measure(current@, 0);
            }
            current = moves[0].1;
        } else {
            match pass_turn(current) {
                None => {
                    assert(first_move_game(current@) == current@);
                    proof {
                        lemma_first_move_game_ends(current@);
                    }
                    return current;
                },
                Some(next) => {
                    current = next;
                },
            }
        }
    }
}

} // verus!
