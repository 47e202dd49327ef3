use vstd::prelude::*;

use crate::board::{
    count, lemma_board_counts, lemma_count_lt, lemma_counts_cover, square_of, Board, Player,
    Square, CELLS, WIDTH,
};
use crate::moves::{
    legal_moves, lemma_successor_at, lemma_successors_shape, successors,
};
use crate::state::{pass_turn, passed, State, StateView};

verus! {

/// A bound on the plies left: each placement fills an empty cell, and each pass spends the
/// one pass that may come before the game ends.
pub open spec fn measure(v: StateView) -> nat {
    2 * count(v.cells, Square::Empty) + if v.last_skipped {
        0nat
    } else {
        1nat
    }
}

/// The final score for `player`: its cells minus the opponent's cells.
pub open spec fn spec_utility(cells: Seq<Square>, player: Player) -> int {
    count(cells, square_of(player)) - count(cells, square_of(player.spec_opposite()))
}

/// The minimax value of `v` for `player`, searched to the end of the game. The side to move
/// maximises when it is `player` and minimises otherwise; a side with no placement passes, and
/// the game ends after two passes in a row.
pub open spec fn value(v: StateView, player: Player) -> int
    decreases measure(v), 1nat, 0nat,
{
    let ms = successors(v);
    if ms.len() > 0 {
        best(v, player, ms.len() as int)
    } else if v.last_skipped {
        spec_utility(v.cells, player)
    } else if measure(passed(v)) < measure(v) {
        value(passed(v), player)
    } else {
        0
    }
}

/// The best value for the side to move of `v` over its first `k` successors (`k >= 1`): the
/// maximum when that side is `player`, the minimum otherwise.
pub open spec fn best(v: StateView, player: Player, k: int) -> int
    decreases measure(v), 0nat, k,
{
    let ms = successors(v);
    if k <= 0 || k > ms.len() {
        0
    } else {
        let c = ms[k - 1].1;
        let cv = if measure(c) < measure(v) {
            value(c, player)
        } else {
            0
        };
        if k == 1 {
            cv
        } else if v.next_player == player {
            let b = best(v, player, k - 1);
            if cv > b {
                cv
            } else {
                b
            }
        } else {
            let b = best(v, player, k - 1);
            if cv < b {
                cv
            } else {
                b
            }
        }
    }
}

/// The successor that a plain minimax search picks among the first `k`: the first one whose
/// value is strictly greater than that of every one before it.
pub open spec fn choice(v: StateView, k: int) -> int
    decreases k,
{
    if k <= 1 {
        0
    } else {
        let c = choice(v, k - 1);
        let ms = successors(v);
        if value(ms[k - 1].1, v.next_player) > value(ms[c].1, v.next_player) {
            k - 1
        } else {
            c
        }
    }
}

/// `x` brought into the window `[lo, hi]`.
pub open spec fn clamp(x: int, lo: int, hi: int) -> int {
    if x < lo {
        lo
    } else if x > hi {
        hi
    } else {
        x
    }
}

/// Every successor is nearer the end of the game, and it is the other side's turn there.
pub proof fn lemma_successor_measure(v: StateView, i: int)
    requires
        v.cells.len() == CELLS,
        0 <= i < successors(v).len(),
    ensures
        measure(successors(v)[i].1) < measure(v),
        successors(v)[i].1.cells.len() == CELLS,
        successors(v)[i].1.next_player == v.next_player.spec_opposite(),
{
    lemma_successors_shape(v, CELLS as int);
    let m = successors(v)[i];
    lemma_successor_at(v, m.0.0 as int, m.0.1 as int);
    lemma_count_lt(m.1.cells, v.cells, Square::Empty, m.0.0 + WIDTH * m.0.1);
}

/// The final score lies within the size of the board.
pub proof fn lemma_utility_bounds(cells: Seq<Square>, player: Player)
    requires
        cells.len() == CELLS,
    ensures
        -(CELLS as int) <= spec_utility(cells, player) <= CELLS,
{
    lemma_counts_cover(cells);
}

/// Minimax values lie within the size of the board.
pub proof fn lemma_value_bounds(v: StateView, player: Player)
    requires
        v.cells.len() == CELLS,
    ensures
        -(CELLS as int) <= value(v, player) <= CELLS,
    decreases measure(v), 1nat, 0nat,
{
    let ms = successors(v);
    if ms.len() > 0 {
        lemma_best_bounds(v, player, ms.len() as int);
    } else if v.last_skipped {
        lemma_utility_bounds(v.cells, player);
    } else {
        lemma_value_bounds(passed(v), player);
    }
}

/// Best values over successors lie within the size of the board.
pub proof fn lemma_best_bounds(v: StateView, player: Player, k: int)
    requires
        v.cells.len() == CELLS,
        1 <= k <= successors(v).len(),
    ensures
        -(CELLS as int) <= best(v, player, k) <= CELLS,
    decreases measure(v), 0nat, k,
{
    lemma_successor_measure(v, k - 1);
    lemma_value_bounds(successors(v)[k - 1].1, player);
    if k > 1 {
        lemma_best_bounds(v, player, k - 1);
    }
}

/// Over more successors the maximiser's best only grows and the minimiser's only shrinks.
pub proof fn lemma_best_monotone(v: StateView, player: Player, k1: int, k2: int)
    requires
        v.cells.len() == CELLS,
        1 <= k1 <= k2 <= successors(v).len(),
    ensures
        v.next_player == player ==> best(v, player, k1) <= best(v, player, k2),
        v.next_player != player ==> best(v, player, k1) >= best(v, player, k2),
    decreases k2,
{
    if k1 < k2 {
        lemma_best_monotone(v, player, k1, k2 - 1);
    }
}

/// The plain minimax choice is one of the successors considered.
pub proof fn lemma_choice_in_range(v: StateView, k: int)
    requires
        1 <= k,
    ensures
        0 <= choice(v, k) < k,
    decreases k,
{
    if k > 1 {
        lemma_choice_in_range(v, k - 1);
    }
}

/// The plain minimax choice among the first `k` successors has the best value among them, and
/// every successor listed before it has a strictly lower value.
pub proof fn lemma_choice_best(v: StateView, k: int)
    requires
        v.cells.len() == CELLS,
        1 <= k <= successors(v).len(),
    ensures
        ({
            let ms = successors(v);
            let c = choice(v, k);
            &&& value(ms[c].1, v.next_player) == best(v, v.next_player, k)
            &&& forall|i: int| 0 <= i < k ==> value(ms[i].1, v.next_player) <= value(ms[c].1, v.next_player)
            &&& forall|i: int| 0 <= i < c ==> value(ms[i].1, v.next_player) < value(ms[c].1, v.next_player)
        }),
    decreases k,
{
    lemma_choice_in_range(v, k);
    lemma_successor_measure(v, k - 1);
    if k > 1 {
        lemma_choice_best(v, k - 1);
        lemma_choice_in_range(v, k - 1);
    }
}

/// Get the utility value of the board for this player
fn utility(board: Board, player: Player) -> (r: isize)
    ensures
        r == spec_utility(board@, player),
        -(CELLS as int) <= r <= CELLS,
{
    proof {
        lemma_board_counts(board);
        lemma_utility_bounds(board@, player);
    }
    let (dark, light) = board.scores();
    let (us, them) = match player {
        Player::Dark => (dark, light),
        Player::Light => (light, dark),
    };
    us as isize - them as isize
}

/// Alpha-beta search at a node where `player` is to move, with the window `(alpha, beta)`.
/// Within the node the lower bound rises as children come back, and each next child is
/// searched with the narrowed window; the scan stops once the maximum reaches `beta`.
/// The result agrees with the minimax value once both are brought into the window.
fn max_value(state: State, player: Player, alpha: isize, beta: isize) -> (r: isize)
    requires
        state.next_player == player,
        alpha < beta,
    ensures
        clamp(r as int, alpha as int, beta as int) == clamp(
            value(state@, player),
            alpha as int,
            beta as int,
        ),
        -(CELLS as int) <= r <= CELLS,
    decreases measure(state@),
{
    let children = legal_moves(state);
    if children.len() == 0 {
        return match pass_turn(state) {
            None => utility(state.board, player),
            Some(next) => min_value(next, player, alpha, beta),
        };
    }
    let ghost v = state@;
    let ghost ms = successors(v);
    assert(forall|j: int| 0 <= j < children@.len() ==> #[trigger] children@[j].1@ == ms[j].1);
    let mut max: isize = isize::MIN;
    let mut a: isize = alpha;
    let mut i: usize = 0;
    while i < children.len()
        invariant
            v == state@,
            ms == successors(v),
            v.cells.len() == CELLS,
            v.next_player == player,
            children@.len() == ms.len(),
            ms.len() > 0,
            forall|j: int|
                0 <= j < children@.len() ==> #[trigger] children@[j].1@ == ms[j].1,
            i <= children@.len(),
            alpha < beta,
            i == 0 ==> max == isize::MIN,
            i > 0 ==> -(CELLS as int) <= max <= CELLS && clamp(
                max as int,
                alpha as int,
                beta as int,
            ) == clamp(best(v, player, i as int), alpha as int, beta as int),
            max < beta,
            a == if max > alpha {
                max
            } else {
                alpha
            },
        decreases children@.len() - i,
    {
        let succ = children[i].1;
        proof {
            lemma_successor_measure(v, i as int);
        }
        let score = min_value(succ, player, a, beta);
        if score > max {
            max = score;
        }
        if max >= beta {
            proof {
                lemma_best_monotone(v, player, i + 1, ms.len() as int);
            }
            return max;
        }
        if max > a {
            a = max;
        }
        i += 1;
    }
    max
}

/// Alpha-beta search at a node where the opponent of `player` is to move: the mirror image of
/// `max_value`, stopping once the minimum reaches `alpha`.
fn min_value(state: State, player: Player, alpha: isize, beta: isize) -> (r: isize)
    requires
        state.next_player != player,
        alpha < beta,
    ensures
        clamp(r as int, alpha as int, beta as int) == clamp(
            value(state@, player),
            alpha as int,
            beta as int,
        ),
        -(CELLS as int) <= r <= CELLS,
    decreases measure(state@),
{
    let children = legal_moves(state);
    if children.len() == 0 {
        return match pass_turn(state) {
            None => utility(state.board, player),
            Some(next) => max_value(next, player, alpha, beta),
        };
    }
    let ghost v = state@;
    let ghost ms = successors(v);
    assert(forall|j: int| 0 <= j < children@.len() ==> #[trigger] children@[j].1@ == ms[j].1);
    let mut min: isize = isize::MAX;
    let mut b: isize = beta;
    let mut i: usize = 0;
    while i < children.len()
        invariant
            v == state@,
            ms == successors(v),
            v.cells.len() == CELLS,
            v.next_player != player,
            children@.len() == ms.len(),
            ms.len() > 0,
            forall|j: int|
                0 <= j < children@.len() ==> #[trigger] children@[j].1@ == ms[j].1,
            i <= children@.len(),
            alpha < beta,
            i == 0 ==> min == isize::MAX,
            i > 0 ==> -(CELLS as int) <= min <= CELLS && clamp(
                min as int,
                alpha as int,
                beta as int,
            ) == clamp(best(v, player, i as int), alpha as int, beta as int),
            min > alpha,
            b == if min < beta {
                min
            } else {
                beta
            },
        decreases children@.len() - i,
    {
        let succ = children[i].1;
        proof {
            lemma_successor_measure(v, i as int);
        }
        let score = max_value(succ, player, alpha, b);
        if score < min {
            min = score;
        }
        if min <= alpha {
            proof {
                lemma_best_monotone(v, player, i + 1, ms.len() as int);
            }
            return min;
        }
        if min < b {
            b = min;
        }
        i += 1;
    }
    min
}

/// Picks the successor of `state` that is best for the side to move, assuming best play by
/// both sides to the end of the game. Among equally good successors the first one listed by
/// `legal_moves` is kept.
pub fn minimax(state: State) -> (r: State)
    requires
        successors(state@).len() > 0,
    ensures
        r@ == successors(state@)[choice(state@, successors(state@).len() as int)].1,
{
    let ghost v = state@;
    let ghost ms = successors(v);
    let player = state.next_player;
    let children = legal_moves(state);
    let mut best: Option<State> = None;
    let mut best_score: isize = isize::MIN;
    let mut i: usize = 0;
    while i < children.len()
        invariant
            v == state@,
            ms == successors(v),
            v.cells.len() == CELLS,
            v.next_player == player,
            children@.len() == ms.len(),
            forall|j: int| #![trigger children@[j]] 0 <= j < children@.len() ==> children@[j].1@ == ms[j].1,
            i <= children@.len(),
            i == 0 ==> best is None && best_score == isize::MIN,
            i > 0 ==> best is Some && 0 <= choice(v, i as int) < i && best->0@ == ms[choice(
                v,
                i as int,
            )].1 && best_score == value(ms[choice(v, i as int)].1, player),
        decreases children@.len() - i,
    {
        let succ = children[i].1;
        proof {
            lemma_successor_measure(v, i as int);
            lemma_value_bounds(ms[i as int].1, player);
            if i > 0 {
                lemma_choice_in_range(v, i as int);
                lemma_value_bounds(ms[choice(v, i as int)].1, player);
            }
        }
        let score = min_value(succ, player, best_score, isize::MAX);
        if score > best_score {
            best = Some(succ);
            best_score = score;
        }
        i += 1;
    }
    best.unwrap()
}

/// The move that `minimax` picks is one of the successors that `legal_moves` lists.
pub proof fn lemma_minimax_picks_successor(v: StateView)
    requires
        successors(v).len() > 0,
    ensures
        0 <= choice(v, successors(v).len() as int) < successors(v).len(),
{
    lemma_choice_in_range(v, successors(v).len() as int);
}

/// The successor that `minimax` picks has the full minimax value of the position it is picked
/// from, no successor is better, and every one listed before it is strictly worse.
pub proof fn lemma_minimax_optimal(v: StateView)
    requires
        v.cells.len() == CELLS,
        successors(v).len() > 0,
    ensures
        ({
            let ms = successors(v);
            let c = choice(v, ms.len() as int);
            &&& value(ms[c].1, v.next_player) == value(v, v.next_player)
            &&& forall|i: int|
                0 <= i < ms.len() ==> value(ms[i].1, v.next_player) <= value(v, v.next_player)
            &&& forall|i: int| 0 <= i < c ==> value(ms[i].1, v.next_player) < value(v, v.next_player)
        }),
{
    lemma_choice_best(v, successors(v).len() as int);
}

/// When neither side can place, the game is over: its value is the final score, which is the
/// difference of the two sides' cell counts.
pub proof fn lemma_double_pass(v: StateView, player: Player)
    requires
        v.cells.len() == CELLS,
        successors(v).len() == 0,
        successors(passed(v)).len() == 0,
    ensures
        value(v, player) == spec_utility(v.cells, player),
        spec_utility(v.cells, Player::Dark) == count(v.cells, Square::Dark) - count(
            v.cells,
            Square::Light,
        ),
        spec_utility(v.cells, Player::Light) == count(v.cells, Square::Light) - count(
            v.cells,
            Square::Dark,
        ),
{
    assert(passed(v).cells == v.cells);
    assert(value(passed(v), player) == spec_utility(v.cells, player));
}

} // verus!
