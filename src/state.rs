use vstd::prelude::*;

use crate::board::{spec_coord, Board, Player, Square, CELLS, HEIGHT, WIDTH};

verus! {

/// A position of the game: the board, whose turn it is, and whether the previous ply was a
/// forced pass.
#[derive(Copy, Clone, Debug)]
pub struct State {
    pub board: Board,
    pub next_player: Player,
    /// Whether or not the last player skipped playing
    pub last_skipped: bool,
}

/// Mathematical model of a `State`.
pub struct StateView {
    pub cells: Seq<Square>,
    pub next_player: Player,
    pub last_skipped: bool,
}

impl View for State {
    type V = StateView;

    open spec fn view(&self) -> StateView {
        StateView {
            cells: self.board@,
            next_player: self.next_player,
            last_skipped: self.last_skipped,
        }
    }
}

/// The seed pattern: two pieces of each side on the diagonals of the centre square.
pub open spec fn initial_cells() -> Seq<Square> {
    let cx = (WIDTH / 2) as int;
    let cy = (HEIGHT / 2) as int;
    Seq::new(
        CELLS as nat,
        |i: int|
            if i == spec_coord(cx, cy - 1)->0 {
                Square::Light
            } else if i == spec_coord(cx - 1, cy - 1)->0 {
                Square::Dark
            } else if i == spec_coord(cx - 1, cy)->0 {
                Square::Light
            } else if i == spec_coord(cx, cy)->0 {
                Square::Dark
            } else {
                Square::Empty
            },
    )
}

/// The state after the side to move passes: the turn goes over, the board stays.
pub open spec fn passed(v: StateView) -> StateView {
    StateView { next_player: v.next_player.spec_opposite(), last_skipped: true, ..v }
}

impl State {
    /// Create a new game state
    pub fn new() -> (r: Self)
        ensures
            r@.cells == initial_cells(),
            r.next_player == Player::Dark,
            !r.last_skipped,
    {
        let mut board = Board::empty();

        // Center pattern
        let (brx, bry) = (WIDTH / 2, HEIGHT / 2);
        *board.get_mut(brx, bry - 1).unwrap() = Square::Light;
        *board.get_mut(brx - 1, bry - 1).unwrap() = Square::Dark;
        *board.get_mut(brx - 1, bry).unwrap() = Square::Light;
        *board.get_mut(brx, bry).unwrap() = Square::Dark;
        assert(board@ =~= initial_cells());

        State { board, next_player: Player::Dark, last_skipped: false }
    }
}

/// The pass transition, for a side that has no legal placement: the turn goes to the other
/// side, and the game is over (`None`) when the previous ply was a pass too.
pub fn pass_turn(state: State) -> (r: Option<State>)
    ensures
        state.last_skipped ==> r is None,
        !state.last_skipped ==> r is Some && r->0@ == passed(state@),
{
    if state.last_skipped {
        None
    } else {
        let mut next = state;
        next.next_player = state.next_player.opposite();
        next.last_skipped = true;
        Some(next)
    }
}

} // verus!
