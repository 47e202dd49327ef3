use othello::{
    legal_moves, minimax, pass_turn, play_first_moves, Board, Player, Square, State, CELLS,
    HEIGHT, WIDTH,
};

fn board_from_rows(rows: [&str; 4]) -> Board {
    // rows[0] is y = 0; 'X' dark, 'O' light, '.' empty
    let mut board = Board::empty();
    for (y, row) in rows.iter().enumerate() {
        for (x, c) in row.chars().enumerate() {
            let sq = match c {
                'X' => Square::Dark,
                'O' => Square::Light,
                _ => Square::Empty,
            };
            *board.get_mut(x, y).unwrap() = sq;
        }
    }
    board
}

fn cell(board: &Board, x: usize, y: usize) -> Square {
    *board.get(x, y).unwrap()
}

fn empty_count(board: &Board) -> usize {
    let mut n = 0;
    for y in 0..HEIGHT {
        for x in 0..WIDTH {
            if cell(board, x, y) == Square::Empty {
                n += 1;
            }
        }
    }
    n
}

fn same_board(a: &Board, b: &Board) -> bool {
    (0..HEIGHT).all(|y| (0..WIDTH).all(|x| cell(a, x, y) == cell(b, x, y)))
}

/// Unpruned minimax, written out plainly, to hold the pruned search against.
fn plain_value(state: State, player: Player) -> isize {
    let children = legal_moves(state);
    if children.is_empty() {
        if state.last_skipped {
            let (dark, light) = state.board.scores();
            let (us, them) = match player {
                Player::Dark => (dark, light),
                Player::Light => (light, dark),
            };
            return us as isize - them as isize;
        }
        let mut passed = state;
        passed.next_player = state.next_player.opposite();
        passed.last_skipped = true;
        return plain_value(passed, player);
    }
    let values = children.iter().map(|(_, s)| plain_value(*s, player));
    if state.next_player == player {
        values.max().unwrap()
    } else {
        values.min().unwrap()
    }
}

fn plain_choice(state: State) -> (usize, isize) {
    let children = legal_moves(state);
    let mut best = 0;
    let mut best_score = isize::MIN;
    for (i, (_, s)) in children.iter().enumerate() {
        let v = plain_value(*s, state.next_player);
        if v > best_score {
            best = i;
            best_score = v;
        }
    }
    (best, best_score)
}

#[test]
fn opposite_is_an_involution() {
    assert_eq!(Player::Dark.opposite(), Player::Light);
    assert_eq!(Player::Light.opposite(), Player::Dark);
    for p in [Player::Dark, Player::Light] {
        assert_eq!(p.opposite().opposite(), p);
    }
}

#[test]
fn empty_board_is_empty() {
    let board = Board::empty();
    assert_eq!(board.scores(), (0, 0));
    assert_eq!(empty_count(&board), CELLS);
}

#[test]
fn out_of_range_access_is_absent() {
    let mut board = Board::empty();
    assert!(board.get(WIDTH, 0).is_none());
    assert!(board.get(0, HEIGHT).is_none());
    assert!(board.get(usize::MAX, 1).is_none());
    assert!(board.get_mut(WIDTH, HEIGHT).is_none());
    assert!(board.get(WIDTH - 1, HEIGHT - 1).is_some());
    assert_eq!(board.scores(), (0, 0));
}

#[test]
fn get_mut_writes_one_cell() {
    let mut board = Board::empty();
    *board.get_mut(1, 2).unwrap() = Square::Light;
    assert_eq!(cell(&board, 1, 2), Square::Light);
    assert_eq!(cell(&board, 2, 1), Square::Empty);
    assert_eq!(board.scores(), (0, 1));
}

#[test]
fn initial_state_has_the_seed_pattern() {
    let state = State::new();
    assert_eq!(state.next_player, Player::Dark);
    assert!(!state.last_skipped);
    assert_eq!(cell(&state.board, 2, 1), Square::Light);
    assert_eq!(cell(&state.board, 1, 1), Square::Dark);
    assert_eq!(cell(&state.board, 1, 2), Square::Light);
    assert_eq!(cell(&state.board, 2, 2), Square::Dark);
    assert_eq!(state.board.scores(), (2, 2));
    assert_eq!(empty_count(&state.board), CELLS - 4);
}

#[test]
fn initial_legal_moves_are_the_four_captures() {
    let moves = legal_moves(State::new());
    let coords: Vec<(usize, usize)> = moves.iter().map(|(m, _)| *m).collect();
    assert_eq!(coords, vec![(2, 0), (3, 1), (0, 2), (1, 3)]);
}

#[test]
fn initial_move_flips_the_flanked_piece() {
    let moves = legal_moves(State::new());
    let (m, next) = moves[0];
    assert_eq!(m, (2, 0));
    assert_eq!(next.next_player, Player::Light);
    assert!(!next.last_skipped);
    assert_eq!(cell(&next.board, 2, 0), Square::Dark);
    assert_eq!(cell(&next.board, 2, 1), Square::Dark);
    assert_eq!(cell(&next.board, 1, 2), Square::Light);
    assert_eq!(next.board.scores(), (4, 1));
}

#[test]
fn run_that_reaches_the_edge_captures_nothing() {
    // Dark at (2,1): west runs over (1,1) O and (0,1) O to the edge, so nothing is flanked.
    let board = board_from_rows(["X...", "OO..", "X.X.", "...."]);
    let state = State { board, next_player: Player::Dark, last_skipped: false };
    let moves = legal_moves(state);
    assert!(moves.iter().all(|(m, _)| *m != (2, 1)));
    // (0,2) is occupied, so the column run from (0,0) cannot be closed there either.
    assert!(moves.iter().all(|(m, _)| *m != (0, 2)));
}

#[test]
fn capture_along_two_lines() {
    // Dark places at (0,0): east run (1,0) O, (2,0) X -> capture; north-east run (1,1) O,
    // (2,2) X -> capture; north run (0,1) O, (0,2) O, (0,3) . -> no capture.
    let board = board_from_rows([".OX.", "OO..", "O.X.", "...."]);
    let state = State { board, next_player: Player::Dark, last_skipped: false };
    let moves = legal_moves(state);
    let (m, next) = moves[0];
    assert_eq!(m, (0, 0));
    assert_eq!(cell(&next.board, 0, 0), Square::Dark);
    assert_eq!(cell(&next.board, 1, 0), Square::Dark);
    assert_eq!(cell(&next.board, 1, 1), Square::Dark);
    assert_eq!(cell(&next.board, 0, 1), Square::Light);
    assert_eq!(cell(&next.board, 0, 2), Square::Light);
    assert_eq!(next.board.scores(), (5, 2));
}

#[test]
fn adjacency_alone_does_not_capture() {
    let board = board_from_rows(["XX..", "....", "....", "...."]);
    let state = State { board, next_player: Player::Dark, last_skipped: false };
    assert!(legal_moves(state).is_empty());
}

#[test]
fn successors_gain_cells_for_the_mover() {
    let mut frontier = vec![State::new()];
    for _ in 0..3 {
        let mut next_frontier = Vec::new();
        for state in frontier {
            let (dark, light) = state.board.scores();
            for (_, next) in legal_moves(state) {
                let (d2, l2) = next.board.scores();
                match state.next_player {
                    Player::Dark => {
                        assert!(d2 > dark);
                        assert!(l2 < light);
                    }
                    Player::Light => {
                        assert!(l2 > light);
                        assert!(d2 < dark);
                    }
                }
                assert_eq!(next.next_player, state.next_player.opposite());
                assert_eq!(empty_count(&next.board) + 1, empty_count(&state.board));
                assert_eq!(d2 + l2 + empty_count(&next.board), CELLS);
                next_frontier.push(next);
            }
        }
        frontier = next_frontier;
    }
}

#[test]
fn minimax_returns_a_successor() {
    let state = State::new();
    let chosen = minimax(state);
    let moves = legal_moves(state);
    assert!(moves.iter().any(|(_, s)| same_board(&s.board, &chosen.board)
        && s.next_player == chosen.next_player));
}

#[test]
fn minimax_agrees_with_plain_search() {
    let mut frontier = vec![State::new()];
    for _ in 0..3 {
        let mut next_frontier = Vec::new();
        for state in frontier {
            let moves = legal_moves(state);
            if moves.is_empty() {
                continue;
            }
            let chosen = minimax(state);
            let (index, score) = plain_choice(state);
            assert!(same_board(&chosen.board, &moves[index].1.board));
            assert_eq!(plain_value(chosen, state.next_player), score);
            assert_eq!(plain_value(state, state.next_player), score);
            for (_, next) in moves {
                next_frontier.push(next);
            }
        }
        frontier = next_frontier;
    }
}

#[test]
fn minimax_keeps_the_first_of_equal_moves() {
    // By symmetry of the seed pattern, all four opening moves have the same value.
    let state = State::new();
    let moves = legal_moves(state);
    let values: Vec<isize> = moves.iter().map(|(_, s)| plain_value(*s, Player::Dark)).collect();
    assert!(values.iter().all(|v| *v == values[0]));
    let chosen = minimax(state);
    assert!(same_board(&chosen.board, &moves[0].1.board));
}

#[test]
fn minimax_takes_the_winning_capture() {
    // Dark to move; (3,0) takes the whole bottom row and ends the game with no Light left.
    let board = board_from_rows(["XOO.", "....", "....", "...."]);
    let state = State { board, next_player: Player::Dark, last_skipped: false };
    let moves = legal_moves(state);
    assert_eq!(moves.len(), 1);
    let chosen = minimax(state);
    assert_eq!(chosen.board.scores(), (4, 0));
    assert_eq!(chosen.next_player, Player::Light);
}

#[test]
fn double_pass_ends_the_game() {
    let board = board_from_rows(["XXX.", "....", "....", "..OO"]);
    let state = State { board, next_player: Player::Light, last_skipped: false };
    assert!(legal_moves(state).is_empty());
    let passed = pass_turn(state).unwrap();
    assert_eq!(passed.next_player, Player::Dark);
    assert!(passed.last_skipped);
    assert!(legal_moves(passed).is_empty());
    assert!(pass_turn(passed).is_none());
    let (dark, light) = passed.board.scores();
    assert_eq!((dark, light), (3, 2));
    assert_eq!(plain_value(passed, Player::Dark), 1);
    assert_eq!(plain_value(state, Player::Light), -1);
}

#[test]
fn full_board_is_terminal() {
    let board = board_from_rows(["XXXX", "OOOO", "XXXX", "OOOO"]);
    let state = State { board, next_player: Player::Dark, last_skipped: false };
    assert!(legal_moves(state).is_empty());
    let passed = pass_turn(state).unwrap();
    assert!(legal_moves(passed).is_empty());
    assert!(pass_turn(passed).is_none());
    assert_eq!(state.board.scores(), (8, 8));
}

#[test]
fn first_move_game_ends() {
    let end = play_first_moves(State::new());
    let (dark, light) = end.board.scores();
    assert!(dark + light <= CELLS);
    assert!(end.last_skipped);
    assert!(legal_moves(end).is_empty());
    let mut other = end;
    other.next_player = end.next_player.opposite();
    assert!(legal_moves(other).is_empty());
}

#[test]
fn first_move_game_follows_first_moves() {
    let mut state = State::new();
    loop {
        let moves = legal_moves(state);
        if let Some((_, next)) = moves.first() {
            state = *next;
        } else if let Some(next) = pass_turn(state) {
            state = next;
        } else {
            break;
        }
    }
    let end = play_first_moves(State::new());
    assert!(same_board(&end.board, &state.board));
    assert_eq!(end.board.scores(), state.board.scores());
}
