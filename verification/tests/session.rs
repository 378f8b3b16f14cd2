use lib_minesweeper::board_with_mines;
use lib_minesweeper::large_board;
use lib_minesweeper::medium_board;
use lib_minesweeper::new_game;
use lib_minesweeper::new_game_with;
use lib_minesweeper::small_board;
use lib_minesweeper::Msg;
use lib_minesweeper::State;
use lib_minesweeper::numbers_on_board;
use lib_minesweeper::Board;
use lib_minesweeper::BoardState;
use lib_minesweeper::Difficulty;
use lib_minesweeper::MapElement;
use lib_minesweeper::MapElement::Mine;
use lib_minesweeper::MapElement::Number;
use lib_minesweeper::MapElementCellState::Closed;
use lib_minesweeper::MapElementCellState::Flagged;
use lib_minesweeper::MapElementCellState::Open;
use lib_minesweeper::Mode;
use lib_minesweeper::MoveError;
use lib_minesweeper::Point;

fn number(state: u8, count: i32) -> MapElement {
    match state {
        b'O' => Number { state: Open, count },
        b'F' => Number { state: Flagged, count },
        _ => Number { state: Closed, count },
    }
}

#[test]
fn difficulties_have_their_sizes() {
    assert_eq!(
        (Difficulty::Easy.width(), Difficulty::Easy.height(), Difficulty::Easy.mines()),
        (10, 10, 10)
    );
    assert_eq!(
        (Difficulty::Medium.width(), Difficulty::Medium.height(), Difficulty::Medium.mines()),
        (16, 16, 40)
    );
    assert_eq!(
        (Difficulty::Hard.width(), Difficulty::Hard.height(), Difficulty::Hard.mines()),
        (16, 30, 99)
    );
}

#[test]
fn difficulty_changes_only_before_play() {
    assert_eq!(Difficulty::Easy.toggle(BoardState::Ready), Difficulty::Medium);
    assert_eq!(Difficulty::Medium.toggle(BoardState::Ready), Difficulty::Hard);
    assert_eq!(Difficulty::Hard.toggle(BoardState::Ready), Difficulty::Easy);
    assert_eq!(Difficulty::Easy.toggle(BoardState::Playing), Difficulty::Easy);
    assert_eq!(Difficulty::Medium.toggle(BoardState::Won), Difficulty::Medium);
    assert_eq!(Difficulty::Hard.toggle(BoardState::Failed), Difficulty::Hard);
    assert_eq!(Difficulty::Hard.toggle(BoardState::NotReady), Difficulty::Hard);
}

#[test]
fn mode_changes_only_while_the_game_is_on() {
    assert_eq!(Mode::Digging.toggle(BoardState::Ready), Mode::Flagging);
    assert_eq!(Mode::Flagging.toggle(BoardState::Playing), Mode::Digging);
    assert_eq!(Mode::Digging.toggle(BoardState::NotReady), Mode::Flagging);
    assert_eq!(Mode::Digging.toggle(BoardState::Won), Mode::Digging);
    assert_eq!(Mode::Flagging.toggle(BoardState::Failed), Mode::Flagging);
}

#[test]
fn a_new_game_is_ready_and_has_its_mines() {
    let mut next = 0usize;
    let board = new_game_with(Difficulty::Easy, move |low: usize, high: usize| {
        next = next.wrapping_mul(31).wrapping_add(7);
        low + next % (high - low)
    });
    assert_eq!((board.width, board.height), (10, 10));
    assert_eq!(board.mines, 10);
    assert_eq!(board.missing_points, 90);
    assert_eq!(board.state, BoardState::Ready);
    assert!(board.is_well_formed());
    assert!(board.has_counter_room());
    let mut counted = 0;
    for row in board.map.iter() {
        for el in row.iter() {
            match el {
                Mine { state } => {
                    assert_eq!(*state, Closed);
                    counted += 1;
                }
                Number { state, count } => {
                    assert_eq!(*state, Closed);
                    assert!(0 <= *count && *count <= 8);
                }
            }
        }
    }
    assert_eq!(counted, 10);
}

#[test]
fn a_touch_opens_or_flags() {
    let board = numbers_on_board(board_with_mines(10, 10, &vec![Point::new(0, 0)]));
    // A single mine lies at (0, 0); the cells a knight's move from it show
    // one.
    assert_eq!(board.mines, 1);
    assert_eq!(board.at(&Point::new(1, 2)), Some(&number(b'C', 1)));
    assert_eq!(board.at(&Point::new(2, 1)), Some(&number(b'C', 1)));
    assert_eq!(board.at(&Point::new(1, 1)), Some(&number(b'C', 0)));
    let flagged = board.play(Mode::Flagging, &Point::new(0, 0));
    assert_eq!(flagged, board.flag_item(&Point::new(0, 0)));
    assert_eq!(flagged.at(&Point::new(0, 0)), Some(&Mine { state: Flagged }));
    let kept = flagged.play(Mode::Digging, &Point::new(0, 0));
    assert_eq!(kept, flagged);
    let opened = flagged.play(Mode::Digging, &Point::new(1, 2));
    assert_eq!(Some(opened.clone()), flagged.cascade_open_item(&Point::new(1, 2)));
    assert_eq!(opened.at(&Point::new(1, 2)), Some(&number(b'O', 1)));
    assert_eq!(opened.missing_points, 98);
    assert_eq!(
        board.try_play(Mode::Digging, &Point::new(10, 0)).unwrap_err(),
        MoveError::InvalidPoint
    );
    assert_eq!(board.try_play(Mode::Digging, &Point::new(1, 2)).unwrap().missing_points, 98);
}

#[test]
fn the_helper_flags_what_must_be_a_mine() {
    let board = Board::new(vec![vec![number(b'O', 1), Mine { state: Closed }]]);
    assert_eq!(board.robot_hint(), Some((Mode::Flagging, Point { x: 1, y: 0 })));
}

#[test]
fn the_helper_opens_what_cannot_be_a_mine() {
    let board = Board::new(vec![vec![
        Mine { state: Flagged },
        number(b'O', 1),
        number(b'C', 0),
    ]]);
    assert_eq!(board.robot_hint(), Some((Mode::Digging, Point { x: 2, y: 0 })));
}

#[test]
fn the_helper_looks_down_the_columns_from_the_left() {
    let board = Board::new(vec![
        vec![number(b'C', 0), number(b'O', 1), Mine { state: Closed }],
        vec![number(b'O', 1), number(b'O', 0), number(b'O', 0)],
        vec![Mine { state: Closed }, number(b'O', 0), number(b'O', 0)],
    ]);
    // (0, 1) comes before (1, 0): it touches two unopened cells and shows
    // one, so it gives nothing away; (1, 0) does the same. Neither does any
    // other cell, so the helper has nothing to say.
    assert_eq!(board.robot_hint(), None);
    let board = Board::new(vec![
        vec![number(b'O', 0), number(b'O', 1), Mine { state: Closed }],
        vec![number(b'O', 1), number(b'O', 1), number(b'O', 1)],
        vec![Mine { state: Closed }, number(b'O', 1), number(b'O', 0)],
    ]);
    // (0, 1) is the first open number in looking order; it touches one
    // unopened cell, (0, 2), and shows one.
    assert_eq!(board.robot_hint(), Some((Mode::Flagging, Point { x: 0, y: 2 })));
}

#[test]
fn the_helper_is_silent_when_nothing_is_given_away_or_the_game_is_over() {
    let board = Board::new(vec![vec![number(b'C', 1), Mine { state: Closed }]]);
    assert_eq!(board.robot_hint(), None);
    let board = Board::new(vec![vec![number(b'O', 2), Mine { state: Closed }]]);
    assert_eq!(board.robot_hint(), None);
    let board = Board::new(vec![vec![number(b'O', 0), number(b'C', 0)]]);
    assert_eq!(board.robot_hint(), None);
    let mut over = Board::new(vec![vec![number(b'O', 1), Mine { state: Closed }]]);
    over.state = BoardState::Failed;
    assert_eq!(over.robot_hint(), None);
    over.state = BoardState::Won;
    assert_eq!(over.robot_hint(), None);
    over.state = BoardState::Playing;
    assert_eq!(over.robot_hint(), Some((Mode::Flagging, Point { x: 1, y: 0 })));
}

fn closed_cells(board: &Board) -> usize {
    let mut n = 0;
    for row in board.map.iter() {
        for el in row.iter() {
            match el {
                Mine { state: Closed } | Number { state: Closed, .. } => n += 1,
                _ => {}
            }
        }
    }
    n
}

fn mine_cells(board: &Board) -> usize {
    let mut n = 0;
    for row in board.map.iter() {
        for el in row.iter() {
            if let Mine { .. } = el {
                n += 1;
            }
        }
    }
    n
}

#[test]
fn boards_drawn_by_chance_have_their_size_and_mines() {
    let small = small_board();
    assert_eq!((small.width, small.height, small.mines), (10, 10, 10));
    assert_eq!(mine_cells(&small), 10);
    assert_eq!(closed_cells(&small), 100);
    assert_eq!(small.missing_points, 90);
    assert_eq!(small.state, BoardState::Ready);
    let medium = medium_board();
    assert_eq!((medium.width, medium.height, medium.mines), (16, 16, 40));
    assert_eq!(mine_cells(&medium), 40);
    assert_eq!(medium.missing_points, 216);
    let large = large_board();
    assert_eq!((large.width, large.height, large.mines), (16, 30, 99));
    assert_eq!(mine_cells(&large), 99);
    assert_eq!(large.missing_points, 381);
    assert_eq!(large.map.len(), 30);
    assert_eq!(large.map[0].len(), 16);
    assert!(large.is_well_formed());
    let again = new_game(Difficulty::Hard);
    assert_eq!(mine_cells(&again), 99);
}

#[test]
fn a_game_starts_easy_and_digging() {
    let state = State::new();
    assert_eq!(state.difficulty, Difficulty::Easy);
    assert_eq!(state.mode, Mode::Digging);
    assert_eq!((state.board.width, state.board.height, state.board.mines), (10, 10, 10));
    assert_eq!(state.board.state, BoardState::Ready);
}

#[test]
fn asking_for_another_difficulty_starts_a_new_game() {
    let mut state = State::new();
    state.toggle_mode();
    state.toggle_difficulty();
    assert_eq!(state.difficulty, Difficulty::Medium);
    assert_eq!(state.mode, Mode::Flagging);
    assert_eq!((state.board.width, state.board.height, state.board.mines), (16, 16, 40));
    state.update(Msg::ToggleDifficulty);
    assert_eq!(state.difficulty, Difficulty::Hard);
    assert_eq!((state.board.width, state.board.height, state.board.mines), (16, 30, 99));
    // A flag leaves the board ready, so the difficulty still changes; once
    // a cell has been opened the same difficulty starts over.
    state.update_board(Point::new(0, 0));
    assert_eq!(state.board.state, BoardState::Ready);
    state.toggle_mode();
    state.update_board(Point::new(0, 0));
    assert_eq!(state.board.state, BoardState::Ready);
    state.update_board(Point::new(1, 0));
    assert_ne!(state.board.state, BoardState::Ready);
    state.toggle_difficulty();
    assert_eq!(state.difficulty, Difficulty::Hard);
    assert_eq!(state.board.state, BoardState::Ready);
    assert_eq!(closed_cells(&state.board), 480);
    state.toggle_difficulty();
    assert_eq!(state.difficulty, Difficulty::Easy);
    assert_eq!((state.board.width, state.board.height), (10, 10));
}

#[test]
fn a_game_does_what_the_player_asks_for() {
    let board = numbers_on_board(board_with_mines(10, 10, &vec![Point::new(0, 0)]));
    let mut state = State { difficulty: Difficulty::Easy, mode: Mode::Digging, board: board.clone() };
    state.update(Msg::UpdateBoard { point: Point::new(1, 2) });
    assert_eq!(Some(state.board.clone()), board.cascade_open_item(&Point::new(1, 2)));
    state.update(Msg::ToggleMode);
    assert_eq!(state.mode, Mode::Flagging);
    let before = state.board.clone();
    state.update(Msg::UpdateBoard { point: Point::new(0, 0) });
    assert_eq!(state.board, before.flag_item(&Point::new(0, 0)));
    assert_eq!(state.difficulty, Difficulty::Easy);
    // Touching an open number while digging changes nothing.
    state.toggle_mode();
    let before = state.clone();
    state.update_board(Point::new(1, 2));
    assert_eq!(state, before);
}

#[test]
fn the_helper_plays_its_own_suggestion() {
    let board = Board::new(vec![vec![number(b'O', 1), Mine { state: Closed }, number(b'C', 1)]]);
    let mut state = State { difficulty: Difficulty::Easy, mode: Mode::Digging, board };
    state.run_robot();
    assert_eq!(
        state.board.map,
        vec![vec![number(b'O', 1), Mine { state: Flagged }, number(b'C', 1)]]
    );
    assert_eq!(state.mode, Mode::Digging);
    state.update(Msg::RunRobot);
    // With the mine flagged nothing more is given away: the open number
    // touches one unopened cell, and it is flagged.
    assert_eq!(
        state.board.map,
        vec![vec![number(b'O', 1), Mine { state: Flagged }, number(b'C', 1)]]
    );
    let board = Board::new(vec![vec![Mine { state: Flagged }, number(b'O', 1), number(b'C', 0)]]);
    let mut state = State { difficulty: Difficulty::Easy, mode: Mode::Flagging, board };
    state.run_robot();
    assert_eq!(
        state.board.map,
        vec![vec![Mine { state: Flagged }, number(b'O', 1), number(b'O', 0)]]
    );
    assert_eq!(state.board.missing_points, 1);
}

#[test]
fn a_game_refuses_what_it_cannot_do() {
    let mut state = State::new();
    let before = state.clone();
    assert_eq!(
        state.try_update(Msg::UpdateBoard { point: Point { x: -1, y: 3 } }),
        Err(MoveError::InvalidPoint)
    );
    assert_eq!(state, before);
    state.board = numbers_on_board(board_with_mines(10, 10, &vec![Point::new(0, 0)]));
    state.board.missing_points = i32::MIN;
    let before = state.clone();
    assert_eq!(
        state.try_update(Msg::UpdateBoard { point: Point::new(3, 3) }),
        Err(MoveError::CounterUnderflow)
    );
    assert_eq!(state, before);
    // The helper has nothing to say on an untouched board, a mine can be
    // opened and a flag set without room in the counter.
    assert_eq!(state.try_update(Msg::RunRobot), Ok(()));
    assert_eq!(state, before);
    state.mode = Mode::Flagging;
    assert_eq!(state.try_update(Msg::UpdateBoard { point: Point::new(3, 3) }), Ok(()));
    assert_eq!(state.board.missing_points, i32::MIN);
    state.mode = Mode::Digging;
    state.board.mines = 11;
    assert_eq!(state.try_update(Msg::RunRobot), Err(MoveError::MalformedBoard));
    assert_eq!(
        state.try_update(Msg::UpdateBoard { point: Point::new(3, 3) }),
        Err(MoveError::MalformedBoard)
    );
    assert_eq!(state.try_update(Msg::ToggleMode), Ok(()));
    assert_eq!(state.mode, Mode::Flagging);
    assert_eq!(state.try_update(Msg::ToggleDifficulty), Ok(()));
    assert_eq!(state.difficulty, Difficulty::Medium);
    assert!(state.board.is_well_formed());
    assert_eq!(state.try_update(Msg::UpdateBoard { point: Point::new(3, 3) }), Ok(()));
    // A flag does not start the game.
    assert_eq!(state.board.state, BoardState::Ready);
}
