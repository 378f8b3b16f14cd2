use lib_minesweeper::board_with_mines;
use lib_minesweeper::check_setup;
use lib_minesweeper::create_board;
use lib_minesweeper::numbers_on_board;
use lib_minesweeper::try_create_board;
use lib_minesweeper::Board;
use lib_minesweeper::BoardState;
use lib_minesweeper::MapElement;
use lib_minesweeper::MapElement::Mine;
use lib_minesweeper::MapElement::Number;
use lib_minesweeper::MapElementCellState;
use lib_minesweeper::MapElementCellState::Closed;
use lib_minesweeper::MapElementCellState::Flagged;
use lib_minesweeper::MapElementCellState::Open;
use lib_minesweeper::MoveError;
use lib_minesweeper::Point;
use lib_minesweeper::SetupError;

fn cell(kind: u8, state: u8) -> MapElement {
    let state = match state {
        b'O' => Open,
        b'C' => Closed,
        b'F' => Flagged,
        _ => unreachable!(),
    };
    match kind {
        b'X' => Mine { state },
        _ => Number {
            state,
            count: (kind as i32) - (b'0' as i32),
        },
    }
}

fn grid(kinds: &[&str], states: &[&str]) -> Vec<Vec<MapElement>> {
    let mut rows = Vec::new();
    for (k, s) in kinds.iter().zip(states.iter()) {
        let mut row = Vec::new();
        for (a, b) in k.as_bytes().iter().zip(s.as_bytes().iter()) {
            row.push(cell(*a, *b));
        }
        rows.push(row);
    }
    rows
}

fn states_of(board: &Board) -> Vec<String> {
    let mut rows = Vec::new();
    for row in board.map.iter() {
        let mut text = String::new();
        for el in row.iter() {
            let state = match el {
                Mine { state } => state,
                Number { state, .. } => state,
            };
            text.push(match state {
                MapElementCellState::Closed => 'C',
                MapElementCellState::Open => 'O',
                MapElementCellState::Flagged => 'F',
            });
        }
        rows.push(text);
    }
    rows
}

fn two_mines() -> Board {
    numbers_on_board(Board::new(grid(&["X0000", "0X000"], &["CCCCC", "CCCCC"])))
}

fn mines_on(board: &Board) -> usize {
    board
        .map
        .iter()
        .map(|row| row.iter().filter(|el| matches!(el, Mine { .. })).count())
        .sum()
}

#[test]
fn new_board_counts_its_mines_and_missing_points() {
    let board = Board::new(grid(
        &["X0000", "0X000", "00X00", "000X0"],
        &["CCCCC", "CCCCC", "CCCCC", "CCCCC"],
    ));
    assert_eq!(board.width, 5);
    assert_eq!(board.height, 4);
    assert_eq!(board.mines, 4);
    assert_eq!(board.missing_points, 16);
    assert_eq!(board.state, BoardState::NotReady);
    assert!(board.is_well_formed());
}

#[test]
fn mines_stay_the_same_across_moves() {
    let board = two_mines();
    assert_eq!(board.mines, 2);
    let flagged = board.flag_item(&Point::new(0, 0));
    assert_eq!(flagged.mines, 2);
    assert_eq!(mines_on(&flagged), 2);
    let opened = flagged.cascade_open_item(&Point::new(0, 1)).unwrap();
    assert_eq!(opened.mines, 2);
    assert_eq!(mines_on(&opened), 2);
    let lost = opened.cascade_open_item(&Point::new(1, 1)).unwrap();
    assert_eq!(lost.mines, 2);
    assert_eq!(mines_on(&lost), 2);
    assert_eq!((lost.width, lost.height), (5, 2));
}

#[test]
fn counter_drops_once_for_each_opened_cell() {
    let board = two_mines();
    assert_eq!(board.missing_points, 8);
    let one = board.cascade_open_item(&Point::new(3, 0)).unwrap();
    assert_eq!(states_of(&one), vec!["CCCOC", "CCCCC"]);
    assert_eq!(one.missing_points, 7);
    let three = one.cascade_open_item(&Point::new(0, 1)).unwrap();
    assert_eq!(states_of(&three), vec!["CCOOC", "OCCCO"]);
    assert_eq!(three.missing_points, 4);
    assert!(three.cascade_open_item(&Point::new(0, 1)).is_none());
    assert!(three.cascade_open_item(&Point::new(3, 0)).is_none());
    let lost = three.cascade_open_item(&Point::new(0, 0)).unwrap();
    assert_eq!(lost.missing_points, 4);
}

#[test]
fn opening_a_mine_fails_and_leaves_the_grid() {
    let board = two_mines();
    let lost = board.cascade_open_item(&Point::new(0, 0)).unwrap();
    assert_eq!(lost.state, BoardState::Failed);
    assert_eq!(lost.map, board.map);
    assert_eq!(lost.missing_points, board.missing_points);
    let after_some = board.cascade_open_item(&Point::new(3, 1)).unwrap();
    let lost_later = after_some.cascade_open_item(&Point::new(1, 1)).unwrap();
    assert_eq!(lost_later.state, BoardState::Failed);
    assert_eq!(lost_later.missing_points, 6);
    assert_eq!(lost_later.map, after_some.map);
}

#[test]
fn opening_an_open_mine_fails_too() {
    let board = Board::new(grid(&["X1"], &["OC"]));
    let lost = board.cascade_open_item(&Point::new(0, 0)).unwrap();
    assert_eq!(lost.state, BoardState::Failed);
    assert_eq!(lost.map, board.map);
}

#[test]
fn flagged_cells_are_not_opened() {
    let board = two_mines();
    let board = board.flag_item(&Point::new(0, 0));
    let board = board.flag_item(&Point::new(3, 1));
    assert!(board.cascade_open_item(&Point::new(0, 0)).is_none());
    assert!(board.cascade_open_item(&Point::new(3, 1)).is_none());
    // A cascade stops at a flag: (1, 0) spreads to (3, 1), which is flagged.
    let opened = board.cascade_open_item(&Point::new(1, 0)).unwrap();
    assert_eq!(states_of(&opened), vec!["FOCCC", "CCCFC"]);
}

#[test]
fn the_game_is_won_when_the_counter_reaches_zero() {
    let board = two_mines();
    let board = board.cascade_open_item(&Point::new(3, 1)).unwrap();
    let board = board.cascade_open_item(&Point::new(0, 1)).unwrap();
    let board = board.cascade_open_item(&Point::new(3, 0)).unwrap();
    assert_eq!(board.missing_points, 2);
    assert_eq!(board.state, BoardState::Playing);
    let board = board.cascade_open_item(&Point::new(4, 0)).unwrap();
    assert_eq!(board.missing_points, 0);
    assert_eq!(board.state, BoardState::Won);
}

#[test]
fn a_board_of_one_cell_is_won_by_the_first_move() {
    let board = numbers_on_board(Board::new(grid(&["0"], &["C"])));
    assert_eq!(board.state, BoardState::Ready);
    assert_eq!(board.missing_points, 1);
    let board = board.cascade_open_item(&Point::new(0, 0)).unwrap();
    assert_eq!(board.state, BoardState::Won);
    assert_eq!(board.missing_points, 0);
    assert_eq!(states_of(&board), vec!["O"]);
}

#[test]
fn flagging_leaves_the_counter_and_the_state() {
    let board = two_mines();
    let once = board.flag_item(&Point::new(3, 1));
    assert_eq!(states_of(&once), vec!["CCCCC", "CCCFC"]);
    assert_eq!(once.missing_points, 8);
    assert_eq!(once.state, BoardState::Ready);
    assert_eq!(once.mines, 2);
    let mine = board.flag_item(&Point::new(0, 0));
    assert_eq!(states_of(&mine), vec!["FCCCC", "CCCCC"]);
    assert_eq!(mine.missing_points, 8);
    assert_eq!(mine.state, BoardState::Ready);
    let playing = board.cascade_open_item(&Point::new(3, 0)).unwrap();
    let flagged = playing.flag_item(&Point::new(2, 1));
    assert_eq!(flagged.missing_points, 7);
    assert_eq!(flagged.state, BoardState::Playing);
    let lost = playing.cascade_open_item(&Point::new(0, 0)).unwrap();
    assert_eq!(lost.flag_item(&Point::new(2, 1)).state, BoardState::Failed);
}

#[test]
fn flagging_twice_gives_the_board_back() {
    let board = two_mines();
    for p in [Point::new(3, 1), Point::new(0, 0), Point::new(4, 0)] {
        let twice = board.flag_item(&p).flag_item(&p);
        assert_eq!(twice, board);
    }
    let playing = board
        .cascade_open_item(&Point::new(3, 0))
        .unwrap()
        .flag_item(&Point::new(1, 1));
    for p in [Point::new(1, 1), Point::new(2, 1), Point::new(3, 0)] {
        let twice = playing.flag_item(&p).flag_item(&p);
        assert_eq!(twice, playing);
    }
}

#[test]
fn flagging_the_last_number_does_not_win() {
    let board = numbers_on_board(Board::new(grid(&["X0"], &["CC"])));
    let p = Point::new(1, 0);
    let flagged = board.flag_item(&p);
    assert_eq!(flagged.state, BoardState::Ready);
    assert_eq!(flagged.missing_points, 1);
    assert_eq!(flagged.at(&p), Some(&Number { state: Flagged, count: 0 }));
    // A flagged number is still missing: it must lose its flag and be
    // opened for the game to be won.
    assert!(flagged.cascade_open_item(&p).is_none());
    let won = flagged.flag_item(&p).cascade_open_item(&p).unwrap();
    assert_eq!(won.state, BoardState::Won);
    assert_eq!(won.missing_points, 0);
}

#[test]
fn a_flagged_number_keeps_the_game_from_being_won() {
    let board = two_mines().flag_item(&Point::new(2, 1));
    let board = board.cascade_open_item(&Point::new(3, 1)).unwrap();
    let board = board.cascade_open_item(&Point::new(0, 1)).unwrap();
    let board = board.cascade_open_item(&Point::new(3, 0)).unwrap();
    let board = board.cascade_open_item(&Point::new(4, 0)).unwrap();
    assert_eq!(states_of(&board), vec!["COOOO", "OCFOO"]);
    assert_eq!(board.missing_points, 1);
    assert_eq!(board.state, BoardState::Playing);
    let board = board.flag_item(&Point::new(2, 1));
    assert_eq!(board.state, BoardState::Playing);
    let board = board.cascade_open_item(&Point::new(2, 1)).unwrap();
    assert_eq!(board.missing_points, 0);
    assert_eq!(board.state, BoardState::Won);
}

#[test]
fn flagging_a_mine_twice_restores_a_board_in_play() {
    let board = two_mines().cascade_open_item(&Point::new(3, 0)).unwrap();
    assert_eq!(board.state, BoardState::Playing);
    let once = board.flag_item(&Point::new(1, 1));
    assert_eq!(states_of(&once), vec!["CCCOC", "CFCCC"]);
    assert_eq!(once.missing_points, board.missing_points);
    let twice = once.flag_item(&Point::new(1, 1));
    assert_eq!(twice, board);
}

#[test]
fn flagging_a_mine_leaves_a_board_ready() {
    let board = two_mines();
    let flagged = board.flag_item(&Point::new(0, 0));
    assert_eq!(flagged.state, BoardState::Ready);
    assert_eq!(flagged.missing_points, 8);
    assert_eq!(states_of(&flagged), vec!["FCCCC", "CCCCC"]);
    // The first opening starts the game.
    let opened = flagged.cascade_open_item(&Point::new(3, 0)).unwrap();
    assert_eq!(opened.state, BoardState::Playing);
}

#[test]
fn opening_spreads_over_the_region_of_zeros() {
    // Every number shows zero on a board without mines: the region of a cell
    // is what knight's moves reach from it.
    let board = numbers_on_board(Board::new(grid(&["000", "000", "000"], &["CCC", "CCC", "CCC"])));
    let opened = board.cascade_open_item(&Point::new(0, 0)).unwrap();
    // The centre of a board of three by three has no knight neighbour.
    assert_eq!(states_of(&opened), vec!["OOO", "OCO", "OOO"]);
    assert_eq!(opened.missing_points, 1);
    assert_eq!(opened.state, BoardState::Playing);
    let centre = board.cascade_open_item(&Point::new(1, 1)).unwrap();
    assert_eq!(states_of(&centre), vec!["CCC", "COC", "CCC"]);
}

#[test]
fn opening_stops_at_numbers_that_are_not_zero() {
    let board = two_mines();
    let opened = board.cascade_open_item(&Point::new(4, 0)).unwrap();
    // (4, 0) shows zero and spreads to (2, 1), which shows one and stops.
    assert_eq!(states_of(&opened), vec!["CCCCO", "CCOCC"]);
    assert_eq!(opened.missing_points, 6);
}

#[test]
fn opening_on_a_board_without_counts_can_meet_a_mine() {
    // Before the counts are derived every number shows zero, so a cascade
    // runs into the mine a knight's move away and the game is lost.
    let board = Board::new(grid(&["000", "000", "0X0"], &["CCC", "CCC", "CCC"]));
    let opened = board.cascade_open_item(&Point::new(0, 1)).unwrap();
    assert_eq!(opened.state, BoardState::Failed);
    assert_eq!(states_of(&opened), vec!["OOO", "OCO", "OCO"]);
    assert_eq!(opened.missing_points, 1);
}

#[test]
fn lookup_off_the_board_finds_nothing() {
    let board = two_mines();
    assert!(board.at(&Point { x: -1, y: 0 }).is_none());
    assert!(board.at(&Point { x: 0, y: -1 }).is_none());
    assert!(board.at(&Point { x: 5, y: 0 }).is_none());
    assert!(board.at(&Point { x: 0, y: 2 }).is_none());
    assert_eq!(board.at(&Point { x: 4, y: 1 }), Some(&Number { state: Closed, count: 0 }));
    assert_eq!(board.at(&Point { x: 1, y: 1 }), Some(&Mine { state: Closed }));
    assert_eq!(board.at(&Point { x: 3, y: 0 }), Some(&Number { state: Closed, count: 1 }));
}

#[test]
fn knight_neighbours_come_in_visiting_order() {
    let board = Board::new(grid(
        &["00000", "00000", "00000", "00000", "00000"],
        &["CCCCC", "CCCCC", "CCCCC", "CCCCC", "CCCCC"],
    ));
    assert_eq!(
        board.surrounding_knight_points(&Point { x: 2, y: 2 }),
        vec![
            Point { x: 0, y: 1 },
            Point { x: 0, y: 3 },
            Point { x: 1, y: 0 },
            Point { x: 1, y: 4 },
            Point { x: 3, y: 0 },
            Point { x: 3, y: 4 },
            Point { x: 4, y: 1 },
            Point { x: 4, y: 3 },
        ]
    );
    assert_eq!(
        board.surrounding_knight_points(&Point { x: 0, y: 0 }),
        vec![Point { x: 1, y: 2 }, Point { x: 2, y: 1 }]
    );
    assert_eq!(
        board.surrounding_knight_points(&Point { x: -1, y: -1 }),
        vec![Point { x: 0, y: 1 }, Point { x: 1, y: 0 }]
    );
    assert_eq!(board.surrounding_knight_points(&Point { x: 9, y: 9 }), vec![]);
}

#[test]
fn touching_neighbours_come_in_listing_order() {
    let board = Board::new(grid(&["000", "000", "000"], &["CCC", "CCC", "CCC"]));
    assert_eq!(
        board.surrounding_points(&Point { x: 1, y: 1 }),
        vec![
            Point { x: 0, y: 0 },
            Point { x: 0, y: 1 },
            Point { x: 0, y: 2 },
            Point { x: 1, y: 0 },
            Point { x: 1, y: 2 },
            Point { x: 2, y: 0 },
            Point { x: 2, y: 1 },
            Point { x: 2, y: 2 },
        ]
    );
    assert_eq!(
        board.surrounding_points(&Point { x: 0, y: 0 }),
        vec![Point { x: 0, y: 1 }, Point { x: 1, y: 0 }, Point { x: 1, y: 1 }]
    );
    assert_eq!(
        board.surrounding_points(&Point { x: i32::MAX, y: i32::MIN }),
        vec![]
    );
}

#[test]
fn counts_are_the_mines_a_knight_move_away() {
    let board = numbers_on_board(Board::new(grid(
        &["00000", "0X0X0", "00000", "0X0X0", "00000"],
        &["CCCCC", "CCCCC", "CCCCC", "CCCCC", "CCCCC"],
    )));
    assert_eq!(
        board.map,
        grid(
            &["01010", "1X2X1", "02020", "1X2X1", "01010"],
            &["CCCCC", "CCCCC", "CCCCC", "CCCCC", "CCCCC"],
        )
    );
    assert_eq!(board.at(&Point::new(2, 3)), Some(&Number { state: Closed, count: 2 }));
    assert_eq!(board.at(&Point::new(2, 2)), Some(&Number { state: Closed, count: 0 }));
    assert_eq!(board.at(&Point::new(1, 1)), Some(&Mine { state: Closed }));
    assert_eq!(board.mines, 4);
    assert_eq!(board.missing_points, 21);
}

#[test]
fn deriving_counts_makes_any_board_ready_and_keeps_the_marks() {
    let played = two_mines()
        .flag_item(&Point::new(0, 0))
        .cascade_open_item(&Point::new(3, 0))
        .unwrap();
    assert_eq!(played.state, BoardState::Playing);
    let again = numbers_on_board(played.clone());
    assert_eq!(again.state, BoardState::Ready);
    assert_eq!(again.map, played.map);
    assert_eq!(again.missing_points, played.missing_points);
    assert_eq!(again.mines, played.mines);
}

#[test]
fn create_board_places_the_mines_that_are_drawn() {
    let mut draws = vec![1, 0, 0, 2, 2, 1].into_iter();
    let board = create_board(3, 3, 3, move |_low: usize, _high: usize| draws.next().unwrap());
    assert_eq!(
        board.map,
        grid(&["0X0", "00X", "X00"], &["CCC", "CCC", "CCC"])
    );
    assert_eq!(board.mines, 3);
    assert_eq!(board.missing_points, 6);
    assert_eq!(board.state, BoardState::NotReady);
    assert_eq!((board.width, board.height), (3, 3));
}

#[test]
fn create_board_asks_for_the_range_of_the_board() {
    let mut asked = Vec::new();
    let board = create_board(4, 2, 1, |low: usize, high: usize| {
        asked.push((low, high));
        high - 1
    });
    assert_eq!(asked, vec![(0, 4), (0, 2)]);
    assert_eq!(board.map, grid(&["0000", "000X"], &["CCCC", "CCCC"]));
}

#[test]
fn create_board_without_mines_draws_nothing() {
    let board = create_board(2, 2, 0, |_low: usize, _high: usize| -> usize { unreachable!() });
    assert_eq!(board.map, grid(&["00", "00"], &["CC", "CC"]));
    assert_eq!(board.mines, 0);
    assert_eq!(board.missing_points, 4);
}

#[test]
fn create_board_can_fill_the_whole_board() {
    let mut draws = vec![0, 0, 0, 0, 1, 0].into_iter();
    let board = create_board(2, 1, 2, move |_low: usize, _high: usize| draws.next().unwrap());
    assert_eq!(board.map, grid(&["XX"], &["CC"]));
    assert_eq!(board.mines, 2);
    assert_eq!(board.missing_points, 0);
}

#[test]
fn a_candidate_off_the_board_places_no_mine() {
    let board = create_board(2, 2, 1, |_low: usize, _high: usize| 7);
    assert_eq!(board.map, grid(&["00", "00"], &["CC", "CC"]));
    assert_eq!(board.mines, 0);
    assert_eq!(board.missing_points, 4);
}

#[test]
fn board_with_mines_ignores_points_off_the_grid() {
    let points = vec![Point::new(1, 0), Point { x: -1, y: 0 }, Point::new(0, 5)];
    let board = board_with_mines(2, 2, &points);
    assert_eq!(board.map, grid(&["0X", "00"], &["CC", "CC"]));
    assert_eq!(board.mines, 1);
    assert_eq!(board.missing_points, 3);
}

#[test]
fn setup_is_refused_with_its_reason() {
    assert_eq!(check_setup(0, 3, 0), Err(SetupError::EmptyBoard));
    assert_eq!(check_setup(3, 0, 0), Err(SetupError::EmptyBoard));
    assert_eq!(check_setup(65536, 32768, 0), Err(SetupError::TooLarge));
    assert_eq!(check_setup(46341, 46341, 0), Err(SetupError::TooLarge));
    assert_eq!(check_setup(3, 3, 10), Err(SetupError::TooManyMines));
    assert_eq!(check_setup(3, 3, 9), Ok(()));
    assert_eq!(check_setup(46340, 46340, 0), Ok(()));
    assert_eq!(
        try_create_board(3, 3, 10, |_low: usize, _high: usize| 0).unwrap_err(),
        SetupError::TooManyMines
    );
    assert_eq!(
        try_create_board(0, 0, 0, |_low: usize, _high: usize| 0).unwrap_err(),
        SetupError::EmptyBoard
    );
    let board = try_create_board(1, 1, 1, |_low: usize, _high: usize| 0).unwrap();
    assert_eq!(board.map, grid(&["X"], &["C"]));
    assert_eq!(SetupError::TooManyMines.message(), "the board has fewer cells than mines");
    assert_eq!(SetupError::TooLarge.message(), "the board has too many cells");
    assert_eq!(SetupError::EmptyBoard.message(), "the board has no cells");
}

#[test]
fn moves_are_refused_with_their_reason() {
    let board = two_mines();
    assert_eq!(
        board.try_flag_item(&Point { x: 5, y: 0 }).unwrap_err(),
        MoveError::InvalidPoint
    );
    assert_eq!(
        board.try_cascade_open_item(&Point { x: 0, y: -1 }).unwrap_err(),
        MoveError::InvalidPoint
    );
    let mut broken = two_mines();
    broken.width = 6;
    assert!(!broken.is_well_formed());
    assert_eq!(
        broken.try_flag_item(&Point::new(0, 0)).unwrap_err(),
        MoveError::MalformedBoard
    );
    assert_eq!(
        broken.try_cascade_open_item(&Point::new(0, 0)).unwrap_err(),
        MoveError::MalformedBoard
    );
    let mut miscounted = two_mines();
    miscounted.mines = 3;
    assert!(!miscounted.is_well_formed());
    let mut drained = two_mines();
    drained.missing_points = i32::MIN;
    assert!(drained.is_well_formed());
    assert!(!drained.has_counter_room());
    assert_eq!(
        drained.try_cascade_open_item(&Point::new(3, 1)).unwrap_err(),
        MoveError::CounterUnderflow
    );
    // A flag does not touch the counter, and neither does opening a mine.
    let flagged = drained.try_flag_item(&Point::new(3, 1)).unwrap();
    assert_eq!(flagged.missing_points, i32::MIN);
    let lost = drained.try_cascade_open_item(&Point::new(0, 0)).unwrap().unwrap();
    assert_eq!(lost.state, BoardState::Failed);
    assert_eq!(drained.try_cascade_open_item(&Point::new(3, 1)).unwrap_err(), MoveError::CounterUnderflow);
    assert_eq!(flagged.try_cascade_open_item(&Point::new(3, 1)), Ok(None));
    let mut tight = two_mines();
    tight.missing_points = i32::MIN + 8;
    assert!(tight.has_counter_room());
    tight.missing_points = i32::MIN + 7;
    assert!(!tight.has_counter_room());
    assert_eq!(MoveError::InvalidPoint.message(), "the point names no cell of the board");
    assert_eq!(MoveError::MalformedBoard.message(), "the board is not well formed");
    assert_eq!(
        MoveError::CounterUnderflow.message(),
        "the counter of missing points would underflow"
    );
}

#[test]
fn checked_moves_do_what_the_moves_do() {
    let board = two_mines();
    assert_eq!(
        board.try_flag_item(&Point::new(3, 1)).unwrap(),
        board.flag_item(&Point::new(3, 1))
    );
    assert_eq!(
        board.try_cascade_open_item(&Point::new(3, 1)).unwrap(),
        board.cascade_open_item(&Point::new(3, 1))
    );
    let open = board.cascade_open_item(&Point::new(3, 1)).unwrap();
    assert_eq!(open.try_cascade_open_item(&Point::new(3, 1)), Ok(None));
}

#[test]
fn a_board_comes_back_from_its_parts() {
    let board = two_mines().cascade_open_item(&Point::new(3, 1)).unwrap();
    let back = Board::from_parts(
        board.map.clone(),
        board.missing_points,
        board.width,
        board.height,
        board.mines,
        board.state.clone(),
    );
    assert_eq!(back, Some(board.clone()));
    assert_eq!(
        Board::from_parts(board.map.clone(), 6, 5, 2, 1, BoardState::Playing),
        None
    );
    assert_eq!(
        Board::from_parts(board.map.clone(), 6, 2, 5, 2, BoardState::Playing),
        None
    );
    assert_eq!(Board::from_parts(Vec::new(), 0, 0, 0, 0, BoardState::NotReady), None);
    let ragged = vec![vec![cell(b'0', b'C')], vec![]];
    assert_eq!(Board::from_parts(ragged, 1, 1, 2, 0, BoardState::NotReady), None);
}

#[test]
fn a_point_is_made_of_a_column_and_a_row() {
    assert_eq!(Point::new(3, 1), Point { x: 3, y: 1 });
    assert_eq!(Point::new(0, 0), Point { x: 0, y: 0 });
    assert_eq!(Point::new(2147483647, 7), Point { x: i32::MAX, y: 7 });
}

#[test]
fn a_move_leaves_the_board_it_is_made_on() {
    let board = two_mines();
    let copy = board.clone();
    let _ = board.flag_item(&Point::new(0, 0));
    let _ = board.cascade_open_item(&Point::new(0, 1));
    assert_eq!(board, copy);
}
