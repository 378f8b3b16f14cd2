use lib_minesweeper::create_board;
use lib_minesweeper::numbers_on_board;
use lib_minesweeper::Board;
use lib_minesweeper::BoardState;
use lib_minesweeper::MapElement;
use lib_minesweeper::MapElement::Mine;
use lib_minesweeper::MapElement::Number;
use lib_minesweeper::MapElementCellState;
use lib_minesweeper::MapElementCellState::Closed;
use lib_minesweeper::MapElementCellState::Flagged;
use lib_minesweeper::MapElementCellState::Open;
use lib_minesweeper::Point;

fn state_from_bytes(state: u8) -> MapElementCellState {
    match state {
        b'O' => Open,
        b'C' => Closed,
        b'F' => Flagged,
        _ => unreachable!(),
    }
}

fn count_from_bytes(c: u8) -> i32 {
    (c as i32) - (b'0' as i32)
}

fn make_map(map: Vec<String>, state: Vec<String>) -> Vec<Vec<MapElement>> {
    map.iter()
        .zip(state)
        .map(|(map_row, state_row)| {
            map_row
                .as_bytes()
                .iter()
                .zip(state_row.as_bytes())
                .map(|(row_el, state_el)| match row_el {
                    b'X' => Mine {
                        state: state_from_bytes(*state_el),
                    },
                    _ => Number {
                        state: state_from_bytes(*state_el),
                        count: count_from_bytes(*row_el),
                    },
                })
                .collect()
        })
        .collect()
}

fn five_by_four_board() -> Board {
    Board::new(make_map(
        vec![
            String::from("X0000"),
            String::from("0X000"),
            String::from("00X00"),
            String::from("000X0"),
        ],
        vec![
            String::from("CCCCC"),
            String::from("CCCCC"),
            String::from("CCCCC"),
            String::from("CCCCC"),
        ],
    ))
}

fn five_by_two_board() -> Board {
    Board::new(make_map(
        vec![String::from("X0000"), String::from("0X000")],
        vec![String::from("CCCCC"), String::from("CCCCC")],
    ))
}

#[test]
fn test_make_map() {
    let map = make_map(
        vec![String::from("00"), String::from("22"), String::from("XX")],
        vec![String::from("OC"), String::from("FC"), String::from("CF")],
    );
    let expected_map = vec![
        vec![
            Number {
                count: 0,
                state: Open,
            },
            Number {
                count: 0,
                state: Closed,
            },
        ],
        vec![
            Number {
                count: 2,
                state: Flagged,
            },
            Number {
                count: 2,
                state: Closed,
            },
        ],
        vec![Mine { state: Closed }, Mine { state: Flagged }],
    ];

    assert_eq!(map, expected_map);
}

#[test]
fn test_create_board() {
    let width = 5;
    let height = 4;
    let mines = 4;
    let mut v = vec![3, 3, 2, 2, 1, 1, 0, 0];
    let rand = move |_start: usize, _end: usize| -> usize {
        return v.pop().unwrap();
    };
    let board = create_board(width, height, mines, rand);
    let expected_map = five_by_four_board().map;
    assert_eq!(board.map, expected_map);
    assert_eq!(board.state, BoardState::NotReady);
}

#[test]
fn test_create_board_without_repeated_mines() {
    let width = 5;
    let height = 4;
    let mines = 4;
    let mut v = vec![3, 3, 2, 2, 0, 0, 1, 1, 0, 0];
    let rand = move |_start: usize, _end: usize| -> usize {
        return v.pop().unwrap();
    };
    let board = create_board(width, height, mines, rand);
    let expected_map = five_by_four_board().map;
    assert_eq!(board.map, expected_map);
    assert_eq!(board.state, BoardState::NotReady);
}

#[test]
fn test_numbers_on_board() {
    let board = numbers_on_board(five_by_four_board());
    let expected_map = make_map(
        vec![
            String::from("X1020"),
            String::from("1X202"),
            String::from("02X10"),
            String::from("201X1"),
        ],
        vec![
            String::from("CCCCC"),
            String::from("CCCCC"),
            String::from("CCCCC"),
            String::from("CCCCC"),
        ],
    );
    assert_eq!(board.map, expected_map);
    assert_eq!(board.state, BoardState::Ready);
}

#[test]
fn test_surrounding_points() {
    assert_eq!(
        five_by_two_board().surrounding_points(&Point { x: 1, y: 0 }),
        vec![
            Point { x: 0, y: 0 },
            Point { x: 0, y: 1 },
            Point { x: 1, y: 1 },
            Point { x: 2, y: 0 },
            Point { x: 2, y: 1 },
        ]
    );
}

#[test]
fn test_cascade_open_item() {
    let board = numbers_on_board(five_by_two_board());
    let board = board.cascade_open_item(&Point::new(3, 1)).unwrap();
    let expected_map = make_map(
        vec![String::from("X0010"), String::from("0X100")],
        vec![String::from("COCCC"), String::from("CCCOC")],
    );
    assert_eq!(board.map, expected_map);
    assert_eq!(board.state, BoardState::Playing);
}

#[test]
fn test_win_board() {
    let board = numbers_on_board(five_by_two_board());
    let board = board.cascade_open_item(&Point::new(3, 1)).unwrap();
    let board = board.cascade_open_item(&Point::new(0, 1)).unwrap();
    // (1, 0) lies a knight's move from (3, 1) and was opened with it.
    assert!(board.cascade_open_item(&Point::new(1, 0)).is_none());
    let board = board.cascade_open_item(&Point::new(3, 0)).unwrap();
    let board = board.cascade_open_item(&Point::new(4, 0)).unwrap();
    let expected_map = make_map(
        vec![String::from("X0010"), String::from("0X100")],
        vec![String::from("COOOO"), String::from("OCOOO")],
    );
    assert_eq!(board.map, expected_map);
    assert_eq!(board.state, BoardState::Won);
}

#[test]
fn test_flag() {
    let board = numbers_on_board(five_by_two_board());
    let board = board.flag_item(&Point::new(3, 1));
    let expected_map = make_map(
        vec![String::from("X0010"), String::from("0X100")],
        vec![String::from("CCCCC"), String::from("CCCFC")],
    );
    assert_eq!(board.map, expected_map);
    assert_eq!(board.state, BoardState::Ready);
}

#[test]
fn test_flagging_again_unflags() {
    let board = numbers_on_board(five_by_two_board());
    let board = board.flag_item(&Point::new(3, 1));
    let board = board.flag_item(&Point::new(3, 1));
    let expected_map = make_map(
        vec![String::from("X0010"), String::from("0X100")],
        vec![String::from("CCCCC"), String::from("CCCCC")],
    );
    assert_eq!(board.map, expected_map);
    assert_eq!(board.state, BoardState::Ready);
}

#[test]
fn test_flagging_open_does_noting() {
    let board = numbers_on_board(five_by_two_board());
    let board = board.cascade_open_item(&Point::new(2, 0)).unwrap();
    let board = board.flag_item(&Point::new(2, 0));
    let expected_map = make_map(
        vec![String::from("X0010"), String::from("0X100")],
        vec![String::from("CCOCC"), String::from("OCCCO")],
    );
    assert_eq!(board.map, expected_map);
    assert_eq!(board.state, BoardState::Playing);
}
