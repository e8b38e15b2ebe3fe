use rustsweeper::board::Board;
use rustsweeper::game::{parse_command, Command, Game, InputError, Outcome};
use rustsweeper::BOARD_SIZE;

fn fixed_board(crabs: &[(usize, usize)]) -> Board {
    let mut board = Board::new();
    for &(x, y) in crabs {
        board.tiles[x][y].crab = true;
    }
    board.init();
    board
}

const SCENARIO: [(usize, usize); 8] = [(0, 0), (1, 5), (7, 7), (3, 3), (5, 1), (6, 4), (2, 7), (4, 6)];

#[test]
fn parse_moves() {
    assert_eq!(parse_command(b"C3\n"), Ok(Command::Move { x: 2, y: 2 }));
    assert_eq!(parse_command(b"A1"), Ok(Command::Move { x: 0, y: 0 }));
    assert_eq!(parse_command(b"H8\n"), Ok(Command::Move { x: 7, y: 7 }));
}

#[test]
fn parse_help() {
    assert_eq!(parse_command(b"help"), Ok(Command::Help));
    assert_eq!(parse_command(b"help\n"), Ok(Command::Help));
}

#[test]
fn parse_errors() {
    assert_eq!(parse_command(b"A10\n"), Err(InputError::TooLong));
    assert_eq!(parse_command(b"helper"), Err(InputError::TooLong));
    assert_eq!(parse_command(b"\n"), Err(InputError::TooShort));
    assert_eq!(parse_command(b""), Err(InputError::TooShort));
    assert_eq!(parse_command(b"I1\n"), Err(InputError::ColumnOutOfRange(b'I')));
    assert_eq!(parse_command(b"a1\n"), Err(InputError::ColumnOutOfRange(b'a')));
    assert_eq!(parse_command(b"A9\n"), Err(InputError::RowOutOfRange(b'9')));
    assert_eq!(parse_command(b"A0\n"), Err(InputError::RowOutOfRange(b'0')));
}

#[test]
fn scenario_counts() {
    let board = fixed_board(&SCENARIO);
    assert_eq!(board.count_crabs(), 8);
    assert_eq!(board.get_count(1, 1), 1);
    assert_eq!(board.get_count(0, 6), 1);
    assert_eq!(board.get_count(6, 6), 1);
    assert_eq!(board.get_count(5, 5), 2);
    assert_eq!(board.get_count(6, 0), 1);
    assert_eq!(board.get_count(2, 2), 1);
}

#[test]
fn scenario_loss_after_a_move() {
    let mut game = Game::new(fixed_board(&SCENARIO));
    let Ok(Command::Move { x, y }) = parse_command(b"C3\n") else { panic!() };
    assert_eq!(game.play(x, y), Outcome::InProgress);
    assert_eq!(game.moves, 1);
    assert!(game.board.tiles[2][2].revealed);
    let Ok(Command::Move { x, y }) = parse_command(b"A1\n") else { panic!() };
    assert_eq!(game.play(x, y), Outcome::Lost { first_move: false });
    for &(cx, cy) in &SCENARIO {
        assert!(game.board.tiles[cx][cy].revealed);
    }
    assert_eq!(game.moves, 1);
}

#[test]
fn scenario_loss_on_first_move() {
    let mut game = Game::new(fixed_board(&SCENARIO));
    assert_eq!(game.play(7, 7), Outcome::Lost { first_move: true });
    for &(cx, cy) in &SCENARIO {
        assert!(game.board.tiles[cx][cy].revealed);
    }
    assert!(!game.board.tiles[2][2].revealed);
}

#[test]
fn scenario_win_in_one_move() {
    let wall: Vec<(usize, usize)> = (0..BOARD_SIZE).map(|y| (7, y)).collect();
    let mut game = Game::new(fixed_board(&wall));
    assert_eq!(game.play(0, 0), Outcome::Won { moves: 1 });
    for x in 0..BOARD_SIZE {
        for y in 0..BOARD_SIZE {
            assert!(game.board.tiles[x][y].revealed);
        }
    }
}

#[test]
fn scenario_win_in_two_moves() {
    let crabs = [(1, 0), (1, 1), (0, 1), (7, 7), (7, 6), (6, 7), (6, 6), (4, 4)];
    let mut game = Game::new(fixed_board(&crabs));
    assert_eq!(game.play(3, 0), Outcome::InProgress);
    assert!(!game.board.tiles[0][0].revealed);
    assert_eq!(game.play(0, 0), Outcome::Won { moves: 2 });
    assert!(game.board.tiles[4][4].revealed);
    assert!(game.board.tiles[7][7].revealed);
}
