use rustsweeper::board::{Board, Glyph};
use rustsweeper::tile::Tile;
use rustsweeper::{BOARD_SIZE, CRAB_COUNT};

fn layout(crabs: &[(usize, usize)]) -> Board {
    let mut board = Board::new();
    for &(x, y) in crabs {
        board.tiles[x][y].crab = true;
    }
    for x in 0..BOARD_SIZE {
        for y in 0..BOARD_SIZE {
            board.tiles[x][y].count = board.get_count(x, y);
        }
    }
    board
}

fn revealed(board: &Board) -> Vec<(usize, usize)> {
    let mut out = Vec::new();
    for x in 0..BOARD_SIZE {
        for y in 0..BOARD_SIZE {
            if board.tiles[x][y].revealed {
                out.push((x, y));
            }
        }
    }
    out
}

#[test]
fn new_board_is_empty() {
    let board = Board::new();
    for x in 0..BOARD_SIZE {
        for y in 0..BOARD_SIZE {
            assert_eq!(board.tiles[x][y], Tile::empty());
        }
    }
    assert_eq!(board.count_crabs(), 0);
}

#[test]
fn init_places_exactly_eight_crabs() {
    for _ in 0..50 {
        let mut board = Board::new();
        board.init();
        assert_eq!(board.count_crabs(), CRAB_COUNT);
        for x in 0..BOARD_SIZE {
            for y in 0..BOARD_SIZE {
                assert_eq!(board.tiles[x][y].count, board.get_count(x, y));
                assert!(!board.tiles[x][y].revealed);
            }
        }
    }
}

#[test]
fn init_keeps_a_full_layout() {
    let crabs = [(0, 0), (1, 5), (7, 7), (3, 3), (5, 1), (6, 4), (2, 7), (4, 6)];
    let mut board = Board::new();
    for &(x, y) in &crabs {
        board.tiles[x][y].crab = true;
    }
    board.init();
    assert_eq!(board.count_crabs(), 8);
    for &(x, y) in &crabs {
        assert!(board.tiles[x][y].crab);
    }
    assert_eq!(board.tiles[1][1].count, 1);
    assert_eq!(board.tiles[5][5].count, 2);
}

#[test]
fn init_tops_up_a_partial_layout() {
    let mut board = Board::new();
    board.tiles[2][2].crab = true;
    board.tiles[6][1].crab = true;
    board.init();
    assert_eq!(board.count_crabs(), 8);
    assert!(board.tiles[2][2].crab);
    assert!(board.tiles[6][1].crab);
}

#[test]
fn place_crab_takes_the_rth_free_tile() {
    let mut board = Board::new();
    board.tiles[0][0].crab = true;
    board.tiles[0][2].crab = true;
    board.place_crab(2);
    assert!(board.tiles[0][4].crab);
    assert_eq!(board.count_crabs(), 3);
    board.place_crab(0);
    assert!(board.tiles[0][1].crab);
    assert_eq!(board.count_crabs(), 4);
}

#[test]
fn count_clips_at_corners() {
    let board = layout(&[(0, 1), (1, 0), (1, 1), (6, 6), (6, 7), (7, 6)]);
    assert_eq!(board.get_count(0, 0), 3);
    assert_eq!(board.get_count(7, 7), 3);
    assert_eq!(board.get_count(0, 7), 0);
    assert_eq!(board.get_count(7, 0), 0);
    assert_eq!(board.get_count(0, 2), 2);
}

#[test]
fn count_of_a_surrounded_tile_is_eight() {
    let ring = [(2, 2), (2, 3), (2, 4), (3, 2), (3, 4), (4, 2), (4, 3), (4, 4)];
    let board = layout(&ring);
    assert_eq!(board.get_count(3, 3), 8);
    assert_eq!(board.get_count(1, 1), 1);
    assert_eq!(board.get_count(1, 3), 3);
}

#[test]
fn count_off_the_board_is_zero() {
    let board = layout(&[(7, 7), (6, 7)]);
    assert_eq!(board.get_count(8, 7), 0);
    assert_eq!(board.get_count(7, 8), 0);
    assert_eq!(board.get_count(usize::MAX, 0), 0);
}

#[test]
fn count_crabs_counts_layout() {
    let board = layout(&[(0, 0), (7, 7), (3, 4)]);
    assert_eq!(board.count_crabs(), 3);
}

#[test]
fn win_needs_every_safe_tile() {
    let mut board = layout(&[(7, 0), (7, 1), (7, 2), (7, 3), (7, 4), (7, 5), (7, 6), (7, 7)]);
    assert!(!board.check_win());
    for x in 0..7 {
        for y in 0..BOARD_SIZE {
            board.tiles[x][y].revealed = true;
        }
    }
    assert!(board.check_win());
    board.tiles[3][5].revealed = false;
    assert!(!board.check_win());
}

#[test]
fn revealed_crabs_do_not_block_a_win() {
    let mut board = layout(&[(0, 0)]);
    for x in 0..BOARD_SIZE {
        for y in 0..BOARD_SIZE {
            board.tiles[x][y].revealed = true;
        }
    }
    assert!(board.check_win());
}

#[test]
fn flood_fill_opens_a_region_and_its_border() {
    let wall: Vec<(usize, usize)> = (0..BOARD_SIZE).map(|y| (3, y)).collect();
    let mut board = layout(&wall);
    board.flood_fill(0, 0);
    for x in 0..BOARD_SIZE {
        for y in 0..BOARD_SIZE {
            assert_eq!(board.tiles[x][y].revealed, x < 3, "tile ({x}, {y})");
        }
    }
}

#[test]
fn flood_fill_stops_at_a_numbered_tile() {
    let mut board = layout(&[(0, 0)]);
    board.flood_fill(1, 1);
    assert_eq!(revealed(&board), vec![(1, 1)]);
}

#[test]
fn flood_fill_on_a_crab_does_nothing() {
    let mut board = layout(&[(4, 4)]);
    board.flood_fill(4, 4);
    assert!(revealed(&board).is_empty());
}

#[test]
fn flood_fill_opens_all_but_a_lone_crab() {
    let mut board = layout(&[(7, 7)]);
    board.flood_fill(0, 0);
    let shown = revealed(&board);
    assert_eq!(shown.len(), 63);
    assert!(!board.tiles[7][7].revealed);
    assert!(board.check_win());
}

#[test]
fn flood_fill_keeps_walls_closed() {
    let mut board = layout(&[(2, 0), (2, 1), (2, 2), (1, 2), (0, 2), (6, 6), (6, 7), (7, 6)]);
    board.flood_fill(0, 0);
    assert_eq!(revealed(&board), vec![(0, 0), (0, 1), (1, 0), (1, 1)]);
    assert!(!board.tiles[7][7].revealed);
}

#[test]
fn flood_fill_twice_equals_once() {
    let mut once = layout(&[(2, 0), (2, 1), (2, 2), (1, 2), (0, 2), (5, 5)]);
    once.flood_fill(4, 1);
    let mut twice = once;
    twice.flood_fill(4, 1);
    assert_eq!(revealed(&once), revealed(&twice));
    assert!(!revealed(&once).is_empty());
}

#[test]
fn reveal_crabs_shows_only_crabs() {
    let crabs = [(0, 0), (3, 3), (7, 7)];
    let mut board = layout(&crabs);
    board.tiles[5][5].revealed = true;
    board.reveal_crabs();
    assert_eq!(revealed(&board), vec![(0, 0), (3, 3), (5, 5), (7, 7)]);
}

#[test]
fn glyphs_follow_tile_state() {
    let mut board = layout(&[(0, 0)]);
    assert_eq!(board.glyph(0, 0), Glyph::Covered);
    assert_eq!(board.glyph(1, 1), Glyph::Covered);
    board.tiles[1][1].revealed = true;
    board.tiles[0][0].revealed = true;
    board.tiles[5][5].revealed = true;
    assert_eq!(board.glyph(0, 0), Glyph::Crab);
    assert_eq!(board.glyph(1, 1), Glyph::Count(1));
    assert_eq!(board.glyph(5, 5), Glyph::Count(0));
}
