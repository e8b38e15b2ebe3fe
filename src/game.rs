use vstd::prelude::*;

use crate::board::Board;
use crate::BOARD_SIZE;

verus! {

/// What a line of input asks for.
#[derive(Copy, Clone, Debug, PartialEq, Eq, Structural)]
pub enum Command {
    /// A request for a usage hint.
    Help,
    /// A guess at the tile `(x, y)`.
    Move { x: usize, y: usize },
}

/// Why a line of input is not a command.
#[derive(Copy, Clone, Debug, PartialEq, Eq, Structural)]
pub enum InputError {
    /// More than three bytes.
    TooLong,
    /// Fewer than two bytes.
    TooShort,
    /// The first byte is not a letter from `A` to `H`.
    ColumnOutOfRange(u8),
    /// The second byte is not a digit from `1` to `8`.
    RowOutOfRange(u8),
}

/// How a turn ended.
#[derive(Copy, Clone, Debug, PartialEq, Eq, Structural)]
pub enum Outcome {
    /// The game goes on.
    InProgress,
    /// Every crab-free tile is revealed, after `moves` moves.
    Won { moves: u32 },
    /// A crab was hit; `first_move` tells whether on the very first move.
    Lost { first_move: bool },
}

/// The bytes of `help`.
pub open spec fn help_word() -> Seq<u8> {
    seq![104u8, 101u8, 108u8, 112u8]
}

/// `line` with one trailing newline, if any, taken off.
pub open spec fn without_newline(line: Seq<u8>) -> Seq<u8> {
    if line.len() > 0 && line.last() == 10u8 {
        line.drop_last()
    } else {
        line
    }
}

/// The command that `line` spells, or why it spells none.
pub open spec fn command_of(line: Seq<u8>) -> Result<Command, InputError> {
    if without_newline(line) == help_word() {
        Ok(Command::Help)
    } else if line.len() > 3 {
        Err(InputError::TooLong)
    } else if line.len() < 2 {
        Err(InputError::TooShort)
    } else if !(65 <= line[0] <= 72) {
        Err(InputError::ColumnOutOfRange(line[0]))
    } else if !(49 <= line[1] <= 56) {
        Err(InputError::RowOutOfRange(line[1]))
    } else {
        Ok(Command::Move { x: (line[0] - 65) as usize, y: (line[1] - 49) as usize })
    }
}

/// Reads a line of input: `help`, or a column letter `A`..`H` then a row digit
/// `1`..`8`, in at most three bytes with the newline.
pub fn parse_command(line: &[u8]) -> (r: Result<Command, InputError>)
    ensures
        r == command_of(line@),
{
    let n = line.len();
    let mut len = n;
    if n > 0 && line[n - 1] == 10u8 {
        len = n - 1;
    }
    let is_help = len == 4 && line[0] == 104u8 && line[1] == 101u8 && line[2] == 108u8 && line[3] == 112u8;
    assert(is_help == (without_newline(line@) == help_word())) by {
        assert(without_newline(line@).len() == len);
        assert(help_word().len() == 4);
        if len == 4 {
            if is_help {
                assert(without_newline(line@) =~= help_word());
            } else {
                assert(without_newline(line@)[0] == line@[0]);
                assert(without_newline(line@)[1] == line@[1]);
                assert(without_newline(line@)[2] == line@[2]);
                assert(without_newline(line@)[3] == line@[3]);
            }
        }
    }
    if is_help {
        return Ok(Command::Help);
    }
    if n > 3 {
        return Err(InputError::TooLong);
    }
    if n < 2 {
        return Err(InputError::TooShort);
    }
    let first = line[0];
    let second = line[1];
    if first < 65 || first > 72 {
        return Err(InputError::ColumnOutOfRange(first));
    }
    if second < 49 || second > 56 {
        return Err(InputError::RowOutOfRange(second));
    }
    Ok(Command::Move { x: (first - 65) as usize, y: (second - 49) as usize })
}

/// A game in play: the board and the number of moves made so far.
#[derive(Copy, Clone, Debug)]
pub struct Game {
    pub board: Board,
    pub moves: u32,
}

impl Game {
    /// A game on `board` with no moves made.
    pub fn new(board: Board) -> (r: Game)
        ensures
            r.board == board,
            r.moves == 0,
    {
        Game { board, moves: 0 }
    }

    /// Plays a guess at `(x, y)`. On a crab every crab is shown and the game is
    /// lost; otherwise a flood fill opens the board from there, the move is
    /// counted (up to `u32::MAX`), and once every crab-free tile is revealed
    /// every crab is shown and the game is won.
    pub fn play(&mut self, x: usize, y: usize) -> (r: Outcome)
        requires
            x < BOARD_SIZE,
            y < BOARD_SIZE,
        ensures
            old(self).board.at(x as int, y as int).crab ==> {
                &&& r == (Outcome::Lost { first_move: old(self).moves == 0 })
                &&& old(self).board.crabs_shown(final(self).board)
                &&& final(self).moves == old(self).moves
            },
            !old(self).board.at(x as int, y as int).crab ==> exists|filled: Board| {
                &&& #[trigger] old(self).board.flood_result(x as int, y as int, filled)
                &&& final(self).moves == if old(self).moves < u32::MAX { old(self).moves + 1 } else { old(self).moves as int }
                &&& filled.is_won() ==> r == (Outcome::Won { moves: final(self).moves }) && filled.crabs_shown(final(self).board)
                &&& !filled.is_won() ==> r == Outcome::InProgress && final(self).board == filled
            },
    {
        if self.board.tiles[x][y].crab {
            let first_move = self.moves == 0;
            self.board.reveal_crabs();
            return Outcome::Lost { first_move };
        }
        self.board.flood_fill(x, y);
        if self.moves < u32::MAX {
            self.moves = self.moves + 1;
        }
        if self.board.check_win() {
            self.board.reveal_crabs();
            Outcome::Won { moves: self.moves }
        } else {
            Outcome::InProgress
        }
    }
}

} // verus!
