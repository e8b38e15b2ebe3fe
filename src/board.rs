use vstd::prelude::*;

use crate::tile::Tile;
use crate::{BOARD_SIZE, CRAB_COUNT};
use rand::Rng;

verus! {

/// Whether `(x, y)` names a tile of the board.
pub open spec fn in_bounds(x: int, y: int) -> bool {
    0 <= x < BOARD_SIZE && 0 <= y < BOARD_SIZE
}

/// Whether `(a, b)` is one of the up to eight tiles around `(x, y)`: on the
/// board, at Chebyshev distance one.
pub open spec fn adjacent(x: int, y: int, a: int, b: int) -> bool {
    &&& in_bounds(a, b)
    &&& -1 <= a - x <= 1
    &&& -1 <= b - y <= 1
    &&& !(a == x && b == y)
}

/// What a tile shows when the board is drawn.
#[derive(Copy, Clone, Debug, PartialEq, Eq, Structural)]
pub enum Glyph {
    /// A revealed crab.
    Crab,
    /// A revealed crab-free tile, with its count.
    Count(u8),
    /// A covered tile.
    Covered,
}

/// The game board, indexed as `tiles[x][y]`.
#[derive(Copy, Clone, Debug)]
pub struct Board {
    pub tiles: [[Tile; BOARD_SIZE]; BOARD_SIZE],
}

impl Board {
    /// The tile at `(x, y)`, for coordinates on the board.
    pub open spec fn at(self, x: int, y: int) -> Tile {
        self.tiles[x][y]
    }

    /// Whether a crab hides at `(x, y)`; false off the board.
    pub open spec fn crab_at(self, x: int, y: int) -> bool {
        in_bounds(x, y) && self.at(x, y).crab
    }

    /// One for a crab at `(x, y)`, zero otherwise (also off the board).
    pub open spec fn crab_bit(self, x: int, y: int) -> nat {
        if self.crab_at(x, y) {
            1
        } else {
            0
        }
    }

    /// Number of crabs among the neighbours of `(x, y)` that lie on the board.
    pub open spec fn neighbor_crabs(self, x: int, y: int) -> nat {
        self.crab_bit(x - 1, y - 1) + self.crab_bit(x - 1, y) + self.crab_bit(x - 1, y + 1)
            + self.crab_bit(x, y - 1) + self.crab_bit(x, y + 1) + self.crab_bit(x + 1, y - 1)
            + self.crab_bit(x + 1, y) + self.crab_bit(x + 1, y + 1)
    }

    /// Crabs in column `x` among the tiles `(x, 0) .. (x, n)`.
    pub open spec fn column_crabs(self, x: int, n: int) -> nat
        decreases n,
    {
        if n <= 0 {
            0
        } else {
            self.column_crabs(x, n - 1) + self.crab_bit(x, n - 1)
        }
    }

    /// Crabs in the columns `0 .. m`.
    pub open spec fn crabs_before(self, m: int) -> nat
        decreases m,
    {
        if m <= 0 {
            0
        } else {
            self.crabs_before(m - 1) + self.column_crabs(m - 1, BOARD_SIZE as int)
        }
    }

    /// Number of crabs on the whole board.
    pub open spec fn crab_count(self) -> nat {
        self.crabs_before(BOARD_SIZE as int)
    }

    /// Whether every tile without a crab is revealed.
    pub open spec fn is_won(self) -> bool {
        forall|x: int, y: int| in_bounds(x, y) && !#[trigger] self.at(x, y).crab ==> self.at(x, y).revealed
    }

    /// Counts the tiles that hide a crab.
    pub fn count_crabs(&self) -> (r: u8)
        ensures
            r == self.crab_count(),
    {
        let mut count: u8 = 0;
        let mut x: usize = 0;
        while x < BOARD_SIZE
            invariant
                x <= BOARD_SIZE,
                count == self.crabs_before(x as int),
                count <= 8 * x,
            decreases BOARD_SIZE - x,
        {
            let mut y: usize = 0;
            while y < BOARD_SIZE
                invariant
                    x < BOARD_SIZE,
                    y <= BOARD_SIZE,
                    count == self.crabs_before(x as int) + self.column_crabs(x as int, y as int),
                    self.crabs_before(x as int) <= 8 * x,
                    count <= 8 * x + y,
                decreases BOARD_SIZE - y,
            {
                if self.tiles[x][y].crab {
                    count = count + 1;
                }
                y = y + 1;
            }
            x = x + 1;
        }
        count
    }

    /// One for a crab at `(x + dx - 1, y + dy - 1)`, zero where that is off the board.
    fn crab_bit_at(&self, x: usize, y: usize, dx: usize, dy: usize) -> (r: u8)
        requires
            x < BOARD_SIZE,
            y < BOARD_SIZE,
            dx <= 2,
            dy <= 2,
        ensures
            r == self.crab_bit(x + dx - 1, y + dy - 1),
    {
        if x + dx < 1 || y + dy < 1 || x + dx - 1 >= BOARD_SIZE || y + dy - 1 >= BOARD_SIZE {
            0
        } else if self.tiles[x + dx - 1][y + dy - 1].crab {
            1
        } else {
            0
        }
    }

    /// Number of crabs around `(x, y)`, with neighbours off the board skipped;
    /// zero for coordinates off the board.
    pub fn get_count(&self, x: usize, y: usize) -> (r: u8)
        ensures
            in_bounds(x as int, y as int) ==> r == self.neighbor_crabs(x as int, y as int),
            !in_bounds(x as int, y as int) ==> r == 0,
    {
        if x >= BOARD_SIZE || y >= BOARD_SIZE {
            return 0;
        }
        let mut count: u8 = 0;
        count = count + self.crab_bit_at(x, y, 0, 0);
        count = count + self.crab_bit_at(x, y, 0, 1);
        count = count + self.crab_bit_at(x, y, 0, 2);
        count = count + self.crab_bit_at(x, y, 1, 0);
        count = count + self.crab_bit_at(x, y, 1, 2);
        count = count + self.crab_bit_at(x, y, 2, 0);
        count = count + self.crab_bit_at(x, y, 2, 1);
        count = count + self.crab_bit_at(x, y, 2, 2);
        count
    }

    /// What the tile at `(x, y)` shows: its crab or its count once revealed,
    /// the covered mark before.
    pub fn glyph(&self, x: usize, y: usize) -> (r: Glyph)
        requires
            x < BOARD_SIZE,
            y < BOARD_SIZE,
        ensures
            r == (if !self.at(x as int, y as int).revealed {
                Glyph::Covered
            } else if self.at(x as int, y as int).crab {
                Glyph::Crab
            } else {
                Glyph::Count(self.at(x as int, y as int).count)
            }),
    {
        let tile = self.tiles[x][y];
        if tile.crab && tile.revealed {
            Glyph::Crab
        } else if tile.revealed {
            Glyph::Count(tile.count)
        } else {
            Glyph::Covered
        }
    }

    /// Whether every tile without a crab has been revealed.
    pub fn check_win(&self) -> (r: bool)
        ensures
            r == self.is_won(),
    {
        let mut x: usize = 0;
        while x < BOARD_SIZE
            invariant
                x <= BOARD_SIZE,
                forall|i: int, j: int|
                    0 <= i < x && 0 <= j < BOARD_SIZE && !#[trigger] self.at(i, j).crab
                        ==> self.at(i, j).revealed,
            decreases BOARD_SIZE - x,
        {
            let mut y: usize = 0;
            while y < BOARD_SIZE
                invariant
                    x < BOARD_SIZE,
                    y <= BOARD_SIZE,
                    forall|i: int, j: int|
                        0 <= i < x && 0 <= j < BOARD_SIZE && !#[trigger] self.at(i, j).crab
                            ==> self.at(i, j).revealed,
                    forall|j: int|
                        0 <= j < y && !#[trigger] self.at(x as int, j).crab ==> self.at(x as int, j).revealed,
                decreases BOARD_SIZE - y,
            {
                let tile = self.tiles[x][y];
                if !tile.crab && !tile.revealed {
                    assert(!self.at(x as int, y as int).crab && !self.at(x as int, y as int).revealed);
                    return false;
                }
                y = y + 1;
            }
            x = x + 1;
        }
        true
    }

    /// `after` is this board with every crab revealed and nothing else changed.
    pub open spec fn crabs_shown(self, after: Board) -> bool {
        forall|x: int, y: int|
            in_bounds(x, y) ==> #[trigger] after.at(x, y) == (Tile {
                revealed: self.at(x, y).revealed || self.at(x, y).crab,
                ..self.at(x, y)
            })
    }

    /// Reveals every tile that hides a crab and leaves the others as they are.
    pub fn reveal_crabs(&mut self)
        ensures
            old(self).crabs_shown(*final(self)),
    {
        let mut x: usize = 0;
        while x < BOARD_SIZE
            invariant
                x <= BOARD_SIZE,
                forall|i: int, j: int|
                    0 <= i < BOARD_SIZE && 0 <= j < BOARD_SIZE ==> #[trigger] self.at(i, j) == (
                    if i < x {
                        Tile { revealed: old(self).at(i, j).revealed || old(self).at(i, j).crab, ..old(self).at(i, j) }
                    } else {
                        old(self).at(i, j)
                    }),
            decreases BOARD_SIZE - x,
        {
            let mut column = self.tiles[x];
            assert forall|j: int| 0 <= j < BOARD_SIZE implies #[trigger] column[j] == old(self).at(x as int, j) by {
                assert(self.at(x as int, j) == old(self).at(x as int, j));
            }
            let mut y: usize = 0;
            while y < BOARD_SIZE
                invariant
                    x < BOARD_SIZE,
                    y <= BOARD_SIZE,
                    forall|i: int, j: int|
                        0 <= i < BOARD_SIZE && 0 <= j < BOARD_SIZE ==> #[trigger] self.at(i, j) == (
                        if i < x {
                            Tile { revealed: old(self).at(i, j).revealed || old(self).at(i, j).crab, ..old(self).at(i, j) }
                        } else {
                            old(self).at(i, j)
                        }),
                    forall|j: int|
                        0 <= j < BOARD_SIZE ==> #[trigger] column[j] == (
                        if j < y {
                            Tile { revealed: old(self).at(x as int, j).revealed || old(self).at(x as int, j).crab, ..old(self).at(x as int, j) }
                        } else {
                            old(self).at(x as int, j)
                        }),
                decreases BOARD_SIZE - y,
            {
                if column[y].crab {
                    column[y] = Tile { revealed: true, ..column[y] };
                }
                y = y + 1;
            }
            let ghost before = *self;
            self.tiles[x] = column;
            assert forall|i: int, j: int| 0 <= i < BOARD_SIZE && 0 <= j < BOARD_SIZE && i != x implies #[trigger] self.at(i, j) == before.at(i, j) by {}
            assert forall|j: int| 0 <= j < BOARD_SIZE implies #[trigger] self.at(x as int, j) == column[j] by {}
            x = x + 1;
        }
    }

    /// A board of covered tiles with no crabs and zero counts.
    pub fn new() -> (r: Board)
        ensures
            forall|x: int, y: int| in_bounds(x, y) ==> #[trigger] r.at(x, y) == (Tile { count: 0, crab: false, revealed: false }),
            r.crab_count() == 0,
    {
        let empty = Tile::empty();
        let column = [empty; BOARD_SIZE];
        let r = Board { tiles: [column; BOARD_SIZE] };
        assert forall|x: int, y: int| in_bounds(x, y) implies #[trigger] r.at(x, y) == (Tile { count: 0, crab: false, revealed: false }) by {
            assert(r.tiles[x] == column);
        }
        proof {
            lemma_no_crabs(r, BOARD_SIZE as int);
        }
        r
    }

    /// Crab-free tiles among the first `8 * x + y` tiles, taken column by column.
    pub open spec fn free_before(self, x: int, y: int) -> int {
        BOARD_SIZE * x + y - (self.crabs_before(x) + self.column_crabs(x, y))
    }

    /// `after` is this board with a crab put on the crab-free tile `(x, y)`.
    pub open spec fn with_crab_at(self, after: Board, x: int, y: int) -> bool {
        &&& in_bounds(x, y)
        &&& !self.at(x, y).crab
        &&& after.at(x, y) == (Tile { crab: true, ..self.at(x, y) })
        &&& forall|i: int, j: int| in_bounds(i, j) && !(i == x && j == y) ==> #[trigger] after.at(i, j) == self.at(i, j)
    }

    /// Puts a crab on the crab-free tile that comes `r`-th (from zero), taking
    /// the tiles column by column.
    pub fn place_crab(&mut self, r: usize)
        requires
            r < BOARD_SIZE * BOARD_SIZE - old(self).crab_count(),
        ensures
            exists|x: int, y: int|
                old(self).with_crab_at(*final(self), x, y) && #[trigger] old(self).free_before(x, y) == r,
            final(self).crab_count() == old(self).crab_count() + 1,
    {
        let mut skip: usize = r;
        let mut x: usize = 0;
        while x < BOARD_SIZE
            invariant
                x <= BOARD_SIZE,
                *self == *old(self),
                r < BOARD_SIZE * BOARD_SIZE - self.crab_count(),
                skip + self.free_before(x as int, 0) == r,
            decreases BOARD_SIZE - x,
        {
            let mut y: usize = 0;
            while y < BOARD_SIZE
                invariant
                    x < BOARD_SIZE,
                    y <= BOARD_SIZE,
                    *self == *old(self),
                    r < BOARD_SIZE * BOARD_SIZE - self.crab_count(),
                    skip + self.free_before(x as int, y as int) == r,
                decreases BOARD_SIZE - y,
            {
                if !self.tiles[x][y].crab {
                    if skip == 0 {
                        let mut column = self.tiles[x];
                        column[y] = Tile { crab: true, ..column[y] };
                        self.tiles[x] = column;
                        proof {
                            assert(old(self).with_crab_at(*self, x as int, y as int));
                            lemma_add_crab(*old(self), *self, x as int, y as int);
                        }
                        return;
                    }
                    skip = skip - 1;
                }
                y = y + 1;
            }
            assert(self.column_crabs(x as int, BOARD_SIZE as int) == self.column_crabs(x as int, y as int));
            x = x + 1;
        }
        proof {
            lemma_crabs_bounded(*self, BOARD_SIZE as int);
        }
    }

    /// Puts the count of neighbouring crabs on every tile.
    fn fill_counts(&mut self)
        ensures
            forall|x: int, y: int|
                in_bounds(x, y) ==> #[trigger] final(self).at(x, y) == (Tile {
                    count: old(self).neighbor_crabs(x, y) as u8,
                    ..old(self).at(x, y)
                }),
    {
        let mut x: usize = 0;
        while x < BOARD_SIZE
            invariant
                x <= BOARD_SIZE,
                forall|i: int, j: int|
                    in_bounds(i, j) ==> #[trigger] self.at(i, j) == (if i < x {
                        Tile { count: old(self).neighbor_crabs(i, j) as u8, ..old(self).at(i, j) }
                    } else {
                        old(self).at(i, j)
                    }),
            decreases BOARD_SIZE - x,
        {
            let mut y: usize = 0;
            while y < BOARD_SIZE
                invariant
                    x < BOARD_SIZE,
                    y <= BOARD_SIZE,
                    forall|i: int, j: int|
                        in_bounds(i, j) ==> #[trigger] self.at(i, j) == (if i < x || (i == x && j < y) {
                            Tile { count: old(self).neighbor_crabs(i, j) as u8, ..old(self).at(i, j) }
                        } else {
                            old(self).at(i, j)
                        }),
                decreases BOARD_SIZE - y,
            {
                let count = self.get_count(x, y);
                proof {
                    lemma_same_crabs_same_neighbors(*old(self), *self, x as int, y as int);
                }
                let ghost before = *self;
                assert(before.at(x as int, y as int) == old(self).at(x as int, y as int));
                let mut column = self.tiles[x];
                column[y] = Tile { count: count, ..column[y] };
                self.tiles[x] = column;
                assert forall|i: int, j: int| in_bounds(i, j) && i != x implies #[trigger] self.at(i, j) == before.at(i, j) by {}
                assert forall|j: int| 0 <= j < BOARD_SIZE && j != y implies #[trigger] self.at(x as int, j) == before.at(x as int, j) by {
                    assert(self.at(x as int, j) == column[j]);
                }
                assert(self.at(x as int, y as int) == column[y as int]);
                y = y + 1;
            }
            x = x + 1;
        }
    }

    /// Places crabs on random crab-free tiles until the board holds eight, then
    /// puts on every tile the number of crabs around it.
    pub fn init(&mut self)
        ensures
            final(self).crab_count() == if old(self).crab_count() < CRAB_COUNT {
                CRAB_COUNT as nat
            } else {
                old(self).crab_count()
            },
            forall|x: int, y: int|
                in_bounds(x, y) ==> {
                    &&& (old(self).at(x, y).crab ==> (#[trigger] final(self).at(x, y)).crab)
                    &&& final(self).at(x, y).revealed == old(self).at(x, y).revealed
                    &&& final(self).at(x, y).count == final(self).neighbor_crabs(x, y)
                },
    {
        let mut count = self.count_crabs();
        while count < CRAB_COUNT
            invariant
                count == self.crab_count(),
                count >= old(self).crab_count(),
                count <= CRAB_COUNT || count == old(self).crab_count(),
                forall|x: int, y: int|
                    in_bounds(x, y) ==> {
                        &&& (old(self).at(x, y).crab ==> (#[trigger] self.at(x, y)).crab)
                        &&& self.at(x, y).revealed == old(self).at(x, y).revealed
                    },
            decreases CRAB_COUNT - count,
        {
            let free = BOARD_SIZE * BOARD_SIZE - count as usize;
            let r = random_below(free);
            let ghost before = *self;
            self.place_crab(r);
            assert forall|x: int, y: int| in_bounds(x, y) implies {
                &&& (old(self).at(x, y).crab ==> (#[trigger] self.at(x, y)).crab)
                &&& self.at(x, y).revealed == old(self).at(x, y).revealed
            } by {
                assert(before.at(x, y).crab ==> self.at(x, y).crab);
            }
            count = self.count_crabs();
        }
        let ghost placed = *self;
        self.fill_counts();
        assert forall|x: int, y: int| in_bounds(x, y) implies #[trigger] self.neighbor_crabs(x, y) == placed.neighbor_crabs(x, y) by {
            lemma_same_crabs_same_neighbors(placed, *self, x, y);
        }
        proof {
            lemma_same_crabs_same_count(placed, *self, BOARD_SIZE as int);
        }
    }

    /// Whether `(x, y)` is a covered tile without a crab.
    pub open spec fn hidden_safe(self, x: int, y: int) -> bool {
        in_bounds(x, y) && !self.at(x, y).revealed && !self.at(x, y).crab
    }

    /// One for a covered tile at `(x, y)`, zero otherwise.
    pub open spec fn hidden_bit(self, x: int, y: int) -> nat {
        if in_bounds(x, y) && !self.at(x, y).revealed {
            1
        } else {
            0
        }
    }

    /// Covered tiles in column `x` among the tiles `(x, 0) .. (x, n)`.
    pub open spec fn column_hidden(self, x: int, n: int) -> nat
        decreases n,
    {
        if n <= 0 {
            0
        } else {
            self.column_hidden(x, n - 1) + self.hidden_bit(x, n - 1)
        }
    }

    /// Covered tiles in the columns `0 .. m`.
    pub open spec fn hidden_before(self, m: int) -> nat
        decreases m,
    {
        if m <= 0 {
            0
        } else {
            self.hidden_before(m - 1) + self.column_hidden(m - 1, BOARD_SIZE as int)
        }
    }

    /// Number of covered tiles on the whole board.
    pub open spec fn hidden_count(self) -> nat {
        self.hidden_before(BOARD_SIZE as int)
    }

    /// `after` has the same crabs and counts, and every tile revealed here is
    /// revealed there too.
    pub open spec fn reveals_only(self, after: Board) -> bool {
        forall|x: int, y: int|
            in_bounds(x, y) ==> {
                &&& (#[trigger] after.at(x, y)).crab == self.at(x, y).crab
                &&& after.at(x, y).count == self.at(x, y).count
                &&& (self.at(x, y).revealed ==> after.at(x, y).revealed)
            }
    }

    /// The tiles covered here and revealed in `after`.
    pub open spec fn opened(self, after: Board) -> Set<(int, int)> {
        Set::new(|p: (int, int)| in_bounds(p.0, p.1) && !self.at(p.0, p.1).revealed && after.at(p.0, p.1).revealed)
    }

    /// `region` is closed under a flood fill from `(x, y)`: it holds the start if
    /// that is a covered tile without a crab, and with each covered crab-free
    /// tile of count zero that it holds, each covered crab-free neighbour.
    pub open spec fn closed_from(self, x: int, y: int, region: Set<(int, int)>) -> bool {
        &&& self.hidden_safe(x, y) ==> region.contains((x, y))
        &&& forall|a: int, b: int, c: int, d: int|
            #![trigger region.contains((a, b)), adjacent(a, b, c, d)]
            region.contains((a, b)) && self.hidden_safe(a, b) && self.at(a, b).count == 0 && adjacent(a, b, c, d)
                && self.hidden_safe(c, d) ==> region.contains((c, d))
    }

    /// Every tile opened on the way to `after` lies in each region closed under
    /// a flood fill from `(x, y)`.
    pub open spec fn opened_within_closed(self, x: int, y: int, after: Board) -> bool {
        forall|g: Set<(int, int)>| #[trigger] self.closed_from(x, y, g) ==> self.opened(after).subset_of(g)
    }

    /// Around each opened crab-free tile of count zero other than `(x, y)`, every
    /// crab-free neighbour that was covered is revealed in `after`.
    pub open spec fn opened_spreads(self, x: int, y: int, after: Board) -> bool {
        forall|a: int, b: int, c: int, d: int|
            #![trigger self.opened(after).contains((a, b)), adjacent(a, b, c, d)]
            self.opened(after).contains((a, b)) && !(a == x && b == y) && self.hidden_safe(a, b)
                && self.at(a, b).count == 0 && adjacent(a, b, c, d) && self.hidden_safe(c, d)
                ==> after.at(c, d).revealed
    }

    /// `after` is this board after a flood fill from `(x, y)`: only reveals, and
    /// the tiles opened form the least region closed under the flood rule.
    pub open spec fn flood_result(self, x: int, y: int, after: Board) -> bool {
        &&& self.reveals_only(after)
        &&& self.closed_from(x, y, self.opened(after))
        &&& self.opened_within_closed(x, y, after)
    }

    /// Uncovers the tile at `(x, y)` unless it is revealed already or hides a
    /// crab; from a tile of count zero, goes on with each neighbour in turn.
    ///
    /// The tiles opened are exactly the least region closed under that rule:
    /// the region is closed, and lies inside every closed region.
    pub fn flood_fill(&mut self, x: usize, y: usize)
        requires
            x < BOARD_SIZE,
            y < BOARD_SIZE,
        ensures
            old(self).flood_result(x as int, y as int, *final(self)),
        decreases old(self).hidden_count(),
    {
        let tile = self.tiles[x][y];
        if tile.revealed || tile.crab {
            assert(self.opened(*self) =~= Set::empty());
            return;
        }
        let mut column = self.tiles[x];
        column[y] = Tile { revealed: true, ..tile };
        self.tiles[x] = column;
        assert(old(self).reveals_only(*self));
        if tile.count > 0 {
            assert(old(self).opened(*self) =~= set![(x as int, y as int)]);
            return;
        }
        proof {
            assert(old(self).opened(*self) =~= set![(x as int, y as int)]);
            lemma_hidden_count_shrinks(*old(self), *self, x as int, y as int);
        }
        let mut dx: usize = 0;
        while dx < 3
            invariant
                x < BOARD_SIZE,
                y < BOARD_SIZE,
                dx <= 3,
                old(self).hidden_safe(x as int, y as int),
                old(self).at(x as int, y as int).count == 0,
                old(self).reveals_only(*self),
                self.at(x as int, y as int).revealed,
                old(self).opened_within_closed(x as int, y as int, *self),
                old(self).opened_spreads(x as int, y as int, *self),
                forall|i: int, j: int|
                    0 <= i < dx && 0 <= j < 3 && #[trigger] old(self).hidden_safe(x + i - 1, y + j - 1)
                        ==> self.at(x + i - 1, y + j - 1).revealed,
            decreases 3 - dx,
        {
            let mut dy: usize = 0;
            while dy < 3
                invariant
                    x < BOARD_SIZE,
                    y < BOARD_SIZE,
                    dx < 3,
                    dy <= 3,
                    old(self).hidden_safe(x as int, y as int),
                    old(self).at(x as int, y as int).count == 0,
                    old(self).reveals_only(*self),
                    self.at(x as int, y as int).revealed,
                    old(self).opened_within_closed(x as int, y as int, *self),
                    old(self).opened_spreads(x as int, y as int, *self),
                    forall|i: int, j: int|
                        ((0 <= i < dx && 0 <= j < 3) || (i == dx && 0 <= j < dy))
                            && #[trigger] old(self).hidden_safe(x + i - 1, y + j - 1)
                            ==> self.at(x + i - 1, y + j - 1).revealed,
                decreases 3 - dy,
            {
                if !(dx == 1 && dy == 1) && x + dx >= 1 && y + dy >= 1 && x + dx - 1 < BOARD_SIZE
                    && y + dy - 1 < BOARD_SIZE {
                    let px = x + dx - 1;
                    let py = y + dy - 1;
                    let ghost before = *self;
                    proof {
                        lemma_hidden_count_shrinks(*old(self), before, x as int, y as int);
                    }
                    self.flood_fill(px, py);
                    proof {
                        lemma_flood_step(*old(self), before, *self, x as int, y as int, px as int, py as int);
                    }
                }
                dy = dy + 1;
            }
            dx = dx + 1;
        }
        proof {
            let o = *old(self);
            let f = *self;
            assert forall|a: int, b: int, c: int, d: int|
                #![trigger o.opened(f).contains((a, b)), adjacent(a, b, c, d)]
                o.opened(f).contains((a, b)) && o.hidden_safe(a, b) && o.at(a, b).count == 0 && adjacent(a, b, c, d)
                    && o.hidden_safe(c, d) implies o.opened(f).contains((c, d)) by {
                if a == x && b == y {
                    assert(o.hidden_safe(x + (c - x + 1) - 1, y + (d - y + 1) - 1));
                }
            }
        }
    }
}

/// Revealing a covered tile, and nothing else, lowers the number of covered tiles.
proof fn lemma_hidden_count_shrinks(b1: Board, b2: Board, x: int, y: int)
    requires
        b1.reveals_only(b2),
        in_bounds(x, y),
        !b1.at(x, y).revealed,
        b2.at(x, y).revealed,
    ensures
        b2.hidden_count() < b1.hidden_count(),
{
    lemma_hidden_before(b1, b2, BOARD_SIZE as int, x, y);
}

proof fn lemma_column_hidden(b1: Board, b2: Board, x: int, n: int, y: int)
    requires
        b1.reveals_only(b2),
        0 <= x < BOARD_SIZE,
        0 <= n <= BOARD_SIZE,
    ensures
        b2.column_hidden(x, n) <= b1.column_hidden(x, n),
        0 <= y < n && !b1.at(x, y).revealed && b2.at(x, y).revealed ==> b2.column_hidden(x, n) < b1.column_hidden(x, n),
    decreases n,
{
    if n > 0 {
        lemma_column_hidden(b1, b2, x, n - 1, y);
        assert(b2.at(x, n - 1).revealed || !b1.at(x, n - 1).revealed);
    }
}

proof fn lemma_hidden_before(b1: Board, b2: Board, m: int, x: int, y: int)
    requires
        b1.reveals_only(b2),
        0 <= m <= BOARD_SIZE,
    ensures
        b2.hidden_before(m) <= b1.hidden_before(m),
        0 <= x < m && 0 <= y < BOARD_SIZE && !b1.at(x, y).revealed && b2.at(x, y).revealed ==> b2.hidden_before(m)
            < b1.hidden_before(m),
    decreases m,
{
    if m > 0 {
        lemma_hidden_before(b1, b2, m - 1, x, y);
        lemma_column_hidden(b1, b2, m - 1, BOARD_SIZE as int, y);
    }
}

/// One step of a flood fill from `(x, y)`: a nested fill from its neighbour
/// `(p, q)`, run on `mid`, keeps what the outer fill has shown so far.
proof fn lemma_flood_step(o: Board, mid: Board, after: Board, x: int, y: int, p: int, q: int)
    requires
        o.hidden_safe(x, y),
        o.at(x, y).count == 0,
        adjacent(x, y, p, q),
        o.reveals_only(mid),
        mid.at(x, y).revealed,
        o.opened_within_closed(x, y, mid),
        o.opened_spreads(x, y, mid),
        mid.flood_result(p, q, after),
    ensures
        o.reveals_only(after),
        after.at(x, y).revealed,
        o.opened_within_closed(x, y, after),
        o.opened_spreads(x, y, after),
        o.hidden_safe(p, q) ==> after.at(p, q).revealed,
{
    assert(o.reveals_only(after));
    assert forall|g: Set<(int, int)>| #[trigger] o.closed_from(x, y, g) implies o.opened(after).subset_of(g) by {
        assert(g.contains((x, y)));
        assert(adjacent(x, y, p, q));
        assert forall|a: int, b: int, c: int, d: int|
            #![trigger g.contains((a, b)), adjacent(a, b, c, d)]
            g.contains((a, b)) && mid.hidden_safe(a, b) && mid.at(a, b).count == 0 && adjacent(a, b, c, d)
                && mid.hidden_safe(c, d) implies g.contains((c, d)) by {
            assert(o.hidden_safe(a, b) && o.hidden_safe(c, d));
        }
        assert(mid.hidden_safe(p, q) ==> o.hidden_safe(p, q));
        assert(mid.closed_from(p, q, g));
        assert(o.opened(mid).subset_of(g));
        assert forall|e: (int, int)| o.opened(after).contains(e) implies g.contains(e) by {
            if !o.opened(mid).contains(e) {
                assert(mid.opened(after).contains(e));
            }
        }
    }
    assert forall|a: int, b: int, c: int, d: int|
        #![trigger o.opened(after).contains((a, b)), adjacent(a, b, c, d)]
        o.opened(after).contains((a, b)) && !(a == x && b == y) && o.hidden_safe(a, b) && o.at(a, b).count == 0
            && adjacent(a, b, c, d) && o.hidden_safe(c, d) implies after.at(c, d).revealed by {
        if o.opened(mid).contains((a, b)) {
            assert(mid.at(c, d).revealed);
        } else {
            assert(mid.opened(after).contains((a, b)));
            assert(mid.hidden_safe(a, b));
            if mid.hidden_safe(c, d) {
                assert(mid.opened(after).contains((c, d)));
            }
        }
    }
    if o.hidden_safe(p, q) && mid.hidden_safe(p, q) {
        assert(mid.opened(after).contains((p, q)));
    }
}

/// Relies on rand's `thread_rng().gen_range(0..n)`: a number below `n`; the
/// range is never empty here.
#[verifier::external_body]
fn random_below(n: usize) -> (r: usize)
    requires
        n > 0,
    ensures
        r < n,
{
    rand::thread_rng().gen_range(0..n)
}

/// Boards with the same crabs have the same neighbour counts.
proof fn lemma_same_crabs_same_neighbors(b1: Board, b2: Board, x: int, y: int)
    requires
        forall|i: int, j: int| in_bounds(i, j) ==> (#[trigger] b2.at(i, j)).crab == b1.at(i, j).crab,
    ensures
        b2.neighbor_crabs(x, y) == b1.neighbor_crabs(x, y),
{
    assert(b2.crab_at(x - 1, y - 1) == b1.crab_at(x - 1, y - 1));
    assert(b2.crab_at(x - 1, y) == b1.crab_at(x - 1, y));
    assert(b2.crab_at(x - 1, y + 1) == b1.crab_at(x - 1, y + 1));
    assert(b2.crab_at(x, y - 1) == b1.crab_at(x, y - 1));
    assert(b2.crab_at(x, y + 1) == b1.crab_at(x, y + 1));
    assert(b2.crab_at(x + 1, y - 1) == b1.crab_at(x + 1, y - 1));
    assert(b2.crab_at(x + 1, y) == b1.crab_at(x + 1, y));
    assert(b2.crab_at(x + 1, y + 1) == b1.crab_at(x + 1, y + 1));
}

proof fn lemma_same_crabs_same_count(b1: Board, b2: Board, m: int)
    requires
        forall|i: int, j: int| in_bounds(i, j) ==> (#[trigger] b2.at(i, j)).crab == b1.at(i, j).crab,
        0 <= m <= BOARD_SIZE,
    ensures
        b2.crabs_before(m) == b1.crabs_before(m),
    decreases m,
{
    if m > 0 {
        lemma_same_crabs_same_count(b1, b2, m - 1);
        lemma_same_crabs_same_column(b1, b2, m - 1, BOARD_SIZE as int);
    }
}

proof fn lemma_same_crabs_same_column(b1: Board, b2: Board, x: int, n: int)
    requires
        forall|i: int, j: int| in_bounds(i, j) ==> (#[trigger] b2.at(i, j)).crab == b1.at(i, j).crab,
        0 <= x < BOARD_SIZE,
        0 <= n <= BOARD_SIZE,
    ensures
        b2.column_crabs(x, n) == b1.column_crabs(x, n),
    decreases n,
{
    if n > 0 {
        lemma_same_crabs_same_column(b1, b2, x, n - 1);
        assert(b2.at(x, n - 1).crab == b1.at(x, n - 1).crab);
    }
}

proof fn lemma_no_crabs(b: Board, m: int)
    requires
        forall|i: int, j: int| in_bounds(i, j) ==> !(#[trigger] b.at(i, j)).crab,
        0 <= m <= BOARD_SIZE,
    ensures
        b.crabs_before(m) == 0,
    decreases m,
{
    if m > 0 {
        lemma_no_crabs(b, m - 1);
        lemma_no_crabs_column(b, m - 1, BOARD_SIZE as int);
    }
}

proof fn lemma_no_crabs_column(b: Board, x: int, n: int)
    requires
        forall|i: int, j: int| in_bounds(i, j) ==> !(#[trigger] b.at(i, j)).crab,
        0 <= x < BOARD_SIZE,
        0 <= n <= BOARD_SIZE,
    ensures
        b.column_crabs(x, n) == 0,
    decreases n,
{
    if n > 0 {
        lemma_no_crabs_column(b, x, n - 1);
        assert(!b.at(x, n - 1).crab);
    }
}

proof fn lemma_crabs_bounded(b: Board, m: int)
    requires
        0 <= m <= BOARD_SIZE,
    ensures
        b.crabs_before(m) <= BOARD_SIZE * m,
    decreases m,
{
    if m > 0 {
        lemma_crabs_bounded(b, m - 1);
        lemma_column_crabs_bounded(b, m - 1, BOARD_SIZE as int);
    }
}

proof fn lemma_column_crabs_bounded(b: Board, x: int, n: int)
    requires
        0 <= n,
    ensures
        b.column_crabs(x, n) <= n,
    decreases n,
{
    if n > 0 {
        lemma_column_crabs_bounded(b, x, n - 1);
    }
}

/// Putting a crab on one crab-free tile raises the crab count by one.
proof fn lemma_add_crab(b1: Board, b2: Board, x: int, y: int)
    requires
        b1.with_crab_at(b2, x, y),
    ensures
        b2.crab_count() == b1.crab_count() + 1,
{
    lemma_add_crab_before(b1, b2, x, y, BOARD_SIZE as int);
}

proof fn lemma_add_crab_column(b1: Board, b2: Board, x: int, y: int, i: int, n: int)
    requires
        b1.with_crab_at(b2, x, y),
        0 <= i < BOARD_SIZE,
        0 <= n <= BOARD_SIZE,
    ensures
        b2.column_crabs(i, n) == b1.column_crabs(i, n) + if i == x && y < n { 1int } else { 0int },
    decreases n,
{
    if n > 0 {
        lemma_add_crab_column(b1, b2, x, y, i, n - 1);
        assert(b2.at(i, n - 1) == b1.at(i, n - 1) || (i == x && n - 1 == y));
    }
}

proof fn lemma_add_crab_before(b1: Board, b2: Board, x: int, y: int, m: int)
    requires
        b1.with_crab_at(b2, x, y),
        0 <= m <= BOARD_SIZE,
    ensures
        b2.crabs_before(m) == b1.crabs_before(m) + if x < m { 1int } else { 0int },
    decreases m,
{
    if m > 0 {
        lemma_add_crab_before(b1, b2, x, y, m - 1);
        lemma_add_crab_column(b1, b2, x, y, m - 1, BOARD_SIZE as int);
    }
}

/// A second flood fill from the same tile changes nothing: the board after
/// two fills is the board after one.
pub proof fn lemma_flood_fill_idempotent(b0: Board, b1: Board, b2: Board, x: int, y: int)
    requires
        in_bounds(x, y),
        b0.flood_result(x, y, b1),
        b1.flood_result(x, y, b2),
    ensures
        forall|i: int, j: int| in_bounds(i, j) ==> #[trigger] b2.at(i, j) == b1.at(i, j),
{
    if b0.hidden_safe(x, y) {
        assert(b0.opened(b1).contains((x, y)));
    }
    assert(!b1.hidden_safe(x, y));
    let nothing = Set::<(int, int)>::empty();
    assert(b1.closed_from(x, y, nothing));
    assert(b1.opened(b2).subset_of(nothing));
    assert forall|i: int, j: int| in_bounds(i, j) implies #[trigger] b2.at(i, j) == b1.at(i, j) by {
        assert(!b1.opened(b2).contains((i, j)));
    }
}

} // verus!
