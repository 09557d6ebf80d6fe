//! The board of the 8-puzzle: nine positions in three rows, read row by row,
//! eight tiles and one blank, which the tile `0` stands for.
use crate::text::push_signed_decimal;
use crate::text::signed_decimal;
use vstd::prelude::*;

verus! {

/// The tiles of the board that every search looks for: `1` to `8` in order,
/// then the blank.
pub open spec fn goal_tiles() -> Seq<i8> {
    seq![1i8, 2i8, 3i8, 4i8, 5i8, 6i8, 7i8, 8i8, 0i8]
}

/// The board that every search looks for.
pub fn goal() -> (board: Board)
    ensures
        board@ == goal_tiles(),
        board.wf(),
        board.in_range(),
{
    let tiles: [i8; 9] = [1, 2, 3, 4, 5, 6, 7, 8, 0];
    assert(tiles@ =~= goal_tiles());
    assert(tiles@[8] == 0);
    Board::new(tiles)
}

#[derive(Debug, Copy, Clone, Hash, Eq)]
pub struct Board {
    tiles: [i8; 9],
    zero: usize,
}

/// Where `tile` lies on the goal board.
pub open spec fn goal_position(tile: i8) -> int {
    if tile == 0 {
        8
    } else {
        tile - 1
    }
}

/// The number of moves, each to a neighbouring position in the same row or
/// column, that lead from position `a` to position `b`.
pub open spec fn distance(a: int, b: int) -> int {
    let dx = b % 3 - a % 3;
    let dy = b / 3 - a / 3;
    (if dx < 0 {
        -dx
    } else {
        dx
    }) + (if dy < 0 {
        -dy
    } else {
        dy
    })
}

/// The distances of the first `n` positions' tiles from their places on the
/// goal board, added up. The blank is no tile and adds nothing.
pub open spec fn distance_sum(tiles: Seq<i8>, n: int) -> int
    decreases n,
{
    if n <= 0 {
        0
    } else if tiles[n - 1] == 0 {
        distance_sum(tiles, n - 1)
    } else {
        distance_sum(tiles, n - 1) + distance(n - 1, goal_position(tiles[n - 1]))
    }
}

/// The tiles from position `from` on as the digits of a number to the base
/// 9, lowest digit first.
pub open spec fn digits(tiles: Seq<i8>, from: int) -> int
    decreases 9 - from,
{
    if from >= 9 {
        0
    } else {
        tiles[from] + 9 * digits(tiles, from + 1)
    }
}

/// The number of keys that the tiles from position `from` on can make.
pub open spec fn keys_from(from: int) -> int
    decreases 9 - from,
{
    if from >= 9 {
        1
    } else {
        9 * keys_from(from + 1)
    }
}

/// No more keys than there are numbers of nine digits to the base 9.
pub proof fn lemma_keys_from(from: int)
    requires
        0 <= from <= 9,
    ensures
        1 <= keys_from(from) <= 387420489,
        from > 0 ==> keys_from(from - 1) == 9 * keys_from(from),
    decreases from,
{
    assert(keys_from(9) == 1);
    assert(keys_from(8) == 9);
    assert(keys_from(7) == 81);
    assert(keys_from(6) == 729);
    assert(keys_from(5) == 6561);
    assert(keys_from(4) == 59049);
    assert(keys_from(3) == 531441);
    assert(keys_from(2) == 4782969);
    assert(keys_from(1) == 43046721);
    assert(keys_from(0) == 387420489);
}

/// Digits from `0` to `8` make a number below the number of keys.
pub proof fn lemma_digits_bound(tiles: Seq<i8>, from: int)
    requires
        tiles.len() == 9,
        0 <= from <= 9,
        forall|i: int| 0 <= i < 9 ==> 0 <= #[trigger] tiles[i] <= 8,
    ensures
        0 <= digits(tiles, from) < keys_from(from),
    decreases 9 - from,
{
    if from < 9 {
        assert(0 <= tiles[from] <= 8);
        lemma_digits_bound(tiles, from + 1);
    }
}

/// Digits from `0` to `8` that make one number are the same digits.
pub proof fn lemma_digits(a: Seq<i8>, b: Seq<i8>, from: int)
    requires
        a.len() == 9,
        b.len() == 9,
        0 <= from <= 9,
        forall|i: int| 0 <= i < 9 ==> 0 <= #[trigger] a[i] <= 8,
        forall|i: int| 0 <= i < 9 ==> 0 <= #[trigger] b[i] <= 8,
        digits(a, from) == digits(b, from),
    ensures
        forall|i: int| from <= i < 9 ==> a[i] == b[i],
    decreases 9 - from,
{
    if from < 9 {
        assert(0 <= a[from] <= 8);
        assert(0 <= b[from] <= 8);
        lemma_digits(a, b, from + 1);
    }
}

/// The first position that holds the blank.
pub open spec fn first_blank(tiles: Seq<i8>) -> int {
    choose|i: int| 0 <= i < 9 && tiles[i] == 0 && forall|j: int| 0 <= j < i ==> tiles[j] != 0
}

/// Tiles with a blank have a first blank.
pub proof fn lemma_first_blank(tiles: Seq<i8>, at: int)
    requires
        0 <= at < 9,
        tiles[at] == 0,
    ensures
        0 <= first_blank(tiles) <= at,
        tiles[first_blank(tiles)] == 0,
        forall|j: int| 0 <= j < first_blank(tiles) ==> tiles[j] != 0,
    decreases at,
{
    if exists|j: int| 0 <= j < at && tiles[j] == 0 {
        let j = choose|j: int| 0 <= j < at && tiles[j] == 0;
        lemma_first_blank(tiles, j);
    } else {
        assert(0 <= at < 9 && tiles[at] == 0 && forall|j: int| 0 <= j < at ==> tiles[j] != 0);
    }
}

/// What follows the tile at `position` in the text of a board: the end of
/// the line behind the last tile of a row, a blank behind any other.
pub open spec fn separator(position: int) -> Seq<char> {
    if position % 3 == 2 {
        seq!['\r', '\n']
    } else {
        seq![' ']
    }
}

/// The first `n` tiles as text: each tile in decimal digits, with what
/// follows it.
pub open spec fn tiles_text(tiles: Seq<i8>, n: int) -> Seq<char>
    decreases n,
{
    if n <= 0 {
        seq![]
    } else {
        tiles_text(tiles, n - 1) + signed_decimal(tiles[n - 1] as int) + separator(n - 1)
    }
}

/// The tiles after those at `a` and `b` have changed places.
pub open spec fn swapped(tiles: Seq<i8>, a: int, b: int) -> Seq<i8> {
    tiles.update(a, tiles[b]).update(b, tiles[a])
}

/// The positions that the blank at `zero` can move to, in the order in which
/// `successors` lists the boards: one to the right, one row down, one row up,
/// one to the left.
pub open spec fn moves(zero: int) -> Seq<int> {
    (if zero % 3 != 2 {
        seq![zero + 1]
    } else {
        seq![]
    }) + (if zero <= 5 {
        seq![zero + 3]
    } else {
        seq![]
    }) + (if zero >= 3 {
        seq![zero - 3]
    } else {
        seq![]
    }) + (if zero % 3 != 0 {
        seq![zero - 1]
    } else {
        seq![]
    })
}

impl View for Board {
    type V = Seq<i8>;

    /// A board is its nine tiles.
    closed spec fn view(&self) -> Seq<i8> {
        self.tiles@
    }
}

impl Board {
    /// The position of the blank.
    pub closed spec fn blank(&self) -> int {
        self.zero as int
    }

    /// The blank is where the board says it is.
    pub open spec fn wf(&self) -> bool {
        &&& self@.len() == 9
        &&& 0 <= self.blank() < 9
        &&& self@[self.blank()] == 0
        &&& forall|i: int| 0 <= i < self.blank() ==> self@[i] != 0
    }

    /// Every tile is one of `0` to `8`.
    pub open spec fn in_range(&self) -> bool {
        forall|i: int| 0 <= i < 9 ==> 0 <= #[trigger] self@[i] <= 8
    }

    /// The board on which the tiles at `pos1` and `pos2` have changed places.
    pub closed spec fn spec_swap(&self, pos1: int, pos2: int) -> Board {
        let tiles = vstd::array::spec_array_update(
            vstd::array::spec_array_update(self.tiles, pos1, self.tiles@[pos2]),
            pos2,
            self.tiles@[pos1],
        );
        Board { tiles, zero: first_blank(tiles@) as usize }
    }

    /// The boards one move away, in the order of `moves`.
    pub open spec fn spec_successors(&self) -> Seq<Board> {
        moves(self.blank()).map_values(|to: int| self.spec_swap(self.blank(), to))
    }

    /// The number that stands for the board: its tiles as the digits of a
    /// number to the base 9, the first tile the lowest digit.
    pub open spec fn spec_key(&self) -> int {
        digits(self@, 0)
    }

    /// A board with a blank is determined by its tiles.
    pub proof fn lemma_same_tiles(a: Board, b: Board)
        requires
            a.wf(),
            b.wf(),
            a@ == b@,
        ensures
            a == b,
    {
        assert(a.tiles =~= b.tiles);
        if a.zero < b.zero {
            assert(b@[a.zero as int] != 0);
        } else if b.zero < a.zero {
            assert(a@[b.zero as int] != 0);
        }
    }

    /// Boards with tiles from `0` to `8` and one key are one board.
    pub proof fn lemma_key_injective(a: Board, b: Board)
        requires
            a.wf(),
            b.wf(),
            a.in_range(),
            b.in_range(),
            a.spec_key() == b.spec_key(),
        ensures
            a == b,
    {
        lemma_digits(a@, b@, 0);
        assert(a@ =~= b@);
        Self::lemma_same_tiles(a, b);
    }

    /// The key of a board with tiles from `0` to `8` has at most nine digits
    /// to the base 9.
    pub proof fn lemma_key_bound(&self)
        requires
            self@.len() == 9,
            self.in_range(),
        ensures
            0 <= self.spec_key() < 387420489,
    {
        lemma_digits_bound(self@, 0);
        lemma_keys_from(0);
    }

    /// What `spec_swap` gives on a board with a blank: a board with a blank,
    /// on which two tiles have changed places and no tile is new.
    pub proof fn lemma_spec_swap(&self, pos1: int, pos2: int)
        requires
            0 <= pos1 < 9,
            0 <= pos2 < 9,
            exists|i: int| 0 <= i < 9 && self@[i] == 0,
        ensures
            self.spec_swap(pos1, pos2)@ == swapped(self@, pos1, pos2),
            self.spec_swap(pos1, pos2).wf(),
            self.in_range() ==> self.spec_swap(pos1, pos2).in_range(),
    {
        broadcast use vstd::array::axiom_spec_array_update;

        let result = self.spec_swap(pos1, pos2);
        assert(result@ =~= swapped(self@, pos1, pos2));
        let at = choose|i: int| 0 <= i < 9 && self@[i] == 0;
        let to = if at == pos1 {
            pos2
        } else if at == pos2 {
            pos1
        } else {
            at
        };
        assert(result@[to] == 0);
        lemma_first_blank(result@, to);
        if self.in_range() {
            assert forall|i: int| 0 <= i < 9 implies 0 <= #[trigger] result@[i] <= 8 by {
                assert(0 <= self@[pos1] <= 8);
                assert(0 <= self@[pos2] <= 8);
                assert(0 <= self@[i] <= 8);
            }
        }
    }

    /// Every successor of a board with a blank is a board with a blank, and
    /// has tiles from `0` to `8` where the board has.
    pub proof fn lemma_successor(&self, i: int)
        requires
            self.wf(),
            0 <= i < self.spec_successors().len(),
        ensures
            self.spec_successors()[i].wf(),
            self.in_range() ==> self.spec_successors()[i].in_range(),
    {
        let to = moves(self.blank())[i];
        assert(self@[self.blank()] == 0);
        self.lemma_spec_swap(self.blank(), to);
    }

    pub fn new(tiles: [i8; 9]) -> (board: Board)
        requires
            exists|i: int| 0 <= i < 9 && tiles@[i] == 0,
        ensures
            board@ == tiles@,
            board.wf(),
    {
        Board { tiles, zero: find_zero(tiles) }
    }

    /// The board as text: three lines of three tiles.
    pub fn to_text(&self) -> (text: String)
        ensures
            text@ == tiles_text(self@, 9),
    {
        let mut board_str = String::new();
        let mut index: usize = 0;
        while index < 9
            invariant
                index <= 9,
                board_str@ == tiles_text(self@, index as int),
            decreases 9 - index,
        {
            let ghost before = board_str@;
            push_signed_decimal(&mut board_str, self.tiles[index] as i64);
            if index % 3 == 2 {
                board_str.push_str("\r\n");
                proof {
                    reveal_strlit("\r\n");
                    assert("\r\n"@ =~= separator(index as int));
                }
            } else {
                board_str.push_str(" ");
                proof {
                    reveal_strlit(" ");
                    assert(" "@ =~= separator(index as int));
                }
            }
            assert(board_str@ =~= before + signed_decimal(self@[index as int] as int) + separator(
                index as int,
            ));
            index = index + 1;
        }
        board_str
    }

    /// The key of the board.
    pub fn key(&self) -> (key: u64)
        requires
            self.in_range(),
        ensures
            key == self.spec_key(),
    {
        let mut key: u64 = 0;
        let mut index: usize = 9;
        while index > 0
            invariant
                index <= 9,
                self.in_range(),
                key == digits(self@, index as int),
                key < keys_from(index as int),
            decreases index,
        {
            proof {
                lemma_keys_from(index as int);
            }
            index = index - 1;
            assert(0 <= self@[index as int] <= 8);
            key = key * 9 + self.tiles[index] as u64;
        }
        key
    }

    /// The tiles, row by row.
    pub fn tiles(&self) -> (tiles: [i8; 9])
        ensures
            tiles@ == self@,
    {
        self.tiles
    }

    /// The position of the blank.
    pub fn zero(&self) -> (zero: usize)
        ensures
            zero == self.blank(),
    {
        self.zero
    }

    pub fn is_goal(&self) -> (goal: bool)
        ensures
            goal == (self@ == goal_tiles()),
    {
        *self == goal()
    }

    /// The board on which the tiles at `pos1` and `pos2` have changed places.
    pub fn swap(&self, pos1: usize, pos2: usize) -> (board: Board)
        requires
            pos1 < 9,
            pos2 < 9,
            exists|i: int| 0 <= i < 9 && self@[i] == 0,
        ensures
            board@ == swapped(self@, pos1 as int, pos2 as int),
            board.wf(),
            board == self.spec_swap(pos1 as int, pos2 as int),
    {
        let ghost at = choose|i: int| 0 <= i < 9 && self@[i] == 0;
        proof {
            self.lemma_spec_swap(pos1 as int, pos2 as int);
        }
        if pos1 == pos2 {
            assert(swapped(self@, pos1 as int, pos2 as int) =~= self@);
            let board = Board::new(self.tiles);
            proof {
                Self::lemma_same_tiles(board, self.spec_swap(pos1 as int, pos2 as int));
            }
            board
        } else {
            let mut swapped = self.tiles;
            let temp = swapped[pos1];
            swapped[pos1] = swapped[pos2];
            swapped[pos2] = temp;
            proof {
                let to = if at == pos1 {
                    pos2 as int
                } else if at == pos2 {
                    pos1 as int
                } else {
                    at
                };
                assert(swapped@[to] == 0);
                assert(swapped@ =~= self::swapped(self@, pos1 as int, pos2 as int));
            }
            let board = Board::new(swapped);
            proof {
                Self::lemma_same_tiles(board, self.spec_swap(pos1 as int, pos2 as int));
            }
            board
        }
    }

    /// Returns the successors of the current board configuration.
    pub fn successors(&self) -> (successors: Vec<Board>)
        requires
            self.wf(),
        ensures
            successors@ == self.spec_successors(),
    {
        let mut successors = Vec::with_capacity(self.successor_count());
        let ghost zero = self.blank();
        let ghost mut done: Seq<int> = seq![];
        //right
        if self.zero % 3 != 2 {
            successors.push(self.swap(self.zero, self.zero + 1));
            proof {
                done = done + seq![zero + 1];
            }
        }
        assert(done =~= (if zero % 3 != 2 {
            seq![zero + 1]
        } else {
            seq![]
        }));
        //down
        if self.zero <= 5 {
            successors.push(self.swap(self.zero, self.zero + 3));
            proof {
                done = done + seq![zero + 3];
            }
        }
        //up
        if self.zero >= 3 {
            successors.push(self.swap(self.zero, self.zero - 3));
            proof {
                done = done + seq![zero - 3];
            }
        }
        //left
        if self.zero % 3 != 0 {
            successors.push(self.swap(self.zero, self.zero - 1));
            proof {
                done = done + seq![zero - 1];
            }
        }
        assert(done =~= moves(zero));
        assert(successors@.len() == done.len());
        assert(forall|i: int|
            0 <= i < successors@.len() ==> (#[trigger] successors@[i]) == self.spec_swap(
                zero,
                done[i],
            ));
        assert(successors@ =~= self.spec_successors());
        successors
    }

    /// Returns how many successors this board configuration should have
    /// Position 4 has 4 places to move, odd positions have 3 places, and the rest have 2
    pub fn successor_count(&self) -> (count: usize)
        ensures
            count == (if self.blank() == 4 {
                4int
            } else if self.blank() % 2 == 1 {
                3int
            } else {
                2int
            }),
            0 <= self.blank() < 9 ==> count == moves(self.blank()).len(),
    {
        match self.zero {
            4 => 4,
            n => if n % 2 == 1 {
                3
            } else {
                2
            },
        }
    }

    /// Calculates the manhattan distance from GOAL
    pub fn manhattan_dist(&self) -> (distance: i32)
        requires
            self.in_range(),
        ensures
            distance == distance_sum(self@, 9),
    {
        let mut distance: i32 = 0;
        let mut index: usize = 0;
        while index < 9
            invariant
                index <= 9,
                self.in_range(),
                distance == distance_sum(self@, index as int),
                0 <= distance <= 4 * index,
            decreases 9 - index,
        {
            let tile = self.tiles[index];
            assert(0 <= self@[index as int] <= 8);
            if tile != 0 {
                let goal_tile_pos: usize = (tile - 1) as usize;
                let step = manhattan_dist_positions(index, goal_tile_pos);
                distance = distance + step;
            }
            index = index + 1;
        }
        distance
    }
}

impl PartialEq for Board {
    /// Two boards are equal when their tiles are.
    fn eq(&self, other: &Self) -> (equal: bool) {
        let mut index: usize = 0;
        while index < 9
            invariant
                index <= 9,
                forall|i: int| 0 <= i < index ==> self.tiles@[i] == other.tiles@[i],
            decreases 9 - index,
        {
            if self.tiles[index] != other.tiles[index] {
                return false;
            }
            index = index + 1;
        }
        assert(self.tiles@ =~= other.tiles@);
        true
    }
}

impl vstd::std_specs::cmp::PartialEqSpecImpl for Board {
    open spec fn obeys_eq_spec() -> bool {
        true
    }

    open spec fn eq_spec(&self, other: &Board) -> bool {
        self@ == other@
    }
}

/// The position of the first blank among the tiles.
pub fn find_zero(tiles: [i8; 9]) -> (zero: usize)
    requires
        exists|i: int| 0 <= i < 9 && tiles@[i] == 0,
    ensures
        zero < 9,
        tiles@[zero as int] == 0,
        forall|i: int| 0 <= i < zero ==> tiles@[i] != 0,
{
    let mut index: usize = 0;
    while index < 9
        invariant
            index <= 9,
            forall|i: int| 0 <= i < index ==> tiles@[i] != 0,
            exists|i: int| 0 <= i < 9 && tiles@[i] == 0,
        decreases 9 - index,
    {
        if tiles[index] == 0 {
            return index;
        }
        index = index + 1;
    }
    proof {
        let at = choose|i: int| 0 <= i < 9 && tiles@[i] == 0;
        assert(tiles@[at] != 0);
    }
    index
}

/// The distance between two positions: columns and rows apart, added up.
pub fn manhattan_dist_positions(pos1: usize, pos2: usize) -> (steps: i32)
    requires
        pos1 / 3 <= i32::MAX - 2,
        pos2 / 3 <= i32::MAX - 2,
    ensures
        steps == distance(pos1 as int, pos2 as int),
{
    if pos1 == pos2 {
        0
    } else {
        let (x_pos1, y_pos1) = to_coordinates(pos1);
        let (x_pos2, y_pos2) = to_coordinates(pos2);
        let dx: i32 = x_pos2 - x_pos1;
        let dy: i32 = y_pos2 - y_pos1;
        (if dx < 0 {
            -dx
        } else {
            dx
        }) + (if dy < 0 {
            -dy
        } else {
            dy
        })
    }
}

/// Column and row of a position.
pub fn to_coordinates(pos: usize) -> (at: (i32, i32))
    requires
        pos / 3 <= i32::MAX,
    ensures
        at.0 == pos % 3,
        at.1 == pos / 3,
{
    ((pos % 3) as i32, (pos / 3) as i32)
}

} // verus!
