//! The command line of the puzzle: nine tiles, each one of `0` to `8`.
use crate::board::Board;
use vstd::prelude::*;
use vstd::string::StringSliceAdditionalSpecFns;
use vstd::utf8::encode_utf8;

verus! {

/// Why a command line gives no board.
#[derive(Debug, Clone, Copy, PartialEq, Eq, Structural)]
pub enum InputError {
    /// Nothing follows the name of the program.
    NoArguments,
    /// Something follows the name of the program, but not nine arguments.
    WrongCount,
    /// The argument at this position is no number from `0` to `8`.
    InvalidArgument(usize),
    /// No tile is the blank.
    NoBlank,
}

/// The byte `b` is a decimal digit.
pub open spec fn is_digit(b: u8) -> bool {
    48 <= b <= 57
}

/// The number that the digits `bytes[from..to]` spell.
pub open spec fn digits_value(bytes: Seq<u8>, from: int, to: int) -> int
    decreases to - from,
{
    if to <= from {
        0
    } else {
        digits_value(bytes, from, to - 1) * 10 + (bytes[to - 1] - 48)
    }
}

/// Where the digits of a number begin: behind its sign, if it has one.
pub open spec fn digits_from(bytes: Seq<u8>) -> int {
    if bytes.len() > 0 && (bytes[0] == 43 || bytes[0] == 45) {
        1
    } else {
        0
    }
}

/// The tile that an argument stands for: the argument is a number in
/// decimal digits, with or without a sign before them and with any number
/// of zeros in front, and the number is one of `0` to `8`.
pub open spec fn tile_of(bytes: Seq<u8>) -> Option<i8> {
    let from = digits_from(bytes);
    let value = digits_value(bytes, from, bytes.len() as int);
    if from < bytes.len() && (forall|i: int| from <= i < bytes.len() ==> is_digit(#[trigger] bytes[i]))
        && value <= 8 && (bytes[0] == 45 ==> value == 0) {
        Some(value as i8)
    } else {
        None
    }
}

/// Digits spell no negative number, and adding a digit does not make the
/// number smaller.
pub proof fn lemma_digits_value(bytes: Seq<u8>, from: int, to: int)
    requires
        0 <= from <= to <= bytes.len(),
        forall|i: int| from <= i < to ==> is_digit(#[trigger] bytes[i]),
    ensures
        0 <= digits_value(bytes, from, to),
        from < to ==> digits_value(bytes, from, to - 1) <= digits_value(bytes, from, to),
    decreases to - from,
{
    if from < to {
        lemma_digits_value(bytes, from, to - 1);
        assert(is_digit(bytes[to - 1]));
    }
}

/// A tile is one of `0` to `8`.
pub proof fn lemma_tile_range(bytes: Seq<u8>)
    ensures
        tile_of(bytes) matches Some(tile) ==> 0 <= tile <= 8,
{
    if tile_of(bytes).is_some() {
        lemma_digits_value(bytes, digits_from(bytes), bytes.len() as int);
    }
}

/// Reads one argument as a tile.
pub fn parse_tile(arg: &str) -> (tile: Option<i8>)
    ensures
        tile == tile_of(arg.spec_bytes()),
{
    let bytes = arg.as_bytes();
    let length = bytes.len();
    let negative = length > 0 && bytes[0] == 45;
    let from: usize = if length > 0 && (bytes[0] == 43 || bytes[0] == 45) {
        1
    } else {
        0
    };
    if from >= length {
        return None;
    }
    // the value so far, or 9 for every value above 8
    let mut value: u8 = 0;
    let mut at: usize = from;
    while at < length
        invariant
            from <= at <= length,
            length == bytes@.len(),
            bytes@ == arg.spec_bytes(),
            negative == (bytes@[0] == 45),
            from == digits_from(bytes@),
            forall|i: int| from <= i < at ==> is_digit(#[trigger] bytes@[i]),
            value <= 9,
            value <= 8 ==> value == digits_value(bytes@, from as int, at as int),
            value == 9 ==> digits_value(bytes@, from as int, at as int) >= 9,
        decreases length - at,
    {
        let b = bytes[at];
        if b < 48 || b > 57 {
            assert(!is_digit(bytes@[at as int]));
            return None;
        }
        proof {
            lemma_digits_value(bytes@, from as int, at as int);
        }
        let next: u8 = value * 10 + (b - 48);
        value = if next > 8 {
            9
        } else {
            next
        };
        at = at + 1;
    }
    if value > 8 || (negative && value != 0) {
        None
    } else {
        Some(value as i8)
    }
}

/// The arguments behind the name of the program up to position `to` are
/// tiles.
pub open spec fn tiles_up_to(args: Seq<String>, to: int) -> bool {
    forall|i: int| 1 <= i < to ==> (#[trigger] tile_of(encode_utf8(args[i]@))).is_some()
}

/// Reads the command line, the name of the program first, as a board.
///
/// Nine arguments that are tiles, one of them the blank, give the board
/// with these tiles, row by row. Anything else gives the first reason in
/// the order of `InputError` that applies, and for an argument that is no
/// tile the position of the first such argument.
pub fn read_board(args: &Vec<String>) -> (board: Result<Board, InputError>)
    ensures
        match board {
            Ok(board) => {
                &&& args@.len() == 10
                &&& forall|i: int|
                    0 <= i < 9 ==> (#[trigger] tile_of(encode_utf8(args@[i + 1]@))) == Some(
                        board@[i],
                    )
                &&& board.wf()
                &&& board.in_range()
            },
            Err(InputError::NoArguments) => args@.len() == 1,
            Err(InputError::WrongCount) => args@.len() != 1 && args@.len() != 10,
            Err(InputError::InvalidArgument(at)) => {
                &&& args@.len() == 10
                &&& 1 <= at < 10
                &&& tile_of(encode_utf8(args@[at as int]@)).is_none()
                &&& tiles_up_to(args@, at as int)
            },
            Err(InputError::NoBlank) => {
                &&& args@.len() == 10
                &&& tiles_up_to(args@, 10)
                &&& forall|i: int|
                    1 <= i < 10 ==> (#[trigger] tile_of(encode_utf8(args@[i]@))) != Some(0i8)
            },
        },
{
    if args.len() == 1 {
        return Err(InputError::NoArguments);
    }
    if args.len() != 10 {
        return Err(InputError::WrongCount);
    }
    let mut tiles: [i8; 9] = [0;9];
    let mut blank = false;
    let mut index: usize = 1;
    while index < 10
        invariant
            1 <= index <= 10,
            args@.len() == 10,
            tiles_up_to(args@, index as int),
            forall|i: int|
                0 <= i < index - 1 ==> (#[trigger] tile_of(encode_utf8(args@[i + 1]@))) == Some(
                    tiles@[i],
                ),
            blank ==> exists|i: int| 0 <= i < index - 1 && tiles@[i] == 0,
            !blank ==> forall|i: int| 0 <= i < index - 1 ==> tiles@[i] != 0,
        decreases 10 - index,
    {
        match parse_tile(args[index].as_str()) {
            Some(n) => {
                let ghost before = tiles@;
                tiles[index - 1] = n;
                proof {
                    assert(tiles@ =~= before.update(index - 1, n));
                    assert(args@[(index - 1) + 1] == args@[index as int]);
                    if blank {
                        let at = choose|i: int| 0 <= i < index - 1 && before[i] == 0;
                        assert(tiles@[at] == 0);
                    }
                    if n == 0 {
                        assert(tiles@[index - 1] == 0);
                    }
                }
                if n == 0 {
                    blank = true;
                }
            },
            None => {
                return Err(InputError::InvalidArgument(index));
            },
        }
        index = index + 1;
    }
    if !blank {
        assert forall|i: int| 1 <= i < 10 implies (#[trigger] tile_of(encode_utf8(args@[i]@))) != Some(0i8) by {
            assert(args@[(i - 1) + 1] == args@[i]);
            assert(tiles@[i - 1] != 0);
        }
        return Err(InputError::NoBlank);
    }
    let board = Board::new(tiles);
    proof {
        assert forall|i: int| 0 <= i < 9 implies 0 <= #[trigger] board@[i] <= 8 by {
            assert(tile_of(encode_utf8(args@[i + 1]@)) == Some(tiles@[i]));
            lemma_tile_range(encode_utf8(args@[i + 1]@));
        }
    }
    Ok(board)
}

} // verus!
