//! Boards written as text.
//!
//! A board is described by the tiles laid on the standard board: parts of
//! the form `row,col,letter`, separated by `;`, as in `7,5,d;7,6,o;7,7,g`.
//! Row and column are written in decimal digits, the letter is an ASCII
//! letter. The empty text describes the empty board.

use crate::board::standard_board;
use crate::board::BoardModel;
use crate::board::ScrabbleBoard;
use crate::grid::Coord;
use crate::text::copy_range;
use crate::text::digits_value;
use crate::text::is_decimal_digit;
use crate::text::is_digit;
use crate::text::parse_digits;
use crate::util::is_alpha;
use crate::util::is_letter;
use crate::util::text_bytes;
use vstd::prelude::*;

verus! {

/// Why a text describes no board.
#[derive(Clone, Copy, PartialEq, Eq, Structural, Debug)]
pub enum BoardSpecError {
    /// The part with this number, counted from 0, is not of the form
    /// `row,col,letter`.
    NotInFormat(usize),
    /// The part with this number, counted from 0, names a cell that is not
    /// on the board.
    OffBoard(usize),
}

/// The first position at or after `from` that holds the byte `b`; the
/// length of the text where there is none.
pub open spec fn find_byte(text: Seq<u8>, from: int, b: u8) -> int
    decreases text.len() - from,
{
    if 0 <= from < text.len() && text[from] != b {
        find_byte(text, from + 1, b)
    } else {
        from
    }
}

/// The parts of `text` from the position `from` on: what stands between
/// one `;` and the next, and before the first and after the last.
pub open spec fn parts_from(text: Seq<u8>, from: int) -> Seq<Seq<u8>>
    decreases text.len() - from,
{
    let end = find_byte(text, from, 59);
    if from < 0 || from > text.len() || end > text.len() || end < from {
        Seq::empty()
    } else if end == text.len() {
        seq![text.subrange(from, end)]
    } else {
        seq![text.subrange(from, end)] + parts_from(text, end + 1)
    }
}

/// The tile that a part describes: row, column and letter; nothing where
/// the part is not of the form `row,col,letter`.
pub open spec fn part_tile(part: Seq<u8>) -> Option<(nat, nat, u8)> {
    let first = find_byte(part, 0, 44);
    let second = find_byte(part, first + 1, 44);
    if first < part.len() && second < part.len() && second + 2 == part.len() && is_alpha(
        part[second + 1],
    ) {
        match (
            digits_value(part.subrange(0, first)),
            digits_value(part.subrange(first + 1, second)),
        ) {
            (Some(row), Some(col)) => Some((row, col, part[second + 1])),
            _ => None,
        }
    } else {
        None
    }
}

/// The board with the tiles of `parts` laid on `board`, one after another;
/// or the first thing that is wrong with a part.
pub open spec fn place_parts(board: BoardModel, parts: Seq<Seq<u8>>) -> Result<
    BoardModel,
    BoardSpecError,
>
    decreases parts.len(),
{
    if parts.len() == 0 {
        Ok(board)
    } else {
        match place_parts(board, parts.drop_last()) {
            Err(e) => Err(e),
            Ok(b) => match part_tile(parts.last()) {
                None => Err(BoardSpecError::NotInFormat((parts.len() - 1) as usize)),
                Some((row, col, letter)) => if b.contains(row as int, col as int) {
                    Ok(b.with_letter(row as int, col as int, letter))
                } else {
                    Err(BoardSpecError::OffBoard((parts.len() - 1) as usize))
                },
            },
        }
    }
}

/// The board that `text` describes, or the first thing that is wrong with
/// it.
pub open spec fn board_of_spec(text: Seq<u8>) -> Result<BoardModel, BoardSpecError> {
    if text.len() == 0 {
        Ok(standard_board())
    } else {
        place_parts(standard_board(), parts_from(text, 0))
    }
}

/// What is wrong with some parts is wrong with them whatever follows.
pub proof fn lemma_place_parts_error_stays(board: BoardModel, parts: Seq<Seq<u8>>, more: Seq<Seq<u8>>)
    requires
        place_parts(board, parts) is Err,
    ensures
        place_parts(board, parts + more) == place_parts(board, parts),
    decreases more.len(),
{
    if more.len() == 0 {
        assert(parts + more =~= parts);
    } else {
        lemma_place_parts_error_stays(board, parts, more.drop_last());
        assert((parts + more).drop_last() =~= parts + more.drop_last());
    }
}

/// Laying a tile on a board keeps its shape.
pub proof fn lemma_with_letter_shape(board: BoardModel, row: int, col: int, l: u8)
    requires
        board.wf(),
        board.contains(row, col),
    ensures
        board.with_letter(row, col, l).wf(),
        board.with_letter(row, col, l).nrows == board.nrows,
        board.with_letter(row, col, l).ncols == board.ncols,
{
    let after = board.with_letter(row, col, l);
    assert forall|r: int| 0 <= r < after.nrows implies (#[trigger] after.letters[r]).len()
        == after.ncols by {
        if r != row {
            assert(after.letters[r] == board.letters[r]);
        }
    }
}

/// The first position at or after `from` that holds the byte `b`, or the
/// length of the text.
pub fn position_of(text: &[u8], from: usize, b: u8) -> (at: usize)
    requires
        from <= text@.len(),
    ensures
        at == find_byte(text@, from as int, b),
        from <= at <= text@.len(),
        at < text@.len() ==> text@[at as int] == b,
{
    let mut at = from;
    while at < text.len() && text[at] != b
        invariant
            from <= at <= text@.len(),
            find_byte(text@, from as int, b) == find_byte(text@, at as int, b),
        decreases text@.len() - at,
    {
        at += 1;
    }
    at
}

/// True exactly when the bytes of `text` from `from` up to `to` are one or
/// more decimal digits.
pub fn is_number(text: &[u8], from: usize, to: usize) -> (b: bool)
    requires
        from <= to <= text@.len(),
    ensures
        b == digits_value(text@.subrange(from as int, to as int)) is Some,
{
    let ghost digits = text@.subrange(from as int, to as int);
    if from == to {
        return false;
    }
    let mut i: usize = from;
    while i < to
        invariant
            from <= i <= to <= text@.len(),
            digits == text@.subrange(from as int, to as int),
            forall|k: int| 0 <= k < i - from ==> is_digit(#[trigger] digits[k]),
        decreases to - i,
    {
        if !is_decimal_digit(text[i]) {
            assert(!is_digit(digits[i - from]));
            return false;
        }
        i += 1;
    }
    true
}

/// A tile read from a part: the letter, and the cell where row and column
/// are coordinates at all.
pub struct TileSpec {
    pub coord: Option<Coord>,
    pub letter: u8,
}

/// Reads a part of the form `row,col,letter`. The result is nothing where
/// the part is not of that form. A row or column too large for a coordinate
/// gives a tile without a cell.
pub fn read_tile(part: &[u8]) -> (r: Option<TileSpec>)
    ensures
        match part_tile(part@) {
            None => r is None,
            Some((row, col, letter)) => r matches Some(tile) && tile.letter == letter && (
            match tile.coord {
                Some(c) => c.row == row && c.col == col,
                None => row > i32::MAX || col > i32::MAX,
            }),
        },
{
    let n = part.len();
    let first = position_of(part, 0, 44);
    if first >= n {
        return None;
    }
    let second = position_of(part, first + 1, 44);
    if second >= n || n - second != 2 || !is_letter(part[second + 1]) {
        return None;
    }
    if !is_number(part, 0, first) || !is_number(part, first + 1, second) {
        return None;
    }
    let letter = part[second + 1];
    let row = parse_digits(part, 0, first, 2147483647);
    let col = parse_digits(part, first + 1, second, 2147483647);
    match (row, col) {
        (Some(r), Some(c)) => Some(
            TileSpec { coord: Some(Coord { row: r as i32, col: c as i32 }), letter },
        ),
        _ => Some(TileSpec { coord: None, letter }),
    }
}

/// The board that `board_spec` describes: the standard board with the
/// tiles of the parts laid on it, a later tile over an earlier one on the
/// same cell. The first part that is not of the form `row,col,letter`, or
/// names a cell off the board, is an error.
pub fn board_from_spec(board_spec: &str) -> (r: Result<ScrabbleBoard, BoardSpecError>)
    ensures
        match r {
            Ok(b) => b.wf() && board_of_spec(text_bytes(board_spec@)) == Ok::<
                BoardModel,
                BoardSpecError,
            >(b@),
            Err(e) => board_of_spec(text_bytes(board_spec@)) == Err::<BoardModel, BoardSpecError>(e),
        },
{
    let text = board_spec.as_bytes();
    let n = text.len();
    let mut board = ScrabbleBoard::empty_scrabble_board();
    if n == 0 {
        return Ok(board);
    }
    let ghost all = parts_from(text@, 0);
    let ghost mut done: Seq<Seq<u8>> = Seq::empty();
    let mut from: usize = 0;
    let mut index: usize = 0;
    proof {
        board.lemma_view();
        assert(done + all =~= all);
    }
    loop
        invariant_except_break
            index <= from,
            done + parts_from(text@, from as int) == all,
        invariant
            n == text@.len(),
            n > 0,
            text@ == text_bytes(board_spec@),
            all == parts_from(text@, 0),
            from <= n,
            index == done.len(),
            board.wf(),
            board@.wf(),
            board@.nrows == 15,
            board@.ncols == 15,
            place_parts(standard_board(), done) == Ok::<BoardModel, BoardSpecError>(board@),
        ensures
            board.wf(),
            place_parts(standard_board(), all) == Ok::<BoardModel, BoardSpecError>(board@),
        decreases n - from,
    {
        let end = position_of(text, from, 59);
        let part = copy_range(text, from, end);
        let ghost rest = if end == n {
            Seq::<Seq<u8>>::empty()
        } else {
            parts_from(text@, end + 1)
        };
        proof {
            assert(parts_from(text@, from as int) == seq![part@] + rest);
            assert(done.push(part@) + rest =~= all);
            assert(done.push(part@).drop_last() =~= done);
        }
        match read_tile(part.as_slice()) {
            None => {
                proof {
                    lemma_place_parts_error_stays(standard_board(), done.push(part@), rest);
                }
                return Err(BoardSpecError::NotInFormat(index));
            },
            Some(tile) => {
                let on_board = match tile.coord {
                    Some(c) => board.is_coord_in_bounds(c),
                    None => false,
                };
                if !on_board {
                    proof {
                        lemma_place_parts_error_stays(standard_board(), done.push(part@), rest);
                    }
                    return Err(BoardSpecError::OffBoard(index));
                }
                let coord = tile.coord.unwrap();
                proof {
                    lemma_with_letter_shape(board@, coord.row as int, coord.col as int, tile.letter);
                }
                board.set_letter_unchecked(coord, tile.letter);
            },
        }
        proof {
            done = done.push(part@);
        }
        index += 1;
        if end == n {
            proof {
                assert(done + Seq::<Seq<u8>>::empty() =~= done);
            }
            break;
        }
        from = end + 1;
    }
    Ok(board)
}

} // verus!
