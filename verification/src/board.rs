//! The board: a grid of score modifiers and a grid of placed tiles.
//!
//! Everything that the solver decides is stated over [`BoardModel`], the
//! mathematical picture of a board: its shape and, row by row, what each cell
//! holds. [`ScrabbleBoard`] is the executable board with that view.

use crate::dictionary::DictionaryTrie;
use crate::grid::col_along;
use crate::grid::row_along;
use crate::grid::Coord;
use crate::grid::Grid;
use crate::scoring::crossing_score;
use crate::scoring::is_modifier_char;
use crate::scoring::lemma_crossing_score_bound;
use crate::scoring::lemma_letter_score_bounds;
use crate::scoring::lemma_letters_score_bound;
use crate::scoring::letter_score;
use crate::scoring::letters_score;
use crate::scoring::modifier_of_char;
use crate::scoring::scrabble_letter_score;
use crate::scoring::scrabble_letters_score_utf8;
use crate::scoring::Modifier;
use crate::util::all_alpha;
use crate::util::alpha_indices;
use crate::util::is_alpha;
use crate::util::push_char;
use crate::util::text_bytes;
use crate::util::Direction;
use crate::util::Letter;
use vstd::prelude::*;

verus! {

/// What a look at the tiles around a newly laid tile finds.
#[derive(Clone, Copy, PartialEq, Eq, Structural, Debug)]
pub enum WordAroundValidation {
    /// The tiles in line with the new one, together with it, spell no word.
    InvalidWord,
    /// No tile touches the new one along the line.
    NothingAround,
    /// The tiles in line with the new one spell a word with this score.
    ValidWordScore(u32),
}

/// The mathematical picture of a board.
pub struct BoardModel {
    pub nrows: nat,
    pub ncols: nat,
    /// For each row, the tile on each of its cells.
    pub letters: Seq<Seq<Option<Letter>>>,
    /// For each row, the modifier of each of its cells.
    pub modifiers: Seq<Seq<Option<Modifier>>>,
}

impl BoardModel {
    /// Both grids have the shape that the board claims.
    pub open spec fn wf(self) -> bool {
        &&& self.letters.len() == self.nrows
        &&& self.modifiers.len() == self.nrows
        &&& forall|r: int| 0 <= r < self.nrows ==> (#[trigger] self.letters[r]).len() == self.ncols
        &&& forall|r: int|
            0 <= r < self.nrows ==> (#[trigger] self.modifiers[r]).len() == self.ncols
    }

    /// Whether `row`, `col` names a cell of the board.
    pub open spec fn contains(self, row: int, col: int) -> bool {
        0 <= row < self.nrows && 0 <= col < self.ncols
    }

    /// The tile on the cell at `row`, `col`; nothing for an empty cell and
    /// for a position off the board.
    pub open spec fn letter_at(self, row: int, col: int) -> Option<Letter> {
        if self.contains(row, col) {
            self.letters[row][col]
        } else {
            None
        }
    }

    /// The modifier of the cell at `row`, `col`.
    pub open spec fn modifier_at(self, row: int, col: int) -> Option<Modifier> {
        if self.contains(row, col) {
            self.modifiers[row][col]
        } else {
            None
        }
    }

    /// Whether the cell at `row`, `col` is on the board and holds a tile.
    pub open spec fn occupied(self, row: int, col: int) -> bool {
        self.letter_at(row, col) is Some
    }

    /// Whether `row`, `col` is the centre of the board.
    pub open spec fn is_center(self, row: int, col: int) -> bool {
        row == (self.nrows as int) / 2 && col == (self.ncols as int) / 2
    }

    /// Whether every tile on the board is an ASCII letter.
    pub open spec fn letters_alphabetic(self) -> bool {
        forall|row: int, col: int|
            self.contains(row, col) && (#[trigger] self.letter_at(row, col)) is Some ==> is_alpha(
                self.letter_at(row, col)->0,
            )
    }

    /// The longer of the board's two sides.
    pub open spec fn max_dim(self) -> nat {
        if self.nrows >= self.ncols {
            self.nrows
        } else {
            self.ncols
        }
    }

    /// Whether `len` cells from `coord` on along `d` all lie on the board.
    pub open spec fn line_fits(self, coord: Coord, d: Direction, len: int) -> bool {
        forall|k: int|
            0 <= k < len ==> self.contains(
                #[trigger] row_along(coord.row as int, d, k),
                col_along(coord.col as int, d, k),
            )
    }

    /// The board with the tile `l` on the cell at `row`, `col`.
    pub open spec fn with_letter(self, row: int, col: int, l: Letter) -> BoardModel {
        BoardModel { letters: self.letters.update(row, self.letters[row].update(col, Some(l))), ..self }
    }

    /// The board with the tiles of `word` laid from `row`, `col` on along `d`.
    pub open spec fn with_word(self, row: int, col: int, d: Direction, word: Seq<Letter>) -> BoardModel
        decreases word.len(),
    {
        if word.len() == 0 {
            self
        } else {
            self.with_word(row, col, d, word.drop_last()).with_letter(
                row_along(row, d, word.len() - 1),
                col_along(col, d, word.len() - 1),
                word.last(),
            )
        }
    }

    /// How many tiles lie in an unbroken run right before `row`, `col`
    /// along `d`.
    pub open spec fn run_back(self, row: int, col: int, d: Direction) -> nat
        decreases row + col,
    {
        if row >= 0 && col >= 0 && self.occupied(row_along(row, d, -1), col_along(col, d, -1)) {
            1 + self.run_back(row_along(row, d, -1), col_along(col, d, -1), d)
        } else {
            0
        }
    }

    /// How many tiles lie in an unbroken run right after `row`, `col`
    /// along `d`.
    pub open spec fn run_fwd(self, row: int, col: int, d: Direction) -> nat
        decreases self.nrows + self.ncols - row - col,
    {
        if row <= self.nrows && col <= self.ncols && self.occupied(
            row_along(row, d, 1),
            col_along(col, d, 1),
        ) {
            1 + self.run_fwd(row_along(row, d, 1), col_along(col, d, 1), d)
        } else {
            0
        }
    }

    /// The word that the tile `l` forms along `d` when it is laid at `row`,
    /// `col`: the run of tiles right before it, the tile, and the run of
    /// tiles right after it.
    pub open spec fn cross_word(self, row: int, col: int, d: Direction, l: Letter) -> Seq<Letter> {
        let before = self.run_back(row, col, d) as int;
        let after = self.run_fwd(row, col, d) as int;
        Seq::new(
            (before + 1 + after) as nat,
            |i: int|
                if i == before {
                    l
                } else {
                    self.letter_at(row_along(row, d, i - before), col_along(col, d, i - before))->0
                },
        )
    }

    /// What a look along `d` finds when the tile `l` is laid at `row`,
    /// `col`: nothing where no tile touches it; else whether the word formed
    /// is one of `words`, and its score where it is.
    pub open spec fn cross_check(
        self,
        words: Set<Seq<u8>>,
        row: int,
        col: int,
        d: Direction,
        l: Letter,
    ) -> WordAroundValidation {
        let word = self.cross_word(row, col, d, l);
        if word.len() == 1 {
            WordAroundValidation::NothingAround
        } else if words.contains(alpha_indices(word)) {
            WordAroundValidation::ValidWordScore(
                crossing_score(self.modifier_at(row, col), letters_score(word), l) as u32,
            )
        } else {
            WordAroundValidation::InvalidWord
        }
    }

    /// The characters that show the row `row`, cell by cell.
    pub open spec fn row_symbols(self, row: int) -> Seq<char> {
        Seq::new(
            self.ncols,
            |col: int| cell_symbol(self.letter_at(row, col), self.modifier_at(row, col)),
        )
    }

    /// A run of tiles before a cell ends at the edge of the board at the latest.
    pub proof fn lemma_run_back_bound(self, row: int, col: int, d: Direction)
        requires
            row >= 0,
            col >= 0,
        ensures
            self.run_back(row, col, d) <= match d {
                Direction::Right => col,
                Direction::Down => row,
            },
        decreases row + col,
    {
        if self.occupied(row_along(row, d, -1), col_along(col, d, -1)) {
            self.lemma_run_back_bound(row_along(row, d, -1), col_along(col, d, -1), d);
        }
    }

    /// A run of tiles after a cell ends at the edge of the board at the latest.
    pub proof fn lemma_run_fwd_bound(self, row: int, col: int, d: Direction)
        requires
            row < self.nrows,
            col < self.ncols,
        ensures
            self.run_fwd(row, col, d) <= match d {
                Direction::Right => self.ncols - 1 - col,
                Direction::Down => self.nrows - 1 - row,
            },
        decreases self.nrows + self.ncols - row - col,
    {
        if self.occupied(row_along(row, d, 1), col_along(col, d, 1)) {
            self.lemma_run_fwd_bound(row_along(row, d, 1), col_along(col, d, 1), d);
        }
    }

    /// Every cell of a run before a cell holds a tile.
    pub proof fn lemma_run_back_occupied(self, row: int, col: int, d: Direction, k: int)
        requires
            1 <= k <= self.run_back(row, col, d),
        ensures
            self.occupied(row_along(row, d, -k), col_along(col, d, -k)),
        decreases k,
    {
        if k > 1 {
            self.lemma_run_back_occupied(row_along(row, d, -1), col_along(col, d, -1), d, k - 1);
            assert(row_along(row_along(row, d, -1), d, -(k - 1)) == row_along(row, d, -k));
            assert(col_along(col_along(col, d, -1), d, -(k - 1)) == col_along(col, d, -k));
        }
    }

    /// Every cell of a run after a cell holds a tile.
    pub proof fn lemma_run_fwd_occupied(self, row: int, col: int, d: Direction, k: int)
        requires
            1 <= k <= self.run_fwd(row, col, d),
        ensures
            self.occupied(row_along(row, d, k), col_along(col, d, k)),
        decreases k,
    {
        if k > 1 {
            self.lemma_run_fwd_occupied(row_along(row, d, 1), col_along(col, d, 1), d, k - 1);
            assert(row_along(row_along(row, d, 1), d, k - 1) == row_along(row, d, k));
            assert(col_along(col_along(col, d, 1), d, k - 1) == col_along(col, d, k));
        }
    }

    /// The word formed around a tile fits on the board, consists of letters
    /// where the board's tiles and the new tile are letters, and scores no
    /// more than thirty points per cell of the board's longer side.
    pub proof fn lemma_cross_word(self, row: int, col: int, d: Direction, l: Letter)
        requires
            self.contains(row, col),
        ensures
            1 <= self.cross_word(row, col, d, l).len() <= self.max_dim(),
            self.letters_alphabetic() && is_alpha(l) ==> all_alpha(self.cross_word(row, col, d, l)),
            crossing_score(
                self.modifier_at(row, col),
                letters_score(self.cross_word(row, col, d, l)),
                l,
            ) <= 30 * self.max_dim(),
    {
        let word = self.cross_word(row, col, d, l);
        let before = self.run_back(row, col, d) as int;
        self.lemma_run_back_bound(row, col, d);
        self.lemma_run_fwd_bound(row, col, d);
        if self.letters_alphabetic() && is_alpha(l) {
            assert forall|i: int| 0 <= i < word.len() implies is_alpha(#[trigger] word[i]) by {
                if i < before {
                    self.lemma_run_back_occupied(row, col, d, before - i);
                } else if i > before {
                    self.lemma_run_fwd_occupied(row, col, d, i - before);
                }
            }
        }
        lemma_letters_score_bound(word);
        lemma_letters_score_has(word, before);
        lemma_crossing_score_bound(self.modifier_at(row, col), letters_score(word), l);
    }
}

/// A word scores at least as much as any one of its tiles.
pub proof fn lemma_letters_score_has(w: Seq<Letter>, i: int)
    requires
        0 <= i < w.len(),
    ensures
        letter_score(w[i]) <= letters_score(w),
    decreases w.len(),
{
    if i < w.len() - 1 {
        lemma_letters_score_has(w.drop_last(), i);
    }
}

/// The character that shows a cell: the tile on it; else a digit for a
/// letter modifier and a circled digit for a word modifier; else a space.
pub open spec fn cell_symbol(letter: Option<Letter>, modifier: Option<Modifier>) -> char {
    match letter {
        Some(l) => l as char,
        None => match modifier {
            Some(Modifier::DoubleLetter) => '2',
            Some(Modifier::TripleLetter) => '3',
            Some(Modifier::DoubleWord) => '\u{2461}',
            Some(Modifier::TripleWord) => '\u{2462}',
            None => ' ',
        },
    }
}

/// The layout of the standard board of 15 by 15 cells, row by row: `d` and
/// `t` double and triple a letter, `D` and `T` a word.
pub open spec fn standard_layout() -> Seq<Seq<char>> {
    seq![
        "T  d   T   d  T"@,
        " D   t   t   D "@,
        "  D   d d   D  "@,
        "d  D   d   D  d"@,
        "    D     D    "@,
        " t   t   t   t "@,
        "  d   d d   d  "@,
        "T  d   D   d  T"@,
        "  d   d d   d  "@,
        " t   t   t   t "@,
        "    D     D    "@,
        "d  D   d   D  d"@,
        "  D   d d   D  "@,
        " D   t   t   D "@,
        "T  d   T   d  T"@,
    ]
}

/// The modifiers that a row of a layout stands for.
pub open spec fn row_modifiers(line: Seq<char>) -> Seq<Option<Modifier>> {
    Seq::new(line.len(), |c: int| modifier_of_char(line[c]))
}

/// Whether every character of `line` is one of the five of a layout.
pub open spec fn is_layout_row(line: Seq<char>) -> bool {
    forall|i: int| 0 <= i < line.len() ==> is_modifier_char(#[trigger] line[i])
}

/// The texts of a list of lines.
pub open spec fn line_texts(lines: Seq<String>) -> Seq<Seq<char>> {
    Seq::new(lines.len(), |i: int| lines[i]@)
}

/// Whether `layout` lays out a board: one row or more, all of one length,
/// made of the five characters of a layout, and neither side longer than a
/// coordinate can count.
pub open spec fn is_layout(layout: Seq<Seq<char>>) -> bool {
    &&& 0 < layout.len() <= i32::MAX
    &&& layout[0].len() <= i32::MAX
    &&& forall|r: int|
        0 <= r < layout.len() ==> is_layout_row(#[trigger] layout[r]) && layout[r].len()
            == layout[0].len()
}

/// The empty board that `layout` lays out.
pub open spec fn layout_board(layout: Seq<Seq<char>>) -> BoardModel {
    BoardModel {
        nrows: layout.len(),
        ncols: layout[0].len(),
        letters: Seq::new(layout.len(), |r: int| Seq::new(layout[0].len(), |c: int| None)),
        modifiers: Seq::new(layout.len(), |r: int| row_modifiers(layout[r])),
    }
}

/// The empty standard board.
pub open spec fn standard_board() -> BoardModel {
    BoardModel {
        nrows: 15,
        ncols: 15,
        letters: Seq::new(15, |r: int| Seq::new(15, |c: int| None)),
        modifiers: Seq::new(15, |r: int| row_modifiers(standard_layout()[r])),
    }
}

/// Reads one row of a board layout.
pub fn modifier_row(line: &str) -> (row: Vec<Option<Modifier>>)
    requires
        is_layout_row(line@),
    ensures
        row@ == row_modifiers(line@),
{
    let n = line.unicode_len();
    let mut row: Vec<Option<Modifier>> = Vec::new();
    let mut i: usize = 0;
    while i < n
        invariant
            n == line@.len(),
            i <= n,
            is_layout_row(line@),
            row@.len() == i,
            forall|k: int| 0 <= k < i ==> #[trigger] row@[k] == modifier_of_char(line@[k]),
        decreases n - i,
    {
        row.push(Modifier::from_char_spec(line.get_char(i)));
        i += 1;
    }
    assert(row@ =~= row_modifiers(line@));
    row
}

/// True exactly when every character of `line` is one of the five of a
/// board layout.
pub fn is_modifier_row(line: &str) -> (b: bool)
    ensures
        b == is_layout_row(line@),
{
    let n = line.unicode_len();
    let mut i: usize = 0;
    while i < n
        invariant
            n == line@.len(),
            i <= n,
            forall|k: int| 0 <= k < i ==> is_modifier_char(#[trigger] line@[k]),
        decreases n - i,
    {
        if !Modifier::is_char_spec(line.get_char(i)) {
            return false;
        }
        i += 1;
    }
    true
}

/// A board: the modifiers of its cells, fixed when it is made, and the tiles
/// laid on it so far.
pub struct ScrabbleBoard {
    modifiers: Grid<Option<Modifier>>,
    letters: Grid<Option<Letter>>,
}

impl View for ScrabbleBoard {
    type V = BoardModel;

    closed spec fn view(&self) -> BoardModel {
        BoardModel {
            nrows: self.letters.spec_nrows(),
            ncols: self.letters.spec_ncols(),
            letters: self.letters@,
            modifiers: self.modifiers@,
        }
    }
}

impl Clone for ScrabbleBoard {
    fn clone(&self) -> (r: Self)
        ensures
            r@ == self@,
            r.wf() == self.wf(),
    {
        ScrabbleBoard { modifiers: self.modifiers.duplicate(), letters: self.letters.duplicate() }
    }
}

impl ScrabbleBoard {
    /// Both grids have one shape, and every cell has a coordinate.
    pub closed spec fn wf(&self) -> bool {
        &&& self.modifiers.wf()
        &&& self.letters.wf()
        &&& self.modifiers.spec_nrows() == self.letters.spec_nrows()
        &&& self.modifiers.spec_ncols() == self.letters.spec_ncols()
        &&& self.letters.spec_nrows() <= i32::MAX
        &&& self.letters.spec_ncols() <= i32::MAX
    }

    /// What a well-formed board's view looks like.
    pub proof fn lemma_view(&self)
        requires
            self.wf(),
        ensures
            self@.wf(),
            self@.nrows <= i32::MAX,
            self@.ncols <= i32::MAX,
    {
        self.letters.lemma_view();
        self.modifiers.lemma_view();
    }

    /// Whether `coord` names a cell of the board.
    pub open spec fn in_bounds(&self, coord: Coord) -> bool {
        self@.contains(coord.row as int, coord.col as int)
    }

    /// A board without tiles whose cells have the given modifiers, row by
    /// row. There must be at least one row, all rows of one length, and
    /// neither side longer than a coordinate can count.
    pub fn with_modifiers(rows: Vec<Vec<Option<Modifier>>>) -> (b: ScrabbleBoard)
        requires
            0 < rows@.len() <= i32::MAX,
            rows@[0]@.len() <= i32::MAX,
            forall|i: int| 0 <= i < rows@.len() ==> (#[trigger] rows@[i])@.len() == rows@[0]@.len(),
        ensures
            b.wf(),
            b@ == (BoardModel {
                nrows: rows@.len(),
                ncols: rows@[0]@.len(),
                letters: Seq::new(
                    rows@.len(),
                    |r: int| Seq::new(rows@[0]@.len(), |c: int| None::<Letter>),
                ),
                modifiers: Seq::new(rows@.len(), |r: int| rows@[r]@),
            }),
    {
        let nrows = rows.len();
        let ncols = rows[0].len();
        let ghost shape = Seq::new(rows@.len(), |r: int| rows@[r]@);
        let modifiers = Grid::from(rows);
        proof {
            modifiers.lemma_view();
        }
        let letters: Grid<Option<Letter>> = Grid::new(nrows, ncols, None);
        let b = ScrabbleBoard { modifiers, letters };
        proof {
            b.letters.lemma_view();
            b.modifiers.lemma_view();
            assert(b@.letters =~~= Seq::new(
                nrows as nat,
                |r: int| Seq::new(ncols as nat, |c: int| None::<Letter>),
            ));
            assert(b@.modifiers =~~= shape);
        }
        b
    }

    /// The empty board that the lines of a layout describe, one line per
    /// row: `d` and `t` for cells that double and triple a letter, `D` and
    /// `T` for cells that double and triple a word, a space for a plain cell.
    /// The result is nothing where the lines are no layout.
    pub fn from_layout(lines: &Vec<String>) -> (r: Option<ScrabbleBoard>)
        ensures
            r is Some <==> is_layout(line_texts(lines@)),
            r matches Some(b) ==> b.wf() && b@ == layout_board(line_texts(lines@)),
    {
        let ghost layout = line_texts(lines@);
        let nrows = lines.len();
        if nrows == 0 || nrows > 0x7fff_ffff {
            return None;
        }
        let ncols = lines[0].as_str().unicode_len();
        if ncols > 0x7fff_ffff {
            return None;
        }
        let mut rows: Vec<Vec<Option<Modifier>>> = Vec::new();
        let mut i: usize = 0;
        while i < nrows
            invariant
                layout == line_texts(lines@),
                nrows == lines@.len(),
                0 < nrows <= i32::MAX,
                ncols == layout[0].len(),
                ncols <= i32::MAX,
                i <= nrows,
                rows@.len() == i,
                forall|r: int| 0 <= r < i ==> (#[trigger] rows@[r])@.len() == ncols,
                forall|r: int|
                    0 <= r < i ==> is_layout_row(#[trigger] layout[r]) && layout[r].len() == ncols
                        && rows@[r]@ == row_modifiers(layout[r]),
            decreases nrows - i,
        {
            let line = lines[i].as_str();
            assert(line@ == layout[i as int]);
            if line.unicode_len() != ncols || !is_modifier_row(line) {
                return None;
            }
            rows.push(modifier_row(line));
            i += 1;
        }
        let ghost shape = Seq::new(rows@.len(), |r: int| rows@[r]@);
        proof {
            assert(shape =~~= layout_board(layout).modifiers);
        }
        let b = ScrabbleBoard::with_modifiers(rows);
        proof {
            assert(b@.letters =~~= layout_board(layout).letters);
        }
        Some(b)
    }

    /// The empty standard board: 15 by 15 cells with the usual modifiers.
    pub fn empty_scrabble_board() -> (b: ScrabbleBoard)
        ensures
            b.wf(),
            b@ == standard_board(),
    {
        proof {
            reveal_strlit("T  d   T   d  T");
            reveal_strlit(" D   t   t   D ");
            reveal_strlit("  D   d d   D  ");
            reveal_strlit("d  D   d   D  d");
            reveal_strlit("    D     D    ");
            reveal_strlit(" t   t   t   t ");
            reveal_strlit("  d   d d   d  ");
            reveal_strlit("T  d   D   d  T");
        }
        let mut rows: Vec<Vec<Option<Modifier>>> = Vec::new();
        rows.push(modifier_row("T  d   T   d  T"));
        rows.push(modifier_row(" D   t   t   D "));
        rows.push(modifier_row("  D   d d   D  "));
        rows.push(modifier_row("d  D   d   D  d"));
        rows.push(modifier_row("    D     D    "));
        rows.push(modifier_row(" t   t   t   t "));
        rows.push(modifier_row("  d   d d   d  "));
        rows.push(modifier_row("T  d   D   d  T"));
        rows.push(modifier_row("  d   d d   d  "));
        rows.push(modifier_row(" t   t   t   t "));
        rows.push(modifier_row("    D     D    "));
        rows.push(modifier_row("d  D   d   D  d"));
        rows.push(modifier_row("  D   d d   D  "));
        rows.push(modifier_row(" D   t   t   D "));
        rows.push(modifier_row("T  d   T   d  T"));
        let ghost shape = Seq::new(rows@.len(), |r: int| rows@[r]@);
        proof {
            assert(shape =~~= standard_board().modifiers);
        }
        let b = ScrabbleBoard::with_modifiers(rows);
        proof {
            assert(b@.letters =~~= standard_board().letters);
        }
        b
    }

    pub fn nrows(&self) -> (n: usize)
        ensures
            n == self@.nrows,
    {
        self.letters.nrows()
    }

    pub fn ncols(&self) -> (n: usize)
        ensures
            n == self@.ncols,
    {
        self.letters.ncols()
    }

    /// The tile on the cell at `coord`, which must lie on the board.
    pub fn letter(&self, coord: Coord) -> (l: Option<Letter>)
        requires
            self.wf(),
            self.in_bounds(coord),
        ensures
            l == self@.letter_at(coord.row as int, coord.col as int),
    {
        proof {
            self.letters.lemma_view();
        }
        self.letters.get_unchecked(coord)
    }

    /// The modifier of the cell at `coord`, which must lie on the board.
    pub fn modifier(&self, coord: Coord) -> (m: Option<Modifier>)
        requires
            self.wf(),
            self.in_bounds(coord),
        ensures
            m == self@.modifier_at(coord.row as int, coord.col as int),
    {
        proof {
            self.modifiers.lemma_view();
        }
        self.modifiers.get_unchecked(coord)
    }

    /// Lays the bytes of `word` on the board, from `coord` on along
    /// `direction`, over whatever the cells held. Nothing is checked but that
    /// every cell lies on the board.
    pub fn add_word(&mut self, coord: Coord, direction: Direction, word: &str)
        requires
            old(self).wf(),
            old(self)@.line_fits(coord, direction, text_bytes(word@).len() as int),
        ensures
            final(self).wf(),
            final(self)@ == old(self)@.with_word(
                coord.row as int,
                coord.col as int,
                direction,
                text_bytes(word@),
            ),
    {
        self.add_letters(coord, direction, word.as_bytes())
    }

    /// True exactly when `len` cells from `coord` on along `direction` all
    /// lie on the board.
    pub fn word_fits(&self, coord: Coord, direction: Direction, len: usize) -> (b: bool)
        requires
            self.wf(),
        ensures
            b == self@.line_fits(coord, direction, len as int),
    {
        proof {
            self.lemma_view();
        }
        if len == 0 {
            return true;
        }
        if !self.is_coord_in_bounds(coord) {
            assert(!self@.contains(
                row_along(coord.row as int, direction, 0),
                col_along(coord.col as int, direction, 0),
            ));
            return false;
        }
        let fits = match direction {
            Direction::Right => len <= self.ncols() - (coord.col as usize),
            Direction::Down => len <= self.nrows() - (coord.row as usize),
        };
        proof {
            if !fits {
                assert(!self@.contains(
                    row_along(coord.row as int, direction, len - 1),
                    col_along(coord.col as int, direction, len - 1),
                ));
            }
        }
        fits
    }

    /// Lays the tiles `letters` on the board, from `coord` on along
    /// `direction`, over whatever the cells held.
    pub fn add_letters(&mut self, coord: Coord, direction: Direction, letters: &[u8])
        requires
            old(self).wf(),
            old(self)@.line_fits(coord, direction, letters@.len() as int),
        ensures
            final(self).wf(),
            final(self)@ == old(self)@.with_word(
                coord.row as int,
                coord.col as int,
                direction,
                letters@,
            ),
    {
        let bytes = letters;
        let ghost start = self@;
        let mut cur_coord = coord;
        let mut i: usize = 0;
        proof {
            self.lemma_view();
            assert(bytes@.take(0) =~= Seq::<Letter>::empty());
        }
        while i < bytes.len()
            invariant
                i <= bytes@.len(),
                self.wf(),
                self@.nrows == start.nrows,
                self@.ncols == start.ncols,
                start.nrows <= i32::MAX,
                start.ncols <= i32::MAX,
                start.line_fits(coord, direction, bytes@.len() as int),
                i < bytes@.len() ==> cur_coord.row == row_along(coord.row as int, direction, i as int)
                    && cur_coord.col == col_along(coord.col as int, direction, i as int),
                self@ == start.with_word(
                    coord.row as int,
                    coord.col as int,
                    direction,
                    bytes@.take(i as int),
                ),
            decreases bytes@.len() - i,
        {
            proof {
                assert(bytes@.take(i + 1).drop_last() =~= bytes@.take(i as int));
                assert(bytes@.take(i + 1).last() == bytes@[i as int]);
                assert(start.contains(
                    row_along(coord.row as int, direction, i as int),
                    col_along(coord.col as int, direction, i as int),
                ));
            }
            self.set_letter_unchecked(cur_coord, bytes[i]);
            i += 1;
            if i < bytes.len() {
                proof {
                    assert(start.contains(
                        row_along(coord.row as int, direction, i as int),
                        col_along(coord.col as int, direction, i as int),
                    ));
                }
                cur_coord = cur_coord.next(direction);
            }
        }
        proof {
            assert(bytes@.take(bytes@.len() as int) =~= bytes@);
        }
    }

    /// Lays the tile `l` on the cell at `coord`, which must lie on the
    /// board, over whatever the cell held.
    pub fn set_letter_unchecked(&mut self, coord: Coord, l: Letter)
        requires
            old(self).wf(),
            old(self).in_bounds(coord),
        ensures
            final(self).wf(),
            final(self)@ == old(self)@.with_letter(coord.row as int, coord.col as int, l),
    {
        let ghost before = *self;
        proof {
            self.letters.lemma_view();
        }
        self.letters.set_unchecked(coord, Some(l));
        proof {
            self.letters.lemma_view();
            let target = before@.with_letter(coord.row as int, coord.col as int, l);
            assert(self@.letters.len() == target.letters.len());
            assert forall|r: int| 0 <= r < self@.letters.len() implies #[trigger] self@.letters[r]
                =~= target.letters[r] by {
                assert forall|c: int| 0 <= c < self@.letters[r].len() implies self@.letters[r][c]
                    == target.letters[r][c] by {
                    assert(self.letters.contains(r, c));
                    if !(r == coord.row && c == coord.col) {
                        assert(self.letters.cell(r, c) == before.letters.cell(r, c));
                    }
                }
            }
            assert(self@.letters =~= target.letters);
        }
    }

    /// The character that shows the cell at `coord`.
    pub fn symbol(&self, coord: Coord) -> (c: char)
        requires
            self.wf(),
            self.in_bounds(coord),
        ensures
            c == cell_symbol(
                self@.letter_at(coord.row as int, coord.col as int),
                self@.modifier_at(coord.row as int, coord.col as int),
            ),
    {
        match self.letter(coord) {
            None => match self.modifier(coord) {
                Some(Modifier::DoubleLetter) => '2',
                Some(Modifier::TripleLetter) => '3',
                Some(Modifier::DoubleWord) => '\u{2461}',
                Some(Modifier::TripleWord) => '\u{2462}',
                None => ' ',
            },
            Some(l) => l as char,
        }
    }

    /// The text that shows the row `row` of the board, one character per
    /// cell.
    pub fn row_text(&self, row: usize) -> (text: String)
        requires
            self.wf(),
            row < self@.nrows,
        ensures
            text@ == self@.row_symbols(row as int),
    {
        proof {
            self.lemma_view();
        }
        let ncols = self.ncols();
        let mut text = String::new();
        let mut col: usize = 0;
        while col < ncols
            invariant
                self.wf(),
                row < self@.nrows,
                self@.nrows <= i32::MAX,
                ncols == self@.ncols,
                ncols <= i32::MAX,
                col <= ncols,
                text@ == self@.row_symbols(row as int).take(col as int),
            decreases ncols - col,
        {
            let c = self.symbol(Coord::new(row as i32, col as i32));
            push_char(&mut text, c);
            proof {
                assert(text@ =~= self@.row_symbols(row as int).take(col + 1));
            }
            col += 1;
        }
        proof {
            assert(text@ =~= self@.row_symbols(row as int));
        }
        text
    }

    /// Whether `coord` is the centre cell of the board.
    pub fn is_middle(&self, coord: Coord) -> (b: bool)
        requires
            self.wf(),
        ensures
            b == self@.is_center(coord.row as int, coord.col as int),
    {
        proof {
            self.lemma_view();
        }
        coord.row == (self.nrows() as i32) / 2 && coord.col == (self.ncols() as i32) / 2
    }

    /// Whether `coord` names a cell of the board.
    pub fn is_coord_in_bounds(&self, coord: Coord) -> (b: bool)
        ensures
            b == self.in_bounds(coord),
    {
        self.letters.is_coord_in_bounds(coord)
    }

    /// True exactly when every tile on the board is an ASCII letter.
    pub fn has_only_letters(&self) -> (b: bool)
        requires
            self.wf(),
        ensures
            b == self@.letters_alphabetic(),
    {
        proof {
            self.lemma_view();
        }
        let nrows = self.nrows();
        let ncols = self.ncols();
        let mut r: usize = 0;
        while r < nrows
            invariant
                self.wf(),
                nrows == self@.nrows,
                ncols == self@.ncols,
                nrows <= i32::MAX,
                ncols <= i32::MAX,
                r <= nrows,
                forall|row: int, col: int|
                    0 <= row < r && 0 <= col < ncols && (#[trigger] self@.letter_at(row, col))
                        is Some ==> is_alpha(self@.letter_at(row, col)->0),
            decreases nrows - r,
        {
            let mut c: usize = 0;
            while c < ncols
                invariant
                    self.wf(),
                    nrows == self@.nrows,
                    ncols == self@.ncols,
                    nrows <= i32::MAX,
                    ncols <= i32::MAX,
                    r < nrows,
                    c <= ncols,
                    forall|row: int, col: int|
                        0 <= row < r && 0 <= col < ncols && (#[trigger] self@.letter_at(row, col))
                            is Some ==> is_alpha(self@.letter_at(row, col)->0),
                    forall|col: int|
                        0 <= col < c && (#[trigger] self@.letter_at(r as int, col)) is Some
                            ==> is_alpha(self@.letter_at(r as int, col)->0),
                decreases ncols - c,
            {
                match self.letter(Coord::new(r as i32, c as i32)) {
                    Some(l) => {
                        if !crate::util::is_letter(l) {
                            return false;
                        }
                    },
                    None => {},
                }
                c += 1;
            }
            r += 1;
        }
        true
    }

    /// Looks along `dir` at the tiles around the cell at `coord`, on which
    /// the tile `letter` is about to be laid. Where tiles touch the cell, the
    /// run of tiles through it, with `letter` in its place, must be a word of
    /// the dictionary, and scores as one: the sum of its letters, multiplied
    /// by a word modifier of the cell, or raised by the bonus that a letter
    /// modifier of the cell gives the new tile.
    pub fn validate_word_around(
        &self,
        dict_trie: &DictionaryTrie,
        coord: Coord,
        dir: Direction,
        letter: Letter,
    ) -> (r: WordAroundValidation)
        requires
            self.wf(),
            dict_trie.wf(),
            self.in_bounds(coord),
            self@.letters_alphabetic(),
            is_alpha(letter),
            30 * self@.max_dim() <= u32::MAX,
        ensures
            r == self@.cross_check(dict_trie@, coord.row as int, coord.col as int, dir, letter),
    {
        let ghost board = self@;
        let ghost row = coord.row as int;
        let ghost col = coord.col as int;
        proof {
            self.lemma_view();
            board.lemma_cross_word(row, col, dir, letter);
        }
        // Walk back to the first tile of the run.
        let mut first = coord;
        let mut before: usize = 0;
        loop
            invariant
                self.wf(),
                board == self@,
                board.nrows <= i32::MAX,
                board.ncols <= i32::MAX,
                self.in_bounds(first),
                first.row == row_along(row, dir, -(before as int)),
                first.col == col_along(col, dir, -(before as int)),
                before <= row + col,
                board.run_back(row, col, dir) == before + board.run_back(
                    first.row as int,
                    first.col as int,
                    dir,
                ),
            ensures
                self.in_bounds(first),
                first.row == row_along(row, dir, -(before as int)),
                first.col == col_along(col, dir, -(before as int)),
                board.run_back(row, col, dir) == before,
            decreases first.row + first.col,
        {
            let prev = first.prev(dir);
            if self.is_coord_in_bounds(prev) && self.letter(prev).is_some() {
                first = prev;
                before += 1;
            } else {
                break;
            }
        }
        // Collect the run, the new tile in its place.
        let mut word: Vec<u8> = Vec::new();
        let mut cur = first;
        let mut i: usize = 0;
        while i < before
            invariant
                self.wf(),
                board == self@,
                board.nrows <= i32::MAX,
                board.ncols <= i32::MAX,
                board.contains(row, col),
                i <= before,
                before == board.run_back(row, col, dir),
                cur.row == row_along(row, dir, i - before),
                cur.col == col_along(col, dir, i - before),
                word@.len() == i,
                forall|k: int|
                    0 <= k < i ==> #[trigger] word@[k] == board.letter_at(
                        row_along(row, dir, k - before),
                        col_along(col, dir, k - before),
                    )->0,
            decreases before - i,
        {
            proof {
                board.lemma_run_back_occupied(row, col, dir, before - i);
            }
            let l = self.letter(cur).unwrap();
            word.push(l);
            cur = cur.next(dir);
            i += 1;
        }
        word.push(letter);
        let mut last = coord;
        let mut after: usize = 0;
        loop
            invariant
                self.wf(),
                board == self@,
                board.nrows <= i32::MAX,
                board.ncols <= i32::MAX,
                board.contains(row, col),
                self.in_bounds(last),
                before == board.run_back(row, col, dir),
                last.row == row_along(row, dir, after as int),
                last.col == col_along(col, dir, after as int),
                after <= board.run_fwd(row, col, dir),
                board.run_fwd(row, col, dir) == after + board.run_fwd(
                    last.row as int,
                    last.col as int,
                    dir,
                ),
                word@.len() == before + 1 + after,
                forall|k: int|
                    0 <= k < word@.len() ==> #[trigger] word@[k] == board.cross_word(
                        row,
                        col,
                        dir,
                        letter,
                    )[k],
            ensures
                board.run_fwd(row, col, dir) == after,
                word@.len() == before + 1 + after,
                forall|k: int|
                    0 <= k < word@.len() ==> #[trigger] word@[k] == board.cross_word(
                        row,
                        col,
                        dir,
                        letter,
                    )[k],
            decreases board.nrows + board.ncols - last.row - last.col,
        {
            let next = last.next(dir);
            if self.is_coord_in_bounds(next) {
                match self.letter(next) {
                    Some(l) => {
                        word.push(l);
                        last = next;
                        after += 1;
                    },
                    None => {
                        break;
                    },
                }
            } else {
                break;
            }
        }
        assert(word@ =~= board.cross_word(row, col, dir, letter));
        if word.len() == 1 {
            WordAroundValidation::NothingAround
        } else if dict_trie.is_word_utf8(&word) {
            proof {
                lemma_letters_score_bound(word@);
                lemma_letters_score_has(word@, before as int);
                lemma_letter_score_bounds(letter);
                lemma_crossing_score_bound(board.modifier_at(row, col), letters_score(word@), letter);
            }
            let base_score = scrabble_letters_score_utf8(&word);
            let final_score = match self.modifier(coord) {
                None => base_score,
                Some(Modifier::DoubleWord) => base_score * 2,
                Some(Modifier::TripleWord) => base_score * 3,
                Some(Modifier::DoubleLetter) => base_score + scrabble_letter_score(letter),
                Some(Modifier::TripleLetter) => base_score + 2 * scrabble_letter_score(letter),
            };
            WordAroundValidation::ValidWordScore(final_score)
        } else {
            WordAroundValidation::InvalidWord
        }
    }
}

} // verus!
