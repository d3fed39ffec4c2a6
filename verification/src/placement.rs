//! What a placement is worth.
//!
//! A placement is a start cell, a direction and the letters of a word laid
//! from the start along the direction: over the tiles that already lie
//! there, and as new tiles on the empty cells. This module says, over the
//! model of a board, how many tiles a placement lays, whether it is
//! anchored, and what it scores.

use crate::board::BoardModel;
use crate::grid::col_along;
use crate::grid::row_along;
use crate::grid::Coord;
use crate::scoring::crossing_score;
use crate::scoring::lemma_letter_score_bounds;
use crate::scoring::letter_factor;
use crate::scoring::letter_score;
use crate::scoring::letters_score;
use crate::scoring::word_factor;
use crate::scoring::Modifier;
use crate::util::is_lower;
use crate::util::Direction;
use crate::util::Letter;
use vstd::prelude::*;

verus! {

/// The mathematical picture of a solution: the word as text, its score, and
/// where and in which direction it is laid.
pub struct SolutionModel {
    pub word: Seq<char>,
    pub score: u32,
    pub direction: Direction,
    pub start_coord: Coord,
}

/// The text that a sequence of tiles spells.
pub open spec fn letters_text(letters: Seq<Letter>) -> Seq<char> {
    Seq::new(letters.len(), |i: int| letters[i] as char)
}

/// Three to the power of `n`.
pub open spec fn pow3(n: nat) -> nat
    decreases n,
{
    if n == 0 {
        1
    } else {
        3 * pow3((n - 1) as nat)
    }
}

/// Whether every score that can come up on a board whose longer side has
/// `dim` cells, with `tiles` tiles to lay, fits into 32 bits: thirty points
/// per cell of a word, tripled by every tile, thirty points per cell of each
/// crossing word, and the bonus.
pub open spec fn score_fits(dim: nat, tiles: nat) -> bool {
    30 * dim * (pow3(tiles) + tiles) + 50 <= u32::MAX
}

/// Powers of three grow with the exponent.
pub proof fn lemma_pow3_monotonic(a: nat, b: nat)
    requires
        a <= b,
    ensures
        1 <= pow3(a) <= pow3(b),
    decreases b,
{
    if b > 0 {
        if a < b {
            lemma_pow3_monotonic(a, (b - 1) as nat);
        } else {
            lemma_pow3_monotonic((a - 1) as nat, (b - 1) as nat);
        }
    }
}

/// Where scores fit for some number of tiles, they fit for fewer.
pub proof fn lemma_score_fits_fewer(dim: nat, fewer: nat, tiles: nat)
    requires
        fewer <= tiles,
        score_fits(dim, tiles),
    ensures
        score_fits(dim, fewer),
{
    lemma_pow3_monotonic(fewer, tiles);
    assert(30 * dim * (pow3(fewer) + fewer) <= 30 * dim * (pow3(tiles) + tiles))
        by (nonlinear_arith)
        requires
            pow3(fewer) + fewer <= pow3(tiles) + tiles,
    ;
}

/// Where scores fit at all, thirty points per cell of the board's longer
/// side fit, and on a board with cells so does the highest word factor.
pub proof fn lemma_score_fits_dim(dim: nat, tiles: nat)
    requires
        score_fits(dim, tiles),
    ensures
        30 * dim <= u32::MAX,
        dim >= 1 ==> pow3(tiles) <= u32::MAX,
        dim >= 1 ==> tiles <= u32::MAX,
{
    lemma_pow3_monotonic(0, tiles);
    assert(30 * dim <= 30 * dim * (pow3(tiles) + tiles)) by (nonlinear_arith)
        requires
            pow3(tiles) + tiles >= 1,
    ;
    if dim >= 1 {
        assert(pow3(tiles) + tiles <= 30 * dim * (pow3(tiles) + tiles)) by (nonlinear_arith)
            requires
                dim >= 1,
        ;
    }
}

/// True exactly when every score that can come up on a board whose longer
/// side has `dim` cells, with `tiles` tiles to lay, fits into 32 bits.
pub fn scores_fit(dim: usize, tiles: u32) -> (b: bool)
    ensures
        b == score_fits(dim as nat, tiles as nat),
{
    if dim == 0 {
        assert(30 * (dim as nat) * (pow3(tiles as nat) + tiles as nat) == 0) by (nonlinear_arith)
            requires
                dim == 0,
        ;
        return true;
    }
    proof {
        assert(pow3(20) == 3486784401 && pow3(21) == 10460353203) by {
            reveal_with_fuel(pow3, 22);
        }
    }
    if tiles > 20 {
        proof {
            lemma_pow3_monotonic(21, tiles as nat);
            assert(pow3(tiles as nat) <= 30 * (dim as nat) * (pow3(tiles as nat) + tiles as nat))
                by (nonlinear_arith)
                requires
                    dim >= 1,
            ;
        }
        return false;
    }
    let mut power: u64 = 1;
    let mut i: u32 = 0;
    while i < tiles
        invariant
            i <= tiles <= 20,
            power == pow3(i as nat),
            pow3(20) == 3486784401,
        decreases tiles - i,
    {
        proof {
            lemma_pow3_monotonic((i + 1) as nat, 20);
        }
        power = power * 3;
        i += 1;
    }
    proof {
        lemma_pow3_monotonic(tiles as nat, 20);
    }
    let cells: u128 = 30 * (dim as u128);
    let per_cell: u128 = (power as u128) + (tiles as u128);
    assert(cells * per_cell <= 0x20_0000_0000_0000_0000_0000_0000_00) by (nonlinear_arith)
        requires
            cells <= 0x20_0000_0000_0000_0000,
            per_cell <= 0x1_0000_0000,
    ;
    assert(cells * per_cell == 30 * (dim as nat) * (pow3(tiles as nat) + tiles as nat))
        by (nonlinear_arith)
        requires
            cells == 30 * (dim as nat),
            per_cell == pow3(tiles as nat) + tiles as nat,
    ;
    cells * per_cell + 50 <= 0xffff_ffff
}

impl BoardModel {
    /// Whether the first `n` cells of the line from `start` along `d` lie on
    /// the board.
    pub open spec fn line_on_board(self, start: Coord, d: Direction, n: int) -> bool {
        n <= 0 || (self.contains(start.row as int, start.col as int) && self.contains(
            row_along(start.row as int, d, n - 1),
            col_along(start.col as int, d, n - 1),
        ))
    }

    /// How many cells lie between the cell `k` steps from `start` and the
    /// edge of the board that the line runs towards, that cell counted.
    pub open spec fn line_room(self, start: Coord, d: Direction, k: int) -> int {
        match d {
            Direction::Right => self.ncols - (start.col + k),
            Direction::Down => self.nrows - (start.row + k),
        }
    }

    /// How many of the first `n` cells of the line are empty, that is, how
    /// many new tiles a word of `n` letters lays.
    pub open spec fn tiles_placed(self, start: Coord, d: Direction, n: int) -> nat
        decreases n,
    {
        if n <= 0 {
            0
        } else {
            self.tiles_placed(start, d, n - 1) + if self.occupied(
                row_along(start.row as int, d, n - 1),
                col_along(start.col as int, d, n - 1),
            ) {
                0nat
            } else {
                1nat
            }
        }
    }

    /// What the tile `l` adds to the letter score of the word it is laid in:
    /// its own score, multiplied by the letter modifier of its cell where the
    /// tile is new.
    pub open spec fn tile_score(self, row: int, col: int, l: Letter) -> nat {
        if self.occupied(row, col) {
            letter_score(l)
        } else {
            letter_score(l) * letter_factor(self.modifier_at(row, col))
        }
    }

    /// By how much the cell at `row`, `col` multiplies a word laid across
    /// it: by its word modifier where the tile on it is new.
    pub open spec fn cell_word_factor(self, row: int, col: int) -> nat {
        if self.occupied(row, col) {
            1
        } else {
            word_factor(self.modifier_at(row, col))
        }
    }

    /// The score of the word that the new tile `l` forms across the line,
    /// along `across`; nothing where no tile touches it.
    pub open spec fn cross_points(self, row: int, col: int, across: Direction, l: Letter) -> nat {
        let word = self.cross_word(row, col, across, l);
        if word.len() == 1 {
            0
        } else {
            crossing_score(self.modifier_at(row, col), letters_score(word), l)
        }
    }

    /// Whether a tile touches the cell at `row`, `col` along `across`.
    pub open spec fn touched(self, row: int, col: int, across: Direction) -> bool {
        self.run_back(row, col, across) + self.run_fwd(row, col, across) > 0
    }

    /// Whether a tile on the cell at `row`, `col` anchors a word laid along
    /// `d`: the cell holds a tile already, or is the centre of the board, or
    /// a tile touches it across the line.
    pub open spec fn anchors(self, row: int, col: int, d: Direction) -> bool {
        self.occupied(row, col) || self.is_center(row, col) || self.touched(row, col, d.rotated())
    }

    /// The letter score of a word: the sum of what its tiles add.
    pub open spec fn line_letter_score(self, start: Coord, d: Direction, letters: Seq<Letter>) -> nat
        decreases letters.len(),
    {
        if letters.len() == 0 {
            0
        } else {
            self.line_letter_score(start, d, letters.drop_last()) + self.tile_score(
                row_along(start.row as int, d, letters.len() - 1),
                col_along(start.col as int, d, letters.len() - 1),
                letters.last(),
            )
        }
    }

    /// The factor of a word of `n` letters: the product of the word
    /// modifiers under its new tiles.
    pub open spec fn line_word_factor(self, start: Coord, d: Direction, n: int) -> nat
        decreases n,
    {
        if n <= 0 {
            1
        } else {
            self.line_word_factor(start, d, n - 1) * self.cell_word_factor(
                row_along(start.row as int, d, n - 1),
                col_along(start.col as int, d, n - 1),
            )
        }
    }

    /// The scores of the words that the new tiles of a word form across it,
    /// summed.
    pub open spec fn crossing_total(self, start: Coord, d: Direction, letters: Seq<Letter>) -> nat
        decreases letters.len(),
    {
        if letters.len() == 0 {
            0
        } else {
            let row = row_along(start.row as int, d, letters.len() - 1);
            let col = col_along(start.col as int, d, letters.len() - 1);
            self.crossing_total(start, d, letters.drop_last()) + if self.occupied(row, col) {
                0
            } else {
                self.cross_points(row, col, d.rotated(), letters.last())
            }
        }
    }

    /// Whether a word of `n` letters is anchored: one of its cells anchors it.
    pub open spec fn line_anchored(self, start: Coord, d: Direction, n: int) -> bool
        decreases n,
    {
        n > 0 && (self.line_anchored(start, d, n - 1) || self.anchors(
            row_along(start.row as int, d, n - 1),
            col_along(start.col as int, d, n - 1),
            d,
        ))
    }

    /// What a placement scores before the bonus: its letter score times its
    /// word factor, plus the crossing words.
    pub open spec fn score_before_bonus(self, start: Coord, d: Direction, letters: Seq<Letter>) -> nat {
        self.line_letter_score(start, d, letters) * self.line_word_factor(
            start,
            d,
            letters.len() as int,
        ) + self.crossing_total(start, d, letters)
    }

    /// The bonus of a placement: 50 points where it lays seven tiles or more.
    pub open spec fn bonus(self, start: Coord, d: Direction, n: int) -> nat {
        if self.tiles_placed(start, d, n) >= 7 {
            50
        } else {
            0
        }
    }

    /// What a placement scores.
    pub open spec fn placement_score(self, start: Coord, d: Direction, letters: Seq<Letter>) -> nat {
        self.score_before_bonus(start, d, letters) + self.bonus(start, d, letters.len() as int)
    }

    /// The solution that stands for a placement.
    pub open spec fn solution(self, start: Coord, d: Direction, letters: Seq<Letter>) -> SolutionModel {
        SolutionModel {
            word: letters_text(letters),
            score: self.placement_score(start, d, letters) as u32,
            direction: d,
            start_coord: start,
        }
    }

    /// A line on the board is no longer than the board's longer side, and
    /// each of its cells lies on the board.
    pub proof fn lemma_line_on_board(self, start: Coord, d: Direction, n: int, k: int)
        requires
            self.line_on_board(start, d, n),
            0 <= k < n,
        ensures
            n <= self.max_dim(),
            self.contains(row_along(start.row as int, d, k), col_along(start.col as int, d, k)),
            self.line_on_board(start, d, k),
            self.line_on_board(start, d, k + 1),
    {
    }

    /// The parts of a placement's score are bounded: it lays no more tiles
    /// than it has letters, each letter adds no more than 30 points, each new
    /// tile at most triples the word, and each crossing word scores no more
    /// than 30 points per cell of the board's longer side.
    pub proof fn lemma_score_parts_bounded(self, start: Coord, d: Direction, letters: Seq<Letter>)
        requires
            self.line_on_board(start, d, letters.len() as int),
        ensures
            self.tiles_placed(start, d, letters.len() as int) <= letters.len(),
            self.line_letter_score(start, d, letters) <= 30 * letters.len(),
            1 <= self.line_word_factor(start, d, letters.len() as int) <= pow3(
                self.tiles_placed(start, d, letters.len() as int),
            ),
            self.crossing_total(start, d, letters) <= 30 * self.max_dim() * self.tiles_placed(
                start,
                d,
                letters.len() as int,
            ),
        decreases letters.len(),
    {
        let n = letters.len() as int;
        if n > 0 {
            let rest = letters.drop_last();
            let row = row_along(start.row as int, d, n - 1);
            let col = col_along(start.col as int, d, n - 1);
            self.lemma_line_on_board(start, d, n, n - 1);
            self.lemma_score_parts_bounded(start, d, rest);
            lemma_letter_score_bounds(letters.last());
            let placed = self.tiles_placed(start, d, n - 1);
            let factor = self.line_word_factor(start, d, n - 1);
            let cell = self.cell_word_factor(row, col);
            let face = letter_score(letters.last());
            let by_cell = letter_factor(self.modifier_at(row, col));
            assert(face * by_cell <= 30) by (nonlinear_arith)
                requires
                    face <= 10,
                    by_cell <= 3,
            ;
            if self.occupied(row, col) {
                assert(factor * cell == factor) by (nonlinear_arith)
                    requires
                        cell == 1,
                ;
            } else {
                assert(1 <= factor * cell <= 3 * pow3(placed)) by (nonlinear_arith)
                    requires
                        1 <= factor <= pow3(placed),
                        1 <= cell <= 3,
                ;
                self.lemma_cross_word(row, col, d.rotated(), letters.last());
                assert(30 * self.max_dim() * placed + 30 * self.max_dim() == 30 * self.max_dim() * (
                placed + 1)) by (nonlinear_arith);
            }
        }
    }

    /// Where scores fit for the tiles at hand, the score of a placement
    /// that lays no more than those fits into 32 bits, and so does each of its
    /// parts.
    pub proof fn lemma_placement_score_fits(
        self,
        start: Coord,
        d: Direction,
        letters: Seq<Letter>,
        tiles: nat,
    )
        requires
            self.line_on_board(start, d, letters.len() as int),
            self.tiles_placed(start, d, letters.len() as int) <= tiles,
            score_fits(self.max_dim(), tiles),
        ensures
            self.placement_score(start, d, letters) <= u32::MAX,
            self.score_before_bonus(start, d, letters) + 50 <= u32::MAX,
            self.line_letter_score(start, d, letters) <= 30 * self.max_dim(),
            self.line_word_factor(start, d, letters.len() as int) <= pow3(tiles),
            self.crossing_total(start, d, letters) <= 30 * self.max_dim() * tiles,
            30 * self.max_dim() * pow3(tiles) + 30 * self.max_dim() * tiles + 50 <= u32::MAX,
            self.tiles_placed(start, d, letters.len() as int) <= letters.len() <= self.max_dim(),
    {
        let n = letters.len() as int;
        let dim = self.max_dim();
        let placed = self.tiles_placed(start, d, n);
        self.lemma_score_parts_bounded(start, d, letters);
        lemma_pow3_monotonic(placed, tiles);
        if n > 0 {
            self.lemma_line_on_board(start, d, n, 0);
        }
        let ls = self.line_letter_score(start, d, letters);
        let wf = self.line_word_factor(start, d, n);
        let ct = self.crossing_total(start, d, letters);
        assert(ls * wf <= 30 * dim * pow3(tiles)) by (nonlinear_arith)
            requires
                ls <= 30 * dim,
                wf <= pow3(tiles),
        ;
        assert(30 * dim * placed <= 30 * dim * tiles) by (nonlinear_arith)
            requires
                placed <= tiles,
        ;
        assert(30 * dim * (pow3(tiles) + tiles) == 30 * dim * pow3(tiles) + 30 * dim * tiles)
            by (nonlinear_arith);
    }

    /// A placement that lays seven tiles or more scores exactly 50 points
    /// more than its letters, factors and crossing words give; one that lays
    /// fewer scores exactly what they give.
    pub proof fn lemma_bonus_for_seven_tiles(self, start: Coord, d: Direction, letters: Seq<Letter>)
        ensures
            self.tiles_placed(start, d, letters.len() as int) >= 7 ==> self.placement_score(
                start,
                d,
                letters,
            ) == self.score_before_bonus(start, d, letters) + 50,
            self.tiles_placed(start, d, letters.len() as int) < 7 ==> self.placement_score(
                start,
                d,
                letters,
            ) == self.score_before_bonus(start, d, letters),
    {
    }
}

impl BoardModel {
    /// Whether the `k`th cell of the line leaves the score of a tile laid
    /// on it alone: it holds a tile already, or it has no modifier and no
    /// tile touches it across the line.
    pub open spec fn plain_cell(self, start: Coord, d: Direction, k: int) -> bool {
        let row = row_along(start.row as int, d, k);
        let col = col_along(start.col as int, d, k);
        self.occupied(row, col) || (self.modifier_at(row, col) is None && !self.touched(
            row,
            col,
            d.rotated(),
        ))
    }

    /// Whether the `k`th cell of the line is empty, triples a word laid
    /// across it, and is touched by no tile across the line.
    pub open spec fn triple_word_cell(self, start: Coord, d: Direction, k: int) -> bool {
        let row = row_along(start.row as int, d, k);
        let col = col_along(start.col as int, d, k);
        !self.occupied(row, col) && self.modifier_at(row, col) == Some(Modifier::TripleWord)
            && !self.touched(row, col, d.rotated())
    }

    /// Where every cell of a word but at most the `j`th is plain, and the
    /// `j`th, if the word reaches it, triples the word: the letter score is
    /// the sum of the letters' scores, no crossing word scores, and the word
    /// factor is 3 where the word reaches the `j`th cell and 1 where it does
    /// not.
    pub proof fn lemma_plain_parts(self, start: Coord, d: Direction, letters: Seq<Letter>, j: int)
        requires
            forall|k: int|
                0 <= k < letters.len() && k != j ==> #[trigger] self.plain_cell(start, d, k),
            0 <= j < letters.len() ==> self.triple_word_cell(start, d, j),
        ensures
            self.line_letter_score(start, d, letters) == letters_score(letters),
            self.crossing_total(start, d, letters) == 0,
            self.line_word_factor(start, d, letters.len() as int) == if 0 <= j < letters.len() {
                3nat
            } else {
                1nat
            },
        decreases letters.len(),
    {
        let n = letters.len() as int;
        if n > 0 {
            let rest = letters.drop_last();
            let row = row_along(start.row as int, d, n - 1);
            let col = col_along(start.col as int, d, n - 1);
            assert forall|k: int| 0 <= k < rest.len() && k != j implies #[trigger] self.plain_cell(
                start,
                d,
                k,
            ) by {}
            self.lemma_plain_parts(start, d, rest, j);
            let before = self.line_word_factor(start, d, n - 1);
            let face = letter_score(letters.last());
            if j == n - 1 {
                assert(self.triple_word_cell(start, d, j));
                assert(before * 3 == 3) by (nonlinear_arith)
                    requires
                        before == 1,
                ;
                assert(face * 1 == face) by (nonlinear_arith);
            } else {
                assert(self.plain_cell(start, d, n - 1));
                assert(before * 1 == before) by (nonlinear_arith);
                assert(face * 1 == face) by (nonlinear_arith);
            }
        }
    }

    /// A word that lays fewer than seven tiles, all on cells without
    /// modifier which no tile touches across the line, scores the sum of
    /// the scores of its letters.
    pub proof fn lemma_plain_word_scores_its_letters(
        self,
        start: Coord,
        d: Direction,
        letters: Seq<Letter>,
    )
        requires
            forall|k: int| 0 <= k < letters.len() ==> #[trigger] self.plain_cell(start, d, k),
            self.tiles_placed(start, d, letters.len() as int) < 7,
        ensures
            self.placement_score(start, d, letters) == letters_score(letters),
    {
        self.lemma_plain_parts(start, d, letters, -1);
        assert(letters_score(letters) * 1 == letters_score(letters)) by (nonlinear_arith);
    }

    /// The same word with one of its new tiles on a cell that triples the
    /// word scores three times the sum of the scores of its letters.
    pub proof fn lemma_triple_word_cell_triples_the_sum(
        self,
        start: Coord,
        d: Direction,
        letters: Seq<Letter>,
        j: int,
    )
        requires
            0 <= j < letters.len(),
            self.triple_word_cell(start, d, j),
            forall|k: int|
                0 <= k < letters.len() && k != j ==> #[trigger] self.plain_cell(start, d, k),
            self.tiles_placed(start, d, letters.len() as int) < 7,
        ensures
            self.placement_score(start, d, letters) == 3 * letters_score(letters),
    {
        self.lemma_plain_parts(start, d, letters, j);
        assert(letters_score(letters) * 3 == 3 * letters_score(letters)) by (nonlinear_arith);
    }

    /// A blank tile, written as an upper-case letter, adds nothing to the
    /// letter score, whichever letter it stands for and whatever its cell.
    pub proof fn lemma_blank_tile_scores_nothing(self, row: int, col: int, l: Letter)
        requires
            !is_lower(l),
        ensures
            letter_score(l) == 0,
            self.tile_score(row, col, l) == 0,
    {
        assert(0 * letter_factor(self.modifier_at(row, col)) == 0) by (nonlinear_arith);
    }

    /// How many tiles a word lays, and with that its bonus, depends on where
    /// it lies and how long it is, not on its letters: a blank counts like
    /// any other tile.
    pub proof fn lemma_blanks_count_as_tiles(
        self,
        start: Coord,
        d: Direction,
        letters: Seq<Letter>,
        others: Seq<Letter>,
    )
        requires
            letters.len() == others.len(),
        ensures
            self.placement_score(start, d, letters) - self.score_before_bonus(start, d, letters)
                == self.placement_score(start, d, others) - self.score_before_bonus(
                start,
                d,
                others,
            ),
            self.placement_score(start, d, letters) - self.score_before_bonus(start, d, letters)
                == self.bonus(start, d, letters.len() as int),
    {
    }
}

} // verus!
