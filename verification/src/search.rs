//! The search for placements.
//!
//! For every cell of the board and both directions, the search lays words
//! from that cell on: it walks along the line, takes the tiles that lie on
//! it as they are, tries every available letter on each empty cell, and
//! follows the dictionary's prefix tree so that it gives up a line as soon as
//! no word can come of it. A new tile must form a word with the tiles that
//! touch it across the line.
//!
//! What the search returns is stated over the models of the board, the
//! dictionary and the bag: [`BoardModel::all_plays`] and the functions below
//! it enumerate the placements in the order in which the search finds them.

use crate::board::BoardModel;
use crate::board::ScrabbleBoard;
use crate::board::WordAroundValidation;
use crate::dictionary::can_extend;
use crate::dictionary::DictionaryTrie;
use crate::dictionary::DictionaryTrieNodePtr;
use crate::grid::col_along;
use crate::grid::row_along;
use crate::grid::Coord;
use crate::letter_bag::bag_count;
use crate::letter_bag::bag_decrement;
use crate::letter_bag::bag_distinct;
use crate::letter_bag::bag_index;
use crate::letter_bag::bag_keys;
use crate::letter_bag::bag_total;
use crate::letter_bag::lemma_bag_decrement;
use crate::letter_bag::lemma_bag_entry;
use crate::letter_bag::lemma_bag_keys;
use crate::letter_bag::LetterBag;
use crate::placement::letters_text;
use crate::plays::is_plain_bag;
use crate::placement::pow3;
use crate::placement::score_fits;
use crate::placement::SolutionModel;
use crate::scoring::placement_scores;
use crate::text::int_text;
use crate::text::nat_text;
use crate::text::push_integer;
use crate::text::push_number;
use crate::scoring::scrabble_letter_score;
use crate::util::all_alpha;
use crate::util::alpha_idx;
use crate::util::alpha_indices;
use crate::util::is_alpha;
use crate::util::lowered;
use crate::util::to_lowercase;
use crate::util::push_char;
use crate::util::Direction;
use crate::util::Letter;
use crate::util::Word;
use crate::util::WILDCARD_LETTER;
use vstd::prelude::*;

verus! {

/// A placement that the search found: the word laid, what it scores, and
/// where and in which direction it is laid.
pub struct ScrabbleSolution {
    pub word: Word,
    pub score: u32,
    pub direction: Direction,
    pub start_coord: Coord,
}

impl View for ScrabbleSolution {
    type V = SolutionModel;

    open spec fn view(&self) -> SolutionModel {
        SolutionModel {
            word: self.word@,
            score: self.score,
            direction: self.direction,
            start_coord: self.start_coord,
        }
    }
}

impl Clone for ScrabbleSolution {
    fn clone(&self) -> (r: Self)
        ensures
            r@ == self@,
    {
        ScrabbleSolution {
            word: self.word.clone(),
            score: self.score,
            direction: self.direction,
            start_coord: self.start_coord,
        }
    }
}

/// The text that shows a solution: the word, where it starts, `R` or `D`
/// for its direction, and its score, as in `za: 7,6(R): 11 points`.
pub open spec fn solution_text(sol: SolutionModel) -> Seq<char> {
    sol.word + ": "@ + int_text(sol.start_coord.row as int) + ","@ + int_text(
        sol.start_coord.col as int,
    ) + "("@ + (if sol.direction == Direction::Right {
        "R"@
    } else {
        "D"@
    }) + "): "@ + nat_text(sol.score as nat) + " points"@
}

impl ScrabbleSolution {
    /// The text that shows the solution.
    pub fn to_text(&self) -> (text: String)
        ensures
            text@ == solution_text(self@),
    {
        let mut text = self.word.clone();
        text.append(": ");
        push_integer(&mut text, self.start_coord.row);
        text.append(",");
        push_integer(&mut text, self.start_coord.col);
        text.append("(");
        match self.direction {
            Direction::Right => text.append("R"),
            Direction::Down => text.append("D"),
        }
        text.append("): ");
        push_number(&mut text, self.score as u64);
        text.append(" points");
        text
    }
}

/// The models of a list of solutions.
pub open spec fn solution_views(v: Seq<ScrabbleSolution>) -> Seq<SolutionModel> {
    Seq::new(v.len(), |i: int| v[i]@)
}

/// Whether every letter of which the bag holds a tile can be laid: it is an
/// ASCII letter or the wildcard.
pub open spec fn bag_playable(m: Seq<(Letter, nat)>) -> bool {
    forall|i: int|
        0 <= i < m.len() && (#[trigger] m[i]).1 > 0 ==> is_alpha(m[i].0) || m[i].0
            == WILDCARD_LETTER
}

/// The blank tile that stands for the `n`th letter of the alphabet, counted
/// from 1: an upper-case letter.
pub open spec fn blank_letter(n: nat) -> Letter {
    (64 + n) as u8
}

impl BoardModel {
    /// Whether the letters laid so far are a finished placement: a word of
    /// the dictionary that is anchored and lays at least one tile.
    pub open spec fn is_complete(
        self,
        words: Set<Seq<u8>>,
        start: Coord,
        d: Direction,
        letters: Seq<Letter>,
    ) -> bool {
        &&& self.line_anchored(start, d, letters.len() as int)
        &&& self.tiles_placed(start, d, letters.len() as int) > 0
        &&& words.contains(alpha_indices(letters))
    }

    /// The solution for the letters laid so far, where they are a finished
    /// placement.
    pub open spec fn emit(
        self,
        words: Set<Seq<u8>>,
        start: Coord,
        d: Direction,
        letters: Seq<Letter>,
    ) -> Seq<SolutionModel> {
        if self.is_complete(words, start, d, letters) {
            seq![self.solution(start, d, letters)]
        } else {
            Seq::empty()
        }
    }

    /// The placements that continue the letters `prefix`, laid from `start`
    /// along `d`, with the tiles of `bag` left to lay.
    ///
    /// Off the board the line ends, and the letters so far are a solution
    /// where they are complete. A tile on the next cell is taken as it is,
    /// where some word goes on with it. On an empty cell the letters so far
    /// are a solution where they are complete, and every letter of the bag is
    /// tried in turn.
    pub open spec fn extend(
        self,
        words: Set<Seq<u8>>,
        start: Coord,
        d: Direction,
        prefix: Seq<Letter>,
        bag: Seq<(Letter, nat)>,
    ) -> Seq<SolutionModel>
        decreases self.line_room(start, d, prefix.len() as int), 4int, 0int,
    {
        let row = row_along(start.row as int, d, prefix.len() as int);
        let col = col_along(start.col as int, d, prefix.len() as int);
        if !self.contains(row, col) {
            self.emit(words, start, d, prefix)
        } else if self.letter_at(row, col) is Some {
            let l = self.letter_at(row, col)->0;
            if can_extend(words, alpha_indices(prefix.push(l))) {
                self.extend(words, start, d, prefix.push(l), bag)
            } else {
                Seq::empty()
            }
        } else {
            self.emit(words, start, d, prefix) + self.try_keys(
                words,
                start,
                d,
                prefix,
                bag,
                bag_keys(bag).len(),
            )
        }
    }

    /// The placements that lay a tile of one of the first `n` letters of the
    /// bag on the next cell.
    pub open spec fn try_keys(
        self,
        words: Set<Seq<u8>>,
        start: Coord,
        d: Direction,
        prefix: Seq<Letter>,
        bag: Seq<(Letter, nat)>,
        n: nat,
    ) -> Seq<SolutionModel>
        decreases self.line_room(start, d, prefix.len() as int), 3int, n,
    {
        if n == 0 {
            Seq::empty()
        } else {
            self.try_keys(words, start, d, prefix, bag, (n - 1) as nat) + self.try_key(
                words,
                start,
                d,
                prefix,
                bag,
                bag_keys(bag)[n - 1],
            )
        }
    }

    /// The placements that lay a tile of the bag's letter `key` on the next
    /// cell: the letter itself, or, for the wildcard, a blank that stands for
    /// any letter of the alphabet.
    pub open spec fn try_key(
        self,
        words: Set<Seq<u8>>,
        start: Coord,
        d: Direction,
        prefix: Seq<Letter>,
        bag: Seq<(Letter, nat)>,
        key: Letter,
    ) -> Seq<SolutionModel>
        decreases self.line_room(start, d, prefix.len() as int), 2int, 0int,
    {
        if key == WILDCARD_LETTER {
            self.try_blanks(words, start, d, prefix, bag, 26)
        } else {
            self.try_letter(words, start, d, prefix, bag, key, key)
        }
    }

    /// The placements that lay a blank on the next cell which stands for one
    /// of the first `n` letters of the alphabet.
    pub open spec fn try_blanks(
        self,
        words: Set<Seq<u8>>,
        start: Coord,
        d: Direction,
        prefix: Seq<Letter>,
        bag: Seq<(Letter, nat)>,
        n: nat,
    ) -> Seq<SolutionModel>
        decreases self.line_room(start, d, prefix.len() as int), 1int, n,
    {
        if n == 0 {
            Seq::empty()
        } else {
            self.try_blanks(words, start, d, prefix, bag, (n - 1) as nat) + self.try_letter(
                words,
                start,
                d,
                prefix,
                bag,
                WILDCARD_LETTER,
                blank_letter(n),
            )
        }
    }

    /// The placements that lay the tile `l`, taken from the bag as a tile of
    /// `key`, on the next cell: none where no word goes on with `l`, or where
    /// `l` forms something across the line that is no word.
    pub open spec fn try_letter(
        self,
        words: Set<Seq<u8>>,
        start: Coord,
        d: Direction,
        prefix: Seq<Letter>,
        bag: Seq<(Letter, nat)>,
        key: Letter,
        l: Letter,
    ) -> Seq<SolutionModel>
        decreases self.line_room(start, d, prefix.len() as int), 0int, 0int,
    {
        let row = row_along(start.row as int, d, prefix.len() as int);
        let col = col_along(start.col as int, d, prefix.len() as int);
        if self.contains(row, col) && can_extend(words, alpha_indices(prefix.push(l)))
            && self.cross_check(words, row, col, d.rotated(), l)
            != WordAroundValidation::InvalidWord {
            self.extend(words, start, d, prefix.push(l), bag_decrement(bag, key))
        } else {
            Seq::empty()
        }
    }

    /// The placements that start at `coord` and run along `d`: none where a
    /// tile lies right before `coord`, since a word never starts in the
    /// middle of a run of tiles.
    pub open spec fn plays_from(
        self,
        words: Set<Seq<u8>>,
        bag: Seq<(Letter, nat)>,
        coord: Coord,
        d: Direction,
    ) -> Seq<SolutionModel> {
        if self.occupied(row_along(coord.row as int, d, -1), col_along(coord.col as int, d, -1)) {
            Seq::empty()
        } else {
            self.extend(words, coord, d, Seq::empty(), bag)
        }
    }

    /// The placements that start in one of the first `ncols` cells of the
    /// row `row`: cell by cell, first those to the right, then those down.
    pub open spec fn row_plays(
        self,
        words: Set<Seq<u8>>,
        bag: Seq<(Letter, nat)>,
        row: int,
        ncols: nat,
    ) -> Seq<SolutionModel>
        decreases ncols,
    {
        if ncols == 0 {
            Seq::empty()
        } else {
            let coord = Coord { row: row as i32, col: (ncols - 1) as i32 };
            self.row_plays(words, bag, row, (ncols - 1) as nat) + self.plays_from(
                words,
                bag,
                coord,
                Direction::Right,
            ) + self.plays_from(words, bag, coord, Direction::Down)
        }
    }

    /// The placements that start in one of the first `nrows` rows.
    pub open spec fn rows_plays(
        self,
        words: Set<Seq<u8>>,
        bag: Seq<(Letter, nat)>,
        nrows: nat,
    ) -> Seq<SolutionModel>
        decreases nrows,
    {
        if nrows == 0 {
            Seq::empty()
        } else {
            self.rows_plays(words, bag, (nrows - 1) as nat) + self.row_plays(
                words,
                bag,
                nrows - 1,
                self.ncols,
            )
        }
    }

    /// All placements on the board, of words from `words` with the tiles of
    /// `bag`.
    pub open spec fn all_plays(self, words: Set<Seq<u8>>, bag: Seq<(Letter, nat)>) -> Seq<
        SolutionModel,
    > {
        self.rows_plays(words, bag, self.nrows)
    }
}

/// The models of two lists of solutions, one after the other, are the
/// models of the joined list.
pub proof fn lemma_solution_views_concat(a: Seq<ScrabbleSolution>, b: Seq<ScrabbleSolution>)
    ensures
        solution_views(a + b) == solution_views(a) + solution_views(b),
        solution_views(Seq::<ScrabbleSolution>::empty()) == Seq::<SolutionModel>::empty(),
{
    assert(solution_views(a + b) =~= solution_views(a) + solution_views(b));
    assert(solution_views(Seq::<ScrabbleSolution>::empty()) =~= Seq::<SolutionModel>::empty());
}

/// Taking a tile out of a bag whose letters can be laid leaves such a bag.
pub proof fn lemma_playable_decrement(m: Seq<(Letter, nat)>, l: Letter)
    requires
        bag_distinct(m),
        bag_playable(m),
    ensures
        bag_playable(bag_decrement(m, l)),
{
    let d = bag_decrement(m, l);
    lemma_bag_decrement(m, l);
    if bag_count(m, l) > 0 {
        let i = bag_index(m, l);
        assert(0 <= i < m.len() && m[i].0 == l);
        lemma_bag_entry(m, i);
        assert forall|k: int| 0 <= k < d.len() && (#[trigger] d[k]).1 > 0 implies is_alpha(d[k].0)
            || d[k].0 == WILDCARD_LETTER by {
            assert(d[k].0 == m[k].0);
            assert(m[k].1 > 0);
        }
    }
}

/// A key of a bag whose letters can be laid is a letter or the wildcard,
/// and the bag holds a tile of it.
pub proof fn lemma_key_playable(m: Seq<(Letter, nat)>, k: int)
    requires
        bag_distinct(m),
        bag_playable(m),
        0 <= k < bag_keys(m).len(),
    ensures
        bag_count(m, bag_keys(m)[k]) > 0,
        bag_total(m) > 0,
        is_alpha(bag_keys(m)[k]) || bag_keys(m)[k] == WILDCARD_LETTER,
{
    let key = bag_keys(m)[k];
    lemma_bag_keys(m);
    assert(bag_keys(m).contains(key));
    assert(bag_count(m, key) > 0);
    let i = bag_index(m, key);
    assert(0 <= i < m.len() && m[i].0 == key);
    crate::letter_bag::lemma_bag_total_bounds_entry(m, i);
}

/// The text that a sequence of tiles spells.
pub fn letters_to_string(letters: &Vec<Letter>) -> (s: String)
    ensures
        s@ == letters_text(letters@),
{
    let mut s = String::new();
    let mut i: usize = 0;
    while i < letters.len()
        invariant
            i <= letters@.len(),
            s@ == letters_text(letters@.take(i as int)),
        decreases letters@.len() - i,
    {
        push_char(&mut s, letters[i] as char);
        proof {
            assert(s@ =~= letters_text(letters@.take(i + 1)));
        }
        i += 1;
    }
    proof {
        assert(letters@.take(letters@.len() as int) =~= letters@);
    }
    s
}

/// The state of the search on its way along a line: the letters laid so
/// far, where the dictionary's tree stands after them, the tiles left, and
/// the score so far.
pub struct ScrabbleSolutionBuilder<'a> {
    word_so_far: Vec<Letter>,
    trie_ptr: DictionaryTrieNodePtr<'a>,
    letters_available: LetterBag,
    anchored: bool,
    letters_placed: u32,
    letter_score: u32,
    word_multiplier: u32,
    addon_score: u32,
}

impl<'a> ScrabbleSolutionBuilder<'a> {
    /// The letters laid so far.
    pub closed spec fn letters(&self) -> Seq<Letter> {
        self.word_so_far@
    }

    /// The tiles left to lay.
    pub closed spec fn bag(&self) -> Seq<(Letter, nat)> {
        self.letters_available@
    }

    /// The dictionary that the search runs on.
    pub closed spec fn dict(&self) -> DictionaryTrie {
        self.trie_ptr.trie()
    }

    /// Whether the letters so far are anchored.
    pub closed spec fn is_anchored(&self) -> bool {
        self.anchored
    }

    /// How many new tiles the letters so far lay.
    pub closed spec fn tiles(&self) -> nat {
        self.letters_placed as nat
    }

    /// The letter score so far.
    pub closed spec fn letter_points(&self) -> nat {
        self.letter_score as nat
    }

    /// The word factor so far.
    pub closed spec fn factor(&self) -> nat {
        self.word_multiplier as nat
    }

    /// The score of the crossing words so far.
    pub closed spec fn crossing_points(&self) -> nat {
        self.addon_score as nat
    }

    /// The state is in order by itself: the tree stands after the letters
    /// laid, which are ASCII letters, and no letter has two entries in the bag.
    pub closed spec fn wf(&self) -> bool {
        &&& self.trie_ptr.wf()
        &&& self.trie_ptr.prefix() == alpha_indices(self.word_so_far@)
        &&& self.letters_available.wf()
        &&& all_alpha(self.word_so_far@)
    }

    /// The state is the one of the letters laid so far, from `start` along
    /// `d` on `board`.
    pub open spec fn matches(&self, board: BoardModel, start: Coord, d: Direction) -> bool {
        let n = self.letters().len() as int;
        &&& self.wf()
        &&& self.is_anchored() == board.line_anchored(start, d, n)
        &&& self.tiles() == board.tiles_placed(start, d, n)
        &&& self.letter_points() == board.line_letter_score(start, d, self.letters())
        &&& self.factor() == board.line_word_factor(start, d, n)
        &&& self.crossing_points() == board.crossing_total(start, d, self.letters())
    }

    /// What the letters so far score: the letter score times the word
    /// factor, plus the crossing words, plus 50 for seven tiles or more.
    pub open spec fn final_score_spec(&self) -> nat {
        self.letter_points() * self.factor() + self.crossing_points() + if self.tiles() >= 7 {
            50nat
        } else {
            0nat
        }
    }

    /// The state before any letter is laid.
    pub fn new(letters_available: LetterBag, dict_trie: &'a DictionaryTrie) -> (b:
        ScrabbleSolutionBuilder<'a>)
        requires
            dict_trie.wf(),
            letters_available.wf(),
        ensures
            b.wf(),
            b.letters() == Seq::<Letter>::empty(),
            b.bag() == letters_available@,
            b.dict() == *dict_trie,
            !b.is_anchored(),
            b.tiles() == 0,
            b.letter_points() == 0,
            b.factor() == 1,
            b.crossing_points() == 0,
    {
        let b = ScrabbleSolutionBuilder {
            word_so_far: Vec::new(),
            trie_ptr: dict_trie.root(),
            letters_available,
            anchored: false,
            letters_placed: 0,
            letter_score: 0,
            word_multiplier: 1,
            addon_score: 0,
        };
        proof {
            assert(alpha_indices(b.word_so_far@) =~= Seq::<u8>::empty());
        }
        b
    }

    /// The score of the letters so far.
    pub fn final_score(&self) -> (score: u32)
        requires
            self.letter_points() * self.factor() + self.crossing_points() + 50 <= u32::MAX,
        ensures
            score == self.final_score_spec(),
    {
        proof {
            assert(0 <= self.letter_score * self.word_multiplier) by (nonlinear_arith);
        }
        self.letter_score * self.word_multiplier + self.addon_score + if self.letters_placed >= 7 {
            50
        } else {
            0
        }
    }

    /// The solution for the letters so far, which end right before
    /// `end_coord`.
    pub fn build(&self, dir: Direction, end_coord: Coord) -> (solution: ScrabbleSolution)
        requires
            self.letter_points() * self.factor() + self.crossing_points() + 50 <= u32::MAX,
            self.letters().len() <= i32::MAX,
            row_along(end_coord.row as int, dir, -(self.letters().len() as int)) >= i32::MIN,
            col_along(end_coord.col as int, dir, -(self.letters().len() as int)) >= i32::MIN,
        ensures
            solution@.word == letters_text(self.letters()),
            solution@.score == self.final_score_spec(),
            solution@.direction == dir,
            solution@.start_coord.row == row_along(
                end_coord.row as int,
                dir,
                -(self.letters().len() as int),
            ),
            solution@.start_coord.col == col_along(
                end_coord.col as int,
                dir,
                -(self.letters().len() as int),
            ),
    {
        let strlen = self.word_so_far.len() as i32;
        let start_coord = match dir {
            Direction::Right => Coord { row: end_coord.row, col: end_coord.col - strlen },
            Direction::Down => Coord { row: end_coord.row - strlen, col: end_coord.col },
        };
        ScrabbleSolution {
            word: letters_to_string(&self.word_so_far),
            score: self.final_score(),
            direction: dir,
            start_coord,
        }
    }

    /// Whether the letters so far are a finished placement: anchored, with
    /// at least one new tile, and a word of the dictionary.
    pub fn is_valid_solution(&self) -> (b: bool)
        requires
            self.wf(),
        ensures
            b == (self.is_anchored() && self.tiles() > 0 && self.dict()@.contains(
                alpha_indices(self.letters()),
            )),
    {
        self.anchored && (self.letters_placed > 0) && self.trie_ptr.is_word()
    }

    /// Where the dictionary's tree stands after one more letter, `l`; nothing
    /// where no word goes on with `l`.
    pub fn get_trie_child(&self, l: Letter) -> (r: Option<DictionaryTrieNodePtr<'a>>)
        requires
            self.wf(),
            is_alpha(l),
        ensures
            r is Some <==> can_extend(self.dict()@, alpha_indices(self.letters().push(l))),
            r matches Some(h) ==> h.wf() && h.trie() == self.dict() && h.prefix() == alpha_indices(
                self.letters().push(l),
            ),
    {
        proof {
            assert(alpha_indices(self.word_so_far@.push(l)) =~= alpha_indices(
                self.word_so_far@,
            ).push(alpha_idx(l)));
            self.trie_ptr.lemma_trie_wf();
            self.trie_ptr.trie().lemma_has_prefix(alpha_indices(self.word_so_far@.push(l)));
        }
        self.trie_ptr.get_child(l)
    }

    /// The dictionary that the search runs on.
    pub fn dict_trie(&self) -> (t: &'a DictionaryTrie)
        ensures
            *t == self.dict(),
            self.wf() ==> t.wf(),
    {
        proof {
            if self.wf() {
                self.trie_ptr.lemma_trie_wf();
            }
        }
        self.trie_ptr.dict_trie()
    }
}

/// A copy of a list of letters.
fn copy_letters(letters: &Vec<Letter>) -> (r: Vec<Letter>)
    ensures
        r@ == letters@,
{
    let mut r: Vec<Letter> = Vec::new();
    let mut i: usize = 0;
    while i < letters.len()
        invariant
            i <= letters@.len(),
            r@ == letters@.take(i as int),
        decreases letters@.len() - i,
    {
        r.push(letters[i]);
        proof {
            assert(r@ =~= letters@.take(i + 1));
        }
        i += 1;
    }
    proof {
        assert(letters@.take(letters@.len() as int) =~= letters@);
    }
    r
}

impl ScrabbleBoard {
    /// True exactly when the board and the bag are fit for a search: the
    /// tiles on the board are ASCII letters, the letters in the bag are ASCII
    /// letters or wildcards, and every score fits into 32 bits.
    pub fn can_search(&self, letters_available: &LetterBag) -> (b: bool)
        requires
            self.wf(),
        ensures
            b == (self@.letters_alphabetic() && bag_playable(letters_available@) && score_fits(
                self@.max_dim(),
                letters_available.total(),
            )),
    {
        if !self.has_only_letters() || !letters_available.is_playable() {
            return false;
        }
        let nrows = self.nrows();
        let ncols = self.ncols();
        let dim = if nrows >= ncols {
            nrows
        } else {
            ncols
        };
        let tiles = letters_available.total_up_to(21);
        proof {
            if letters_available.total() > 21 {
                crate::placement::lemma_pow3_monotonic(21, letters_available.total());
                assert(pow3(21) == 10460353203) by {
                    reveal_with_fuel(pow3, 22);
                }
                if score_fits(self@.max_dim(), letters_available.total()) {
                    crate::placement::lemma_score_fits_fewer(
                        self@.max_dim(),
                        21,
                        letters_available.total(),
                    );
                }
                if score_fits(self@.max_dim(), 21) {
                    crate::placement::lemma_score_fits_dim(self@.max_dim(), 21);
                    if self@.max_dim() == 0 {
                        assert(30 * self@.max_dim() * (pow3(letters_available.total())
                            + letters_available.total()) == 0) by (nonlinear_arith)
                            requires
                                self@.max_dim() == 0,
                        ;
                    }
                }
            }
        }
        crate::placement::scores_fit(dim, tiles)
    }

    /// Every placement on the board of a word of `dict` with the tiles of
    /// `letters_available`, or nothing where the board and the bag are not
    /// fit for a search.
    pub fn solve(&self, letters_available: &LetterBag, dict: &DictionaryTrie) -> (r: Option<
        Vec<ScrabbleSolution>,
    >)
        requires
            self.wf(),
            dict.wf(),
            letters_available.wf(),
        ensures
            r is Some <==> self@.letters_alphabetic() && bag_playable(letters_available@)
                && score_fits(self@.max_dim(), letters_available.total()),
            r matches Some(all) ==> solution_views(all@) == self@.all_plays(
                dict@,
                letters_available@,
            ),
            r matches Some(all) ==> forall|i: int|
                0 <= i < all@.len() ==> self@.is_solution_of_play(
                    dict@,
                    letters_available@,
                    (#[trigger] all@[i])@,
                ),
            r matches Some(all) ==> forall|start: Coord, d: Direction, letters: Seq<Letter>| #[trigger]
                self@.is_play(dict@, letters_available@, start, d, letters) ==> solution_views(
                    all@,
                ).contains(self@.solution(start, d, letters)),
            r matches Some(all) ==> (is_plain_bag(letters_available@) ==> solution_views(
                all@,
            ).no_duplicates()),
    {
        if self.can_search(letters_available) {
            Some(self.find_all_valid_words(letters_available, dict))
        } else {
            None
        }
    }

    /// Every placement on the board of a word of `dict` with the tiles of
    /// `letters_available`, each with its score: cell by cell, row after row,
    /// for each cell first the words to the right, then the words down.
    ///
    /// The tiles on the board must be ASCII letters, the letters in the bag
    /// ASCII letters or wildcards, and the board and the bag small enough for
    /// every score to fit into 32 bits.
    pub fn find_all_valid_words(&self, letters_available: &LetterBag, dict: &DictionaryTrie) -> (all:
        Vec<ScrabbleSolution>)
        requires
            self.wf(),
            dict.wf(),
            letters_available.wf(),
            self@.letters_alphabetic(),
            bag_playable(letters_available@),
            score_fits(self@.max_dim(), letters_available.total()),
        ensures
            solution_views(all@) == self@.all_plays(dict@, letters_available@),
            forall|i: int|
                0 <= i < all@.len() ==> self@.is_solution_of_play(
                    dict@,
                    letters_available@,
                    (#[trigger] all@[i])@,
                ),
            forall|start: Coord, d: Direction, letters: Seq<Letter>| #[trigger]
                self@.is_play(dict@, letters_available@, start, d, letters) ==> solution_views(
                    all@,
                ).contains(self@.solution(start, d, letters)) && self@.solution(
                    start,
                    d,
                    letters,
                ).score == self@.placement_score(start, d, letters),
            is_plain_bag(letters_available@) ==> solution_views(all@).no_duplicates(),
    {
        let ghost board = self@;
        let ghost words = dict@;
        let ghost bag = letters_available@;
        let mut all_solutions: Vec<ScrabbleSolution> = Vec::new();
        let nrows = self.nrows();
        let ncols = self.ncols();
        proof {
            self.lemma_view();
            lemma_solution_views_concat(Seq::empty(), Seq::empty());
        }
        let mut i: usize = 0;
        while i < nrows
            invariant
                self.wf(),
                dict.wf(),
                letters_available.wf(),
                board == self@,
                words == dict@,
                bag == letters_available@,
                board.letters_alphabetic(),
                bag_playable(bag),
                score_fits(board.max_dim(), bag_total(bag)),
                nrows == board.nrows,
                ncols == board.ncols,
                nrows <= i32::MAX,
                ncols <= i32::MAX,
                i <= nrows,
                solution_views(all_solutions@) == board.rows_plays(words, bag, i as nat),
            decreases nrows - i,
        {
            let mut j: usize = 0;
            while j < ncols
                invariant
                    self.wf(),
                    dict.wf(),
                    letters_available.wf(),
                    board == self@,
                    words == dict@,
                    bag == letters_available@,
                    board.letters_alphabetic(),
                    bag_playable(bag),
                    score_fits(board.max_dim(), bag_total(bag)),
                    nrows == board.nrows,
                    ncols == board.ncols,
                    nrows <= i32::MAX,
                    ncols <= i32::MAX,
                    i < nrows,
                    j <= ncols,
                    solution_views(all_solutions@) == board.rows_plays(words, bag, i as nat)
                        + board.row_plays(words, bag, i as int, j as nat),
                decreases ncols - j,
            {
                let coord = Coord::new(i as i32, j as i32);
                let ghost so_far = all_solutions@;
                let mut right = self.find_valid_words_coord(
                    coord,
                    Direction::Right,
                    letters_available.clone(),
                    dict,
                );
                let ghost right_found = right@;
                all_solutions.append(&mut right);
                let mut down = self.find_valid_words_coord(
                    coord,
                    Direction::Down,
                    letters_available.clone(),
                    dict,
                );
                let ghost down_found = down@;
                all_solutions.append(&mut down);
                proof {
                    lemma_solution_views_concat(so_far, right_found);
                    lemma_solution_views_concat(so_far + right_found, down_found);
                    assert(solution_views(all_solutions@) =~= board.rows_plays(words, bag, i as nat)
                        + board.row_plays(words, bag, i as int, (j + 1) as nat));
                }
                j += 1;
            }
            proof {
                assert(solution_views(all_solutions@) =~= board.rows_plays(
                    words,
                    bag,
                    (i + 1) as nat,
                ));
            }
            i += 1;
        }
        proof {
            assert forall|k: int| 0 <= k < all_solutions@.len() implies board.is_solution_of_play(
                words,
                bag,
                (#[trigger] all_solutions@[k])@,
            ) by {
                assert(solution_views(all_solutions@)[k] == all_solutions@[k]@);
                board.theorem_search_sound(words, bag, all_solutions@[k]@);
            }
            assert forall|start: Coord, d: Direction, letters: Seq<Letter>| #[trigger]
                board.is_play(words, bag, start, d, letters) implies solution_views(
                all_solutions@,
            ).contains(board.solution(start, d, letters)) && board.solution(start, d, letters).score
                == board.placement_score(start, d, letters) by {
                board.theorem_search_complete(words, bag, start, d, letters);
                board.lemma_play_score_exact(words, bag, start, d, letters);
            }
            if is_plain_bag(bag) {
                board.theorem_search_lists_each_play_once(words, bag);
            }
        }
        all_solutions
    }

    /// The placements that start at `coord` and run along `dir`: none where
    /// a tile lies right before `coord`.
    pub fn find_valid_words_coord(
        &self,
        coord: Coord,
        dir: Direction,
        letters_available: LetterBag,
        dict: &DictionaryTrie,
    ) -> (solutions: Vec<ScrabbleSolution>)
        requires
            self.wf(),
            dict.wf(),
            letters_available.wf(),
            self@.letters_alphabetic(),
            bag_playable(letters_available@),
            score_fits(self@.max_dim(), letters_available.total()),
            coord.row > i32::MIN,
            coord.col > i32::MIN,
        ensures
            solution_views(solutions@) == self@.plays_from(dict@, letters_available@, coord, dir),
            forall|i: int|
                0 <= i < solutions@.len() ==> self@.is_solution_of_play_at(
                    dict@,
                    letters_available@,
                    coord,
                    dir,
                    (#[trigger] solutions@[i])@,
                ),
            forall|letters: Seq<Letter>| #[trigger]
                self@.is_play(dict@, letters_available@, coord, dir, letters) ==> solution_views(
                    solutions@,
                ).contains(self@.solution(coord, dir, letters)),
    {
        let ghost board = self@;
        let ghost words = dict@;
        let ghost bag = letters_available@;
        proof {
            self.lemma_view();
        }
        let prev_coord = coord.prev(dir);
        let solutions = if self.is_coord_in_bounds(prev_coord) && self.letter(prev_coord).is_some() {
            // A word starts on a tile only if nothing comes before it.
            proof {
                lemma_solution_views_concat(Seq::empty(), Seq::empty());
            }
            Vec::new()
        } else {
            let solution_builder = ScrabbleSolutionBuilder::new(letters_available, dict);
            self.find_valid_words_coord_helper(coord, dir, solution_builder, Ghost(coord))
        };
        proof {
            assert forall|i: int| 0 <= i < solutions@.len() implies board.is_solution_of_play_at(
                words,
                bag,
                coord,
                dir,
                (#[trigger] solutions@[i])@,
            ) by {
                assert(solution_views(solutions@)[i] == solutions@[i]@);
                let letters = board.lemma_plays_from_sound(words, bag, coord, dir, solutions@[i]@);
                assert(board.is_play(words, bag, coord, dir, letters));
            }
            assert forall|letters: Seq<Letter>| #[trigger]
                board.is_play(words, bag, coord, dir, letters) implies solution_views(
                solutions@,
            ).contains(board.solution(coord, dir, letters)) by {
                board.lemma_plays_from_complete(words, bag, coord, dir, letters);
            }
        }
        solutions
    }

    /// Whether the search can go on from the state `st` onto the cell at
    /// `coord`: the state is the one of the letters laid from `start` along
    /// `dir`, which end right before `coord`; the tiles on the board and in
    /// the bag are letters; and the scores ahead fit into 32 bits.
    pub open spec fn ready(
        &self,
        st: &ScrabbleSolutionBuilder<'_>,
        coord: Coord,
        dir: Direction,
        start: Coord,
    ) -> bool {
        &&& self.wf()
        &&& self@.letters_alphabetic()
        &&& st.matches(self@, start, dir)
        &&& self@.line_on_board(start, dir, st.letters().len() as int)
        &&& coord.row == row_along(start.row as int, dir, st.letters().len() as int)
        &&& coord.col == col_along(start.col as int, dir, st.letters().len() as int)
        &&& bag_playable(st.bag())
        &&& score_fits(self@.max_dim(), st.tiles() + bag_total(st.bag()))
    }

    /// The placements that continue the letters laid so far onto the cell at
    /// `coord`, the next one along `dir`.
    fn find_valid_words_coord_helper(
        &self,
        coord: Coord,
        dir: Direction,
        solution_so_far: ScrabbleSolutionBuilder<'_>,
        Ghost(start): Ghost<Coord>,
    ) -> (solutions: Vec<ScrabbleSolution>)
        requires
            self.ready(&solution_so_far, coord, dir, start),
        ensures
            solution_views(solutions@) == self@.extend(
                solution_so_far.dict()@,
                start,
                dir,
                solution_so_far.letters(),
                solution_so_far.bag(),
            ),
        decreases self@.line_room(start, dir, solution_so_far.letters().len() as int), 3int,
    {
        let ghost board = self@;
        let ghost words = solution_so_far.dict()@;
        let ghost letters = solution_so_far.letters();
        let ghost bag = solution_so_far.bag();
        let ghost n = letters.len() as int;
        let ghost here = board.emit(words, start, dir, letters);
        let mut solutions: Vec<ScrabbleSolution> = Vec::new();
        proof {
            self.lemma_view();
            lemma_solution_views_concat(Seq::empty(), Seq::empty());
            if n > 0 {
                board.lemma_line_on_board(start, dir, n, 0);
            }
            board.lemma_placement_score_fits(
                start,
                dir,
                letters,
                solution_so_far.tiles() + bag_total(bag),
            );
            assert(solution_so_far.final_score_spec() == board.placement_score(start, dir, letters));
        }

        if !self.is_coord_in_bounds(coord) {
            // Off the board: the letters so far are a solution if they are complete.
            if solution_so_far.is_valid_solution() {
                let solution = solution_so_far.build(dir, coord);
                proof {
                    assert(solution@ == board.solution(start, dir, letters));
                }
                solutions.push(solution);
            }
            proof {
                assert(solution_views(solutions@) =~= here);
            }
            return solutions;
        }
        match self.letter(coord) {
            None => {
                // An empty cell: the word may end before it.
                if solution_so_far.is_valid_solution() {
                    let solution = solution_so_far.build(dir, coord);
                    proof {
                        assert(solution@ == board.solution(start, dir, letters));
                    }
                    solutions.push(solution);
                }
                proof {
                    assert(solution_views(solutions@) =~= here);
                }
                // Or go on with each letter at hand.
                let keys = solution_so_far.letters_available.keys();
                let mut k: usize = 0;
                while k < keys.len()
                    invariant
                        self.ready(&solution_so_far, coord, dir, start),
                        self.in_bounds(coord),
                        self@.letter_at(coord.row as int, coord.col as int) is None,
                        board == self@,
                        words == solution_so_far.dict()@,
                        letters == solution_so_far.letters(),
                        bag == solution_so_far.bag(),
                        here == board.emit(words, start, dir, letters),
                        k <= keys@.len(),
                        keys@ == bag_keys(bag),
                        solution_views(solutions@) == here + board.try_keys(
                            words,
                            start,
                            dir,
                            letters,
                            bag,
                            k as nat,
                        ),
                    decreases keys@.len() - k,
                {
                    let ghost before_key = solutions@;
                    let mut next_solutions = self.place_key(
                        coord,
                        dir,
                        &solution_so_far,
                        keys[k],
                        Ghost(start),
                        Ghost(k as int),
                    );
                    let ghost found = next_solutions@;
                    solutions.append(&mut next_solutions);
                    proof {
                        lemma_solution_views_concat(before_key, found);
                        let tried = board.try_keys(words, start, dir, letters, bag, k as nat);
                        let with_key = board.try_key(words, start, dir, letters, bag, keys@[k as int]);
                        assert(board.try_keys(words, start, dir, letters, bag, (k + 1) as nat)
                            == tried + with_key);
                        assert(solution_views(solutions@) =~= here + (tried + with_key));
                    }
                    k += 1;
                }
                solutions
            },
            Some(l) => self.take_board_tile(coord, dir, solution_so_far, l, Ghost(start)),
        }
    }

    /// The placements that go on over the tile `l`, which lies on the cell
    /// at `coord`: the word goes on with it or not at all.
    fn take_board_tile(
        &self,
        coord: Coord,
        dir: Direction,
        solution_so_far: ScrabbleSolutionBuilder<'_>,
        l: Letter,
        Ghost(start): Ghost<Coord>,
    ) -> (solutions: Vec<ScrabbleSolution>)
        requires
            self.ready(&solution_so_far, coord, dir, start),
            self.in_bounds(coord),
            self@.letter_at(coord.row as int, coord.col as int) == Some(l),
        ensures
            solution_views(solutions@) == self@.extend(
                solution_so_far.dict()@,
                start,
                dir,
                solution_so_far.letters(),
                solution_so_far.bag(),
            ),
        decreases self@.line_room(start, dir, solution_so_far.letters().len() as int), 0int,
    {
        let ghost board = self@;
        let ghost letters = solution_so_far.letters();
        let ghost bag = solution_so_far.bag();
        let ghost n = letters.len() as int;
        let ghost next_letters = letters.push(l);
        let ghost tiles = solution_so_far.tiles() + bag_total(bag);
        let ghost row = coord.row as int;
        let ghost col = coord.col as int;
        proof {
            self.lemma_view();
            lemma_solution_views_concat(Seq::empty(), Seq::empty());
            assert(is_alpha(l));
        }
        let next_trie_child = solution_so_far.get_trie_child(l);
        match next_trie_child {
            Some(next_trie_node) => {
                proof {
                    assert(next_letters.drop_last() =~= letters);
                    assert(next_letters.last() == l);
                    assert(board.line_on_board(start, dir, n + 1));
                    board.lemma_placement_score_fits(start, dir, next_letters, tiles);
                    crate::placement::lemma_score_fits_dim(board.max_dim(), tiles);
                    assert(board.line_letter_score(start, dir, next_letters)
                        == board.line_letter_score(start, dir, letters) + board.tile_score(
                        row,
                        col,
                        l,
                    ));
                    assert(board.cell_word_factor(row, col) == 1);
                    assert(board.line_word_factor(start, dir, n + 1) == board.line_word_factor(
                        start,
                        dir,
                        n,
                    )) by (nonlinear_arith)
                        requires
                            board.line_word_factor(start, dir, n + 1) == board.line_word_factor(
                                start,
                                dir,
                                n,
                            ) * 1,
                    ;
                }
                let mut next_word_so_far = copy_letters(&solution_so_far.word_so_far);
                next_word_so_far.push(l);
                let next_solution_builder = ScrabbleSolutionBuilder {
                    word_so_far: next_word_so_far,
                    trie_ptr: next_trie_node,
                    letters_available: solution_so_far.letters_available.clone(),
                    anchored: true,
                    letters_placed: solution_so_far.letters_placed,
                    addon_score: solution_so_far.addon_score,
                    letter_score: solution_so_far.letter_score + scrabble_letter_score(l),
                    word_multiplier: solution_so_far.word_multiplier,
                };
                self.find_valid_words_coord_helper(
                    coord.next(dir),
                    dir,
                    next_solution_builder,
                    Ghost(start),
                )
            },
            None => Vec::new(),
        }
    }

    /// The placements that lay a tile of the bag's letter `bag_letter`, its
    /// `k`th key, on the empty cell at `coord`: the letter itself, or, for the
    /// wildcard, a blank for each letter of the alphabet, written in upper
    /// case.
    fn place_key(
        &self,
        coord: Coord,
        dir: Direction,
        solution_so_far: &ScrabbleSolutionBuilder<'_>,
        bag_letter: Letter,
        Ghost(start): Ghost<Coord>,
        Ghost(k): Ghost<int>,
    ) -> (solutions: Vec<ScrabbleSolution>)
        requires
            self.ready(solution_so_far, coord, dir, start),
            self.in_bounds(coord),
            self@.letter_at(coord.row as int, coord.col as int) is None,
            0 <= k < bag_keys(solution_so_far.bag()).len(),
            bag_letter == bag_keys(solution_so_far.bag())[k],
        ensures
            solution_views(solutions@) == self@.try_key(
                solution_so_far.dict()@,
                start,
                dir,
                solution_so_far.letters(),
                solution_so_far.bag(),
                bag_letter,
            ),
        decreases self@.line_room(start, dir, solution_so_far.letters().len() as int), 2int,
    {
        let ghost board = self@;
        let ghost words = solution_so_far.dict()@;
        let ghost letters = solution_so_far.letters();
        let ghost bag = solution_so_far.bag();
        proof {
            lemma_key_playable(bag, k);
            lemma_solution_views_concat(Seq::empty(), Seq::empty());
        }
        if bag_letter == WILDCARD_LETTER {
            let mut solutions: Vec<ScrabbleSolution> = Vec::new();
            let mut b: u8 = 0;
            while b < 26
                invariant
                    self.ready(solution_so_far, coord, dir, start),
                    self.in_bounds(coord),
                    self@.letter_at(coord.row as int, coord.col as int) is None,
                    bag_count(solution_so_far.bag(), bag_letter) > 0,
                    bag_total(solution_so_far.bag()) > 0,
                    bag_letter == WILDCARD_LETTER,
                    board == self@,
                    words == solution_so_far.dict()@,
                    letters == solution_so_far.letters(),
                    bag == solution_so_far.bag(),
                    b <= 26,
                    solution_views(solutions@) == board.try_blanks(
                        words,
                        start,
                        dir,
                        letters,
                        bag,
                        b as nat,
                    ),
                decreases 26 - b,
            {
                let l: u8 = 65 + b;
                let ghost before_letter = solutions@;
                let mut next_solutions = self.place_letter(
                    coord,
                    dir,
                    solution_so_far,
                    bag_letter,
                    l,
                    Ghost(start),
                );
                let ghost found = next_solutions@;
                solutions.append(&mut next_solutions);
                proof {
                    lemma_solution_views_concat(before_letter, found);
                    assert(l == blank_letter((b + 1) as nat));
                    assert(board.try_blanks(words, start, dir, letters, bag, (b + 1) as nat)
                        == board.try_blanks(words, start, dir, letters, bag, b as nat)
                        + board.try_letter(words, start, dir, letters, bag, WILDCARD_LETTER, l));
                }
                b += 1;
            }
            solutions
        } else {
            self.place_letter(coord, dir, solution_so_far, bag_letter, bag_letter, Ghost(start))
        }
    }

    /// The placements that lay the tile `l`, taken from the bag as a tile of
    /// `bag_letter`, on the empty cell at `coord` and go on from there.
    fn place_letter(
        &self,
        coord: Coord,
        dir: Direction,
        solution_so_far: &ScrabbleSolutionBuilder<'_>,
        bag_letter: Letter,
        l: Letter,
        Ghost(start): Ghost<Coord>,
    ) -> (solutions: Vec<ScrabbleSolution>)
        requires
            self.ready(solution_so_far, coord, dir, start),
            self.in_bounds(coord),
            self@.letter_at(coord.row as int, coord.col as int) is None,
            bag_count(solution_so_far.bag(), bag_letter) > 0,
            bag_total(solution_so_far.bag()) > 0,
            is_alpha(l),
        ensures
            solution_views(solutions@) == self@.try_letter(
                solution_so_far.dict()@,
                start,
                dir,
                solution_so_far.letters(),
                solution_so_far.bag(),
                bag_letter,
                l,
            ),
        decreases self@.line_room(start, dir, solution_so_far.letters().len() as int), 1int,
    {
        let ghost board = self@;
        let ghost words = solution_so_far.dict()@;
        let ghost letters = solution_so_far.letters();
        let ghost bag = solution_so_far.bag();
        let ghost n = letters.len() as int;
        let ghost next_letters = letters.push(l);
        let ghost tiles = solution_so_far.tiles() + bag_total(bag);
        let ghost row = coord.row as int;
        let ghost col = coord.col as int;
        let mut solutions: Vec<ScrabbleSolution> = Vec::new();
        proof {
            self.lemma_view();
            lemma_solution_views_concat(Seq::empty(), Seq::empty());
            assert(next_letters.drop_last() =~= letters);
            assert(board.line_on_board(start, dir, n + 1));
            board.lemma_placement_score_fits(start, dir, next_letters, tiles);
            board.lemma_placement_score_fits(start, dir, letters, tiles);
            board.lemma_cross_word(row, col, dir.rotated(), l);
            lemma_bag_decrement(bag, bag_letter);
            lemma_playable_decrement(bag, bag_letter);
            crate::placement::lemma_score_fits_dim(board.max_dim(), tiles);
        }
        // The dictionary knows no case; the tile keeps its own.
        let next_trie_child = solution_so_far.get_trie_child(to_lowercase(l));
        proof {
            assert(alpha_indices(letters.push(lowered(l))) =~= alpha_indices(next_letters));
        }
        let (added_letter_score, extra_word_multiplier) = placement_scores(self.modifier(coord), l);
        match next_trie_child {
            Some(next_trie_node) => {
                // Some word goes on with this letter: look across the line.
                let (has_anchor, addon_score) = match self.validate_word_around(
                    solution_so_far.dict_trie(),
                    coord,
                    dir.rotate(),
                    l,
                ) {
                    WordAroundValidation::InvalidWord => {
                        return solutions;
                    },
                    WordAroundValidation::NothingAround => (false, 0),
                    WordAroundValidation::ValidWordScore(score) => (true, score),
                };
                proof {
                    assert(has_anchor == board.touched(row, col, dir.rotated()));
                    assert(addon_score == board.cross_points(row, col, dir.rotated(), l));
                    assert(added_letter_score == board.tile_score(row, col, l));
                    assert(extra_word_multiplier == board.cell_word_factor(row, col));
                }
                let mut next_word_so_far = copy_letters(&solution_so_far.word_so_far);
                next_word_so_far.push(l);
                let next_letters_available = solution_so_far.letters_available.decremented(
                    bag_letter,
                );
                let next_solution_builder = ScrabbleSolutionBuilder {
                    word_so_far: next_word_so_far,
                    trie_ptr: next_trie_node,
                    letters_available: next_letters_available,
                    anchored: solution_so_far.anchored || self.is_middle(coord) || has_anchor,
                    letters_placed: solution_so_far.letters_placed + 1,
                    addon_score: solution_so_far.addon_score + addon_score,
                    letter_score: solution_so_far.letter_score + added_letter_score,
                    word_multiplier: solution_so_far.word_multiplier * extra_word_multiplier,
                };
                self.find_valid_words_coord_helper(
                    coord.next(dir),
                    dir,
                    next_solution_builder,
                    Ghost(start),
                )
            },
            None => solutions,
        }
    }
}

} // verus!
