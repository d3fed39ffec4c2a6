//! What a legal play is, and that the search finds exactly the legal plays.
//!
//! [`BoardModel::is_play`] says, without reference to any search, when a
//! word laid from a start cell along a direction is a legal play. The
//! theorems of this module show that the solutions which
//! [`BoardModel::all_plays`] lists are the solutions of the legal plays, all
//! of them and no others, and each of them once where the bag holds
//! lower-case letters and wildcards only.

use crate::board::BoardModel;
use crate::board::WordAroundValidation;
use crate::dictionary::can_extend;
use crate::grid::col_along;
use crate::grid::row_along;
use crate::grid::Coord;
use crate::letter_bag::bag_count;
use crate::letter_bag::bag_decrement;
use crate::letter_bag::bag_distinct;
use crate::letter_bag::bag_keys;
use crate::letter_bag::bag_total;
use crate::placement::letters_text;
use crate::placement::score_fits;
use crate::util::is_alpha;
use crate::util::lowered;
use crate::letter_bag::lemma_bag_decrement;
use crate::letter_bag::lemma_bag_keys;
use crate::placement::SolutionModel;
use crate::search::blank_letter;
use crate::util::alpha_indices;
use crate::util::is_lower;
use crate::util::is_upper;
use crate::util::Direction;
use crate::util::Letter;
use crate::util::WILDCARD_LETTER;
use vstd::prelude::*;

verus! {

/// Whether a tile taken from the bag as a tile of `key` can be laid as
/// `tile`: a wildcard as any upper-case letter, every other tile as itself.
pub open spec fn shows(key: Letter, tile: Letter) -> bool {
    if key == WILDCARD_LETTER {
        is_upper(tile)
    } else {
        tile == key
    }
}

/// Whether the tiles `tiles` can be taken out of `bag` one after another.
pub open spec fn can_draw(bag: Seq<(Letter, nat)>, tiles: Seq<Letter>) -> bool
    decreases tiles.len(),
{
    tiles.len() == 0 || exists|key: Letter|
        bag_count(bag, key) > 0 && #[trigger] shows(key, tiles[0]) && can_draw(
            bag_decrement(bag, key),
            tiles.drop_first(),
        )
}

/// How often the tile `l` occurs among `tiles`.
pub open spec fn occurrences(tiles: Seq<Letter>, l: Letter) -> nat
    decreases tiles.len(),
{
    if tiles.len() == 0 {
        0
    } else {
        occurrences(tiles.drop_first(), l) + if tiles[0] == l {
            1nat
        } else {
            0nat
        }
    }
}

/// How many of `tiles` are blanks, that is, upper-case letters.
pub open spec fn blanks(tiles: Seq<Letter>) -> nat
    decreases tiles.len(),
{
    if tiles.len() == 0 {
        0
    } else {
        blanks(tiles.drop_first()) + if is_upper(tiles[0]) {
            1nat
        } else {
            0nat
        }
    }
}

/// Whether the bag holds tiles of lower-case letters and wildcards only.
pub open spec fn is_plain_bag(bag: Seq<(Letter, nat)>) -> bool {
    forall|i: int|
        0 <= i < bag.len() && (#[trigger] bag[i]).1 > 0 ==> is_lower(bag[i].0) || bag[i].0
            == WILDCARD_LETTER
}

/// Whether the bag holds enough for `tiles`: they are letters, no
/// lower-case letter occurs among them more often than in the bag, and the
/// blanks among them are no more than the wildcards in the bag.
pub open spec fn within_bag(bag: Seq<(Letter, nat)>, tiles: Seq<Letter>) -> bool {
    &&& forall|i: int| 0 <= i < tiles.len() ==> is_alpha(#[trigger] tiles[i])
    &&& forall|l: Letter| is_lower(l) ==> #[trigger] occurrences(tiles, l) <= bag_count(bag, l)
    &&& blanks(tiles) <= bag_count(bag, WILDCARD_LETTER)
}

/// Out of a bag of lower-case letters and wildcards, tiles can be taken
/// one after another exactly when the bag holds enough for them.
pub proof fn lemma_can_draw_is_within_bag(bag: Seq<(Letter, nat)>, tiles: Seq<Letter>)
    requires
        bag_distinct(bag),
        is_plain_bag(bag),
    ensures
        can_draw(bag, tiles) <==> within_bag(bag, tiles),
    decreases tiles.len(),
{
    if tiles.len() > 0 {
        let t = tiles[0];
        let rest = tiles.drop_first();
        assert forall|key: Letter|
            bag_count(bag, key) > 0 implies (can_draw(bag_decrement(bag, key), rest)
                <==> within_bag(#[trigger] bag_decrement(bag, key), rest)) && (is_lower(key) || key
                == WILDCARD_LETTER) by {
            lemma_bag_decrement(bag, key);
            let i = crate::letter_bag::bag_index(bag, key);
            assert(0 <= i < bag.len() && bag[i].0 == key);
            crate::letter_bag::lemma_bag_entry(bag, i);
            let less = bag_decrement(bag, key);
            assert forall|k: int| 0 <= k < less.len() && (#[trigger] less[k]).1 > 0 implies is_lower(
                less[k].0,
            ) || less[k].0 == WILDCARD_LETTER by {
                assert(less[k].0 == bag[k].0);
                assert(bag[k].1 > 0);
            }
            lemma_can_draw_is_within_bag(less, rest);
        }
        if can_draw(bag, tiles) {
            let key = choose|key: Letter|
                bag_count(bag, key) > 0 && #[trigger] shows(key, tiles[0]) && can_draw(
                    bag_decrement(bag, key),
                    tiles.drop_first(),
                );
            let less = bag_decrement(bag, key);
            lemma_bag_decrement(bag, key);
            assert(within_bag(less, rest));
            assert forall|i: int| 0 <= i < tiles.len() implies is_alpha(#[trigger] tiles[i]) by {
                if i > 0 {
                    assert(tiles[i] == rest[i - 1]);
                }
            }
            assert forall|l: Letter| is_lower(l) implies #[trigger] occurrences(tiles, l)
                <= bag_count(bag, l) by {
                assert(occurrences(rest, l) <= bag_count(less, l));
            }
        }
        if within_bag(bag, tiles) {
            assert(is_alpha(tiles[0]));
            let key = if is_lower(t) {
                t
            } else {
                WILDCARD_LETTER
            };
            assert(occurrences(tiles, t) >= 1);
            assert(bag_count(bag, key) > 0);
            let less = bag_decrement(bag, key);
            lemma_bag_decrement(bag, key);
            assert forall|i: int| 0 <= i < rest.len() implies is_alpha(#[trigger] rest[i]) by {
                assert(rest[i] == tiles[i + 1]);
            }
            assert forall|l: Letter| is_lower(l) implies #[trigger] occurrences(rest, l)
                <= bag_count(less, l) by {
                assert(occurrences(tiles, l) <= bag_count(bag, l));
            }
            assert(within_bag(less, rest));
            assert(shows(key, tiles[0]));
            assert(can_draw(bag, tiles));
        }
    } else {
        assert forall|l: Letter| is_lower(l) implies #[trigger] occurrences(tiles, l) <= bag_count(
            bag,
            l,
        ) by {}
    }
}

/// A sequence made of two holds what either of them holds.
pub proof fn lemma_concat_contains<A>(a: Seq<A>, b: Seq<A>, x: A)
    ensures
        (a + b).contains(x) <==> a.contains(x) || b.contains(x),
{
    if (a + b).contains(x) {
        let i = choose|i: int| 0 <= i < (a + b).len() && (a + b)[i] == x;
        if i < a.len() {
            assert(a[i] == x);
        } else {
            assert(b[i - a.len()] == x);
        }
    }
    if a.contains(x) {
        let i = choose|i: int| 0 <= i < a.len() && a[i] == x;
        assert((a + b)[i] == x);
    }
    if b.contains(x) {
        let i = choose|i: int| 0 <= i < b.len() && b[i] == x;
        assert((a + b)[a.len() + i] == x);
    }
}

impl BoardModel {
    /// Whether the `k`th letter of `letters` can lie on the `k`th cell of
    /// the line: the cell is on the board; a tile that lies there is that
    /// letter; a new tile forms at most a word of `words` across the line.
    pub open spec fn cell_accepts(
        self,
        words: Set<Seq<u8>>,
        start: Coord,
        d: Direction,
        letters: Seq<Letter>,
        k: int,
    ) -> bool {
        let row = row_along(start.row as int, d, k);
        let col = col_along(start.col as int, d, k);
        self.contains(row, col) && match self.letter_at(row, col) {
            Some(tile) => letters[k] == tile,
            None => self.cross_check(words, row, col, d.rotated(), letters[k])
                != WordAroundValidation::InvalidWord,
        }
    }

    /// The new tiles that `letters` lays from its `from`th letter on: the
    /// letters on empty cells, in order.
    pub open spec fn new_tiles(self, start: Coord, d: Direction, letters: Seq<Letter>, from: int) -> Seq<
        Letter,
    >
        decreases letters.len() - from,
    {
        if from >= letters.len() || from < 0 {
            Seq::empty()
        } else {
            let rest = self.new_tiles(start, d, letters, from + 1);
            if self.occupied(
                row_along(start.row as int, d, from),
                col_along(start.col as int, d, from),
            ) {
                rest
            } else {
                seq![letters[from]] + rest
            }
        }
    }

    /// Whether the letters of `letters` from the `from`th on can be laid,
    /// with the tiles of `bag`, so that the whole is a legal word: no tile
    /// lies right after the word; each of these letters can lie on its cell;
    /// the word is in the dictionary, is anchored and lays at least one new
    /// tile; and the new tiles among these letters can be taken out of the bag.
    pub open spec fn finishes(
        self,
        words: Set<Seq<u8>>,
        start: Coord,
        d: Direction,
        letters: Seq<Letter>,
        bag: Seq<(Letter, nat)>,
        from: int,
    ) -> bool {
        let n = letters.len() as int;
        &&& !self.occupied(row_along(start.row as int, d, n), col_along(start.col as int, d, n))
        &&& forall|k: int|
            from <= k < n ==> #[trigger] self.cell_accepts(words, start, d, letters, k)
        &&& self.is_complete(words, start, d, letters)
        &&& can_draw(bag, self.new_tiles(start, d, letters, from))
    }

    /// Whether `letters`, laid from `start` along `d`, are a legal play of a
    /// word of `words` with tiles from `bag`:
    /// no tile lies right before the word or right after it; every letter
    /// can lie on its cell; the word is in the dictionary, is anchored and
    /// lays at least one new tile; and the new tiles can be taken out of the
    /// bag.
    pub open spec fn is_play(
        self,
        words: Set<Seq<u8>>,
        bag: Seq<(Letter, nat)>,
        start: Coord,
        d: Direction,
        letters: Seq<Letter>,
    ) -> bool {
        &&& !self.occupied(row_along(start.row as int, d, -1), col_along(start.col as int, d, -1))
        &&& self.finishes(words, start, d, letters, bag, 0)
    }

    /// Whether `sol` is the solution of a legal play from `start` along `d`.
    pub open spec fn is_solution_of_play_at(
        self,
        words: Set<Seq<u8>>,
        bag: Seq<(Letter, nat)>,
        start: Coord,
        d: Direction,
        sol: SolutionModel,
    ) -> bool {
        exists|letters: Seq<Letter>|
            #[trigger] self.is_play(words, bag, start, d, letters) && sol == self.solution(
                start,
                d,
                letters,
            )
    }

    /// Whether `sol` is the solution of a legal play.
    pub open spec fn is_solution_of_play(
        self,
        words: Set<Seq<u8>>,
        bag: Seq<(Letter, nat)>,
        sol: SolutionModel,
    ) -> bool {
        exists|start: Coord, d: Direction, letters: Seq<Letter>|
            #[trigger] self.is_play(words, bag, start, d, letters) && sol == self.solution(
                start,
                d,
                letters,
            )
    }

    /// The placements that start at the cell at `row`, `col` and run along
    /// `d`.
    pub open spec fn cell_plays(
        self,
        words: Set<Seq<u8>>,
        bag: Seq<(Letter, nat)>,
        row: int,
        col: int,
        d: Direction,
    ) -> Seq<SolutionModel> {
        self.plays_from(words, bag, Coord { row: row as i32, col: col as i32 }, d)
    }

    /// Whether the letters `suffix` finish the letters `prefix` to a legal
    /// word, with the tiles of `bag` left to lay: letter by letter, each on
    /// the next cell of the line.
    pub open spec fn completes(
        self,
        words: Set<Seq<u8>>,
        start: Coord,
        d: Direction,
        prefix: Seq<Letter>,
        bag: Seq<(Letter, nat)>,
        suffix: Seq<Letter>,
    ) -> bool
        decreases suffix.len(),
    {
        let row = row_along(start.row as int, d, prefix.len() as int);
        let col = col_along(start.col as int, d, prefix.len() as int);
        if suffix.len() == 0 {
            !self.occupied(row, col) && self.is_complete(words, start, d, prefix)
        } else {
            let l = suffix[0];
            self.contains(row, col) && match self.letter_at(row, col) {
                Some(tile) => l == tile && self.completes(
                    words,
                    start,
                    d,
                    prefix.push(l),
                    bag,
                    suffix.drop_first(),
                ),
                None => self.cross_check(words, row, col, d.rotated(), l)
                    != WordAroundValidation::InvalidWord && exists|key: Letter|
                    bag_count(bag, key) > 0 && #[trigger] shows(key, l) && self.completes(
                        words,
                        start,
                        d,
                        prefix.push(l),
                        bag_decrement(bag, key),
                        suffix.drop_first(),
                    ),
            }
        }
    }

    /// Letters that finish others to a legal word finish them to a word of
    /// the dictionary.
    pub proof fn lemma_completes_word(
        self,
        words: Set<Seq<u8>>,
        start: Coord,
        d: Direction,
        prefix: Seq<Letter>,
        bag: Seq<(Letter, nat)>,
        suffix: Seq<Letter>,
    )
        requires
            self.completes(words, start, d, prefix, bag, suffix),
        ensures
            words.contains(alpha_indices(prefix + suffix)),
        decreases suffix.len(),
    {
        let row = row_along(start.row as int, d, prefix.len() as int);
        let col = col_along(start.col as int, d, prefix.len() as int);
        if suffix.len() == 0 {
            assert(prefix + suffix =~= prefix);
        } else {
            let l = suffix[0];
            assert(prefix.push(l) + suffix.drop_first() =~= prefix + suffix);
            match self.letter_at(row, col) {
                Some(tile) => {
                    self.lemma_completes_word(
                        words,
                        start,
                        d,
                        prefix.push(l),
                        bag,
                        suffix.drop_first(),
                    );
                },
                None => {
                    let key = choose|key: Letter|
                        bag_count(bag, key) > 0 && #[trigger] shows(key, l) && self.completes(
                            words,
                            start,
                            d,
                            prefix.push(l),
                            bag_decrement(bag, key),
                            suffix.drop_first(),
                        );
                    self.lemma_completes_word(
                        words,
                        start,
                        d,
                        prefix.push(l),
                        bag_decrement(bag, key),
                        suffix.drop_first(),
                    );
                },
            }
        }
    }

    /// Every solution that the search finds beyond the letters `prefix`
    /// belongs to letters that finish `prefix` to a legal word.
    pub proof fn lemma_extend_sound(
        self,
        words: Set<Seq<u8>>,
        start: Coord,
        d: Direction,
        prefix: Seq<Letter>,
        bag: Seq<(Letter, nat)>,
        sol: SolutionModel,
    ) -> (suffix: Seq<Letter>)
        requires
            bag_distinct(bag),
            self.extend(words, start, d, prefix, bag).contains(sol),
        ensures
            self.completes(words, start, d, prefix, bag, suffix),
            sol == self.solution(start, d, prefix + suffix),
        decreases self.line_room(start, d, prefix.len() as int), 4int, 0int,
    {
        let row = row_along(start.row as int, d, prefix.len() as int);
        let col = col_along(start.col as int, d, prefix.len() as int);
        let here = self.emit(words, start, d, prefix);
        if !self.contains(row, col) {
            assert(here.contains(sol));
            assert(prefix + Seq::<Letter>::empty() =~= prefix);
            Seq::empty()
        } else if self.letter_at(row, col) is Some {
            let l = self.letter_at(row, col)->0;
            let rest = self.lemma_extend_sound(words, start, d, prefix.push(l), bag, sol);
            let suffix = seq![l] + rest;
            assert(suffix.drop_first() =~= rest);
            assert(prefix.push(l) + rest =~= prefix + suffix);
            suffix
        } else {
            let tried = self.try_keys(words, start, d, prefix, bag, bag_keys(bag).len());
            lemma_concat_contains(here, tried, sol);
            if here.contains(sol) {
                assert(prefix + Seq::<Letter>::empty() =~= prefix);
                Seq::empty()
            } else {
                self.lemma_try_keys_sound(words, start, d, prefix, bag, bag_keys(bag).len(), sol).0
            }
        }
    }

    /// The same for the solutions found with one of the first `n` letters
    /// of the bag on the next cell.
    pub proof fn lemma_try_keys_sound(
        self,
        words: Set<Seq<u8>>,
        start: Coord,
        d: Direction,
        prefix: Seq<Letter>,
        bag: Seq<(Letter, nat)>,
        n: nat,
        sol: SolutionModel,
    ) -> (found: (Seq<Letter>, int))
        requires
            bag_distinct(bag),
            n <= bag_keys(bag).len(),
            self.letter_at(
                row_along(start.row as int, d, prefix.len() as int),
                col_along(start.col as int, d, prefix.len() as int),
            ) is None,
            self.try_keys(words, start, d, prefix, bag, n).contains(sol),
        ensures
            self.completes(words, start, d, prefix, bag, found.0),
            sol == self.solution(start, d, prefix + found.0),
            found.0.len() > 0,
            0 <= found.1 < n,
            shows(bag_keys(bag)[found.1], found.0[0]),
        decreases self.line_room(start, d, prefix.len() as int), 3int, n,
    {
        if n == 0 {
            (Seq::empty(), 0)
        } else {
            let key = bag_keys(bag)[n - 1];
            let before = self.try_keys(words, start, d, prefix, bag, (n - 1) as nat);
            let with_key = self.try_key(words, start, d, prefix, bag, key);
            lemma_concat_contains(before, with_key, sol);
            if before.contains(sol) {
                self.lemma_try_keys_sound(words, start, d, prefix, bag, (n - 1) as nat, sol)
            } else {
                lemma_bag_keys(bag);
                assert(bag_keys(bag).contains(key));
                if key == WILDCARD_LETTER {
                    (self.lemma_try_blanks_sound(words, start, d, prefix, bag, 26, sol), n - 1)
                } else {
                    (self.lemma_try_letter_sound(words, start, d, prefix, bag, key, key, sol), n - 1)
                }
            }
        }
    }

    /// The same for the solutions found with a blank on the next cell.
    pub proof fn lemma_try_blanks_sound(
        self,
        words: Set<Seq<u8>>,
        start: Coord,
        d: Direction,
        prefix: Seq<Letter>,
        bag: Seq<(Letter, nat)>,
        n: nat,
        sol: SolutionModel,
    ) -> (suffix: Seq<Letter>)
        requires
            bag_distinct(bag),
            n <= 26,
            bag_count(bag, WILDCARD_LETTER) > 0,
            self.letter_at(
                row_along(start.row as int, d, prefix.len() as int),
                col_along(start.col as int, d, prefix.len() as int),
            ) is None,
            self.try_blanks(words, start, d, prefix, bag, n).contains(sol),
        ensures
            self.completes(words, start, d, prefix, bag, suffix),
            sol == self.solution(start, d, prefix + suffix),
            suffix.len() > 0,
            65 <= suffix[0] <= 64 + n,
        decreases self.line_room(start, d, prefix.len() as int), 1int, n,
    {
        if n == 0 {
            Seq::empty()
        } else {
            let before = self.try_blanks(words, start, d, prefix, bag, (n - 1) as nat);
            let with_letter = self.try_letter(
                words,
                start,
                d,
                prefix,
                bag,
                WILDCARD_LETTER,
                blank_letter(n),
            );
            lemma_concat_contains(before, with_letter, sol);
            if before.contains(sol) {
                self.lemma_try_blanks_sound(words, start, d, prefix, bag, (n - 1) as nat, sol)
            } else {
                self.lemma_try_letter_sound(
                    words,
                    start,
                    d,
                    prefix,
                    bag,
                    WILDCARD_LETTER,
                    blank_letter(n),
                    sol,
                )
            }
        }
    }

    /// The same for the solutions found with the tile `l` on the next cell.
    pub proof fn lemma_try_letter_sound(
        self,
        words: Set<Seq<u8>>,
        start: Coord,
        d: Direction,
        prefix: Seq<Letter>,
        bag: Seq<(Letter, nat)>,
        key: Letter,
        l: Letter,
        sol: SolutionModel,
    ) -> (suffix: Seq<Letter>)
        requires
            bag_distinct(bag),
            bag_count(bag, key) > 0,
            shows(key, l),
            self.letter_at(
                row_along(start.row as int, d, prefix.len() as int),
                col_along(start.col as int, d, prefix.len() as int),
            ) is None,
            self.try_letter(words, start, d, prefix, bag, key, l).contains(sol),
        ensures
            self.completes(words, start, d, prefix, bag, suffix),
            sol == self.solution(start, d, prefix + suffix),
            suffix.len() > 0,
            suffix[0] == l,
        decreases self.line_room(start, d, prefix.len() as int), 0int, 0int,
    {
        lemma_bag_decrement(bag, key);
        let rest = self.lemma_extend_sound(
            words,
            start,
            d,
            prefix.push(l),
            bag_decrement(bag, key),
            sol,
        );
        let suffix = seq![l] + rest;
        assert(suffix.drop_first() =~= rest);
        assert(suffix[0] == l);
        assert(prefix.push(l) + rest =~= prefix + suffix);
        suffix
    }

    /// What is found with one letter of the alphabet as a blank is found
    /// with the blanks for the letters up to any later one.
    pub proof fn lemma_try_blanks_has(
        self,
        words: Set<Seq<u8>>,
        start: Coord,
        d: Direction,
        prefix: Seq<Letter>,
        bag: Seq<(Letter, nat)>,
        m: nat,
        n: nat,
        sol: SolutionModel,
    )
        requires
            1 <= m <= n,
            self.try_letter(
                words,
                start,
                d,
                prefix,
                bag,
                WILDCARD_LETTER,
                blank_letter(m),
            ).contains(sol),
        ensures
            self.try_blanks(words, start, d, prefix, bag, n).contains(sol),
        decreases n,
    {
        let before = self.try_blanks(words, start, d, prefix, bag, (n - 1) as nat);
        let with_letter = self.try_letter(
            words,
            start,
            d,
            prefix,
            bag,
            WILDCARD_LETTER,
            blank_letter(n),
        );
        lemma_concat_contains(before, with_letter, sol);
        if m < n {
            self.lemma_try_blanks_has(words, start, d, prefix, bag, m, (n - 1) as nat, sol);
        }
    }

    /// What is found with one key of the bag is found with the keys up to
    /// any later one.
    pub proof fn lemma_try_keys_has(
        self,
        words: Set<Seq<u8>>,
        start: Coord,
        d: Direction,
        prefix: Seq<Letter>,
        bag: Seq<(Letter, nat)>,
        i: int,
        n: nat,
        sol: SolutionModel,
    )
        requires
            0 <= i < n <= bag_keys(bag).len(),
            self.try_key(words, start, d, prefix, bag, bag_keys(bag)[i]).contains(sol),
        ensures
            self.try_keys(words, start, d, prefix, bag, n).contains(sol),
        decreases n,
    {
        let before = self.try_keys(words, start, d, prefix, bag, (n - 1) as nat);
        let with_key = self.try_key(words, start, d, prefix, bag, bag_keys(bag)[n - 1]);
        lemma_concat_contains(before, with_key, sol);
        if i < n - 1 {
            self.lemma_try_keys_has(words, start, d, prefix, bag, i, (n - 1) as nat, sol);
        }
    }

    /// For letters that finish the letters `prefix` to a legal word, the
    /// search finds the solution.
    pub proof fn lemma_extend_complete(
        self,
        words: Set<Seq<u8>>,
        start: Coord,
        d: Direction,
        prefix: Seq<Letter>,
        bag: Seq<(Letter, nat)>,
        suffix: Seq<Letter>,
    )
        requires
            bag_distinct(bag),
            self.completes(words, start, d, prefix, bag, suffix),
        ensures
            self.extend(words, start, d, prefix, bag).contains(
                self.solution(start, d, prefix + suffix),
            ),
        decreases suffix.len(),
    {
        let row = row_along(start.row as int, d, prefix.len() as int);
        let col = col_along(start.col as int, d, prefix.len() as int);
        let here = self.emit(words, start, d, prefix);
        let sol = self.solution(start, d, prefix + suffix);
        if suffix.len() == 0 {
            assert(prefix + suffix =~= prefix);
            assert(here[0] == sol);
            if self.contains(row, col) {
                let tried = self.try_keys(words, start, d, prefix, bag, bag_keys(bag).len());
                lemma_concat_contains(here, tried, sol);
            }
        } else {
            let l = suffix[0];
            let rest = suffix.drop_first();
            assert(prefix.push(l) + rest =~= prefix + suffix);
            // Some word goes on with this letter: the finished one.
            self.lemma_completes_word(words, start, d, prefix, bag, suffix);
            let whole = alpha_indices(prefix + suffix);
            assert(alpha_indices(prefix.push(l)).is_prefix_of(whole)) by {
                assert(alpha_indices(prefix.push(l)) =~= whole.subrange(0, prefix.len() as int + 1));
            }
            assert(can_extend(words, alpha_indices(prefix.push(l))));
            match self.letter_at(row, col) {
                Some(tile) => {
                    self.lemma_extend_complete(words, start, d, prefix.push(l), bag, rest);
                },
                None => {
                    let key = choose|key: Letter|
                        bag_count(bag, key) > 0 && #[trigger] shows(key, l) && self.completes(
                            words,
                            start,
                            d,
                            prefix.push(l),
                            bag_decrement(bag, key),
                            rest,
                        );
                    lemma_bag_decrement(bag, key);
                    self.lemma_extend_complete(
                        words,
                        start,
                        d,
                        prefix.push(l),
                        bag_decrement(bag, key),
                        rest,
                    );
                    assert(self.try_letter(words, start, d, prefix, bag, key, l).contains(sol));
                    if key == WILDCARD_LETTER {
                        let m = (l - 64) as nat;
                        assert(blank_letter(m) == l);
                        self.lemma_try_blanks_has(words, start, d, prefix, bag, m, 26, sol);
                    }
                    assert(self.try_key(words, start, d, prefix, bag, key).contains(sol));
                    lemma_bag_keys(bag);
                    assert(bag_keys(bag).contains(key));
                    let i = choose|i: int| 0 <= i < bag_keys(bag).len() && bag_keys(bag)[i] == key;
                    self.lemma_try_keys_has(
                        words,
                        start,
                        d,
                        prefix,
                        bag,
                        i,
                        bag_keys(bag).len(),
                        sol,
                    );
                    let tried = self.try_keys(words, start, d, prefix, bag, bag_keys(bag).len());
                    lemma_concat_contains(here, tried, sol);
                },
            }
        }
    }
}

impl BoardModel {
    /// Letters finish others to a legal word exactly when the whole, from
    /// the first of them on, can be laid as one.
    pub proof fn lemma_completes_is_finishes(
        self,
        words: Set<Seq<u8>>,
        start: Coord,
        d: Direction,
        prefix: Seq<Letter>,
        bag: Seq<(Letter, nat)>,
        suffix: Seq<Letter>,
    )
        ensures
            self.completes(words, start, d, prefix, bag, suffix) <==> self.finishes(
                words,
                start,
                d,
                prefix + suffix,
                bag,
                prefix.len() as int,
            ),
        decreases suffix.len(),
    {
        let letters = prefix + suffix;
        let p = prefix.len() as int;
        let n = letters.len() as int;
        let row = row_along(start.row as int, d, p);
        let col = col_along(start.col as int, d, p);
        if suffix.len() == 0 {
            assert(letters =~= prefix);
        } else {
            let l = suffix[0];
            let rest = suffix.drop_first();
            let next = prefix.push(l);
            let later = self.new_tiles(start, d, letters, p + 1);
            assert(next + rest =~= letters);
            assert(letters[p] == l);
            self.lemma_completes_is_finishes(words, start, d, next, bag, rest);
            assert forall|key: Letter|
                self.completes(words, start, d, next, bag_decrement(bag, key), rest)
                    <==> self.finishes(
                    words,
                    start,
                    d,
                    letters,
                    #[trigger] bag_decrement(bag, key),
                    p + 1,
                ) by {
                self.lemma_completes_is_finishes(
                    words,
                    start,
                    d,
                    next,
                    bag_decrement(bag, key),
                    rest,
                );
            }
            if self.occupied(row, col) {
                assert(self.new_tiles(start, d, letters, p) == later);
            } else {
                let tiles = self.new_tiles(start, d, letters, p);
                assert(tiles == seq![l] + later);
                assert(tiles[0] == l);
                assert(tiles.drop_first() =~= later);
            }
            if self.completes(words, start, d, prefix, bag, suffix) {
                assert(self.cell_accepts(words, start, d, letters, p));
                if self.occupied(row, col) {
                    assert(self.finishes(words, start, d, letters, bag, p + 1));
                } else {
                    let key = choose|key: Letter|
                        bag_count(bag, key) > 0 && #[trigger] shows(key, l) && self.completes(
                            words,
                            start,
                            d,
                            next,
                            bag_decrement(bag, key),
                            rest,
                        );
                    assert(self.finishes(words, start, d, letters, bag_decrement(bag, key), p + 1));
                    assert(shows(key, l));
                    assert(can_draw(bag, self.new_tiles(start, d, letters, p)));
                }
                assert forall|k: int| p <= k < n implies #[trigger] self.cell_accepts(
                    words,
                    start,
                    d,
                    letters,
                    k,
                ) by {}
                assert(self.finishes(words, start, d, letters, bag, p));
            }
            if self.finishes(words, start, d, letters, bag, p) {
                assert(self.cell_accepts(words, start, d, letters, p));
                if self.occupied(row, col) {
                    assert(self.finishes(words, start, d, letters, bag, p + 1));
                } else {
                    let tiles = self.new_tiles(start, d, letters, p);
                    let key = choose|key: Letter|
                        bag_count(bag, key) > 0 && #[trigger] shows(key, tiles[0]) && can_draw(
                            bag_decrement(bag, key),
                            tiles.drop_first(),
                        );
                    assert(self.finishes(words, start, d, letters, bag_decrement(bag, key), p + 1));
                    assert(self.completes(words, start, d, next, bag_decrement(bag, key), rest));
                    assert(shows(key, l));
                }
                assert(self.completes(words, start, d, prefix, bag, suffix));
            }
        }
    }

    /// Every solution found from a start cell along a direction is the
    /// solution of a legal play there. The play's letters are returned.
    pub proof fn lemma_plays_from_sound(
        self,
        words: Set<Seq<u8>>,
        bag: Seq<(Letter, nat)>,
        coord: Coord,
        d: Direction,
        sol: SolutionModel,
    ) -> (letters: Seq<Letter>)
        requires
            bag_distinct(bag),
            self.plays_from(words, bag, coord, d).contains(sol),
        ensures
            self.is_play(words, bag, coord, d, letters),
            sol == self.solution(coord, d, letters),
    {
        let letters = self.lemma_extend_sound(words, coord, d, Seq::empty(), bag, sol);
        self.lemma_completes_is_finishes(words, coord, d, Seq::empty(), bag, letters);
        assert(Seq::<Letter>::empty() + letters =~= letters);
        letters
    }

    /// The solution of every legal play from a start cell along a direction
    /// is found there.
    pub proof fn lemma_plays_from_complete(
        self,
        words: Set<Seq<u8>>,
        bag: Seq<(Letter, nat)>,
        coord: Coord,
        d: Direction,
        letters: Seq<Letter>,
    )
        requires
            bag_distinct(bag),
            self.is_play(words, bag, coord, d, letters),
        ensures
            self.plays_from(words, bag, coord, d).contains(self.solution(coord, d, letters)),
    {
        assert(Seq::<Letter>::empty() + letters =~= letters);
        self.lemma_completes_is_finishes(words, coord, d, Seq::empty(), bag, letters);
        self.lemma_extend_complete(words, coord, d, Seq::empty(), bag, letters);
    }

    /// What is found in the first cells of a row is found from one of them.
    pub proof fn lemma_row_plays_sound(
        self,
        words: Set<Seq<u8>>,
        bag: Seq<(Letter, nat)>,
        row: int,
        ncols: nat,
        sol: SolutionModel,
    ) -> (at: (int, Direction))
        requires
            self.row_plays(words, bag, row, ncols).contains(sol),
        ensures
            0 <= at.0 < ncols,
            self.cell_plays(words, bag, row, at.0, at.1).contains(sol),
        decreases ncols,
    {
        if ncols == 0 {
            (0, Direction::Right)
        } else {
            let before = self.row_plays(words, bag, row, (ncols - 1) as nat);
            let right = self.cell_plays(words, bag, row, ncols - 1, Direction::Right);
            let down = self.cell_plays(words, bag, row, ncols - 1, Direction::Down);
            lemma_concat_contains(before + right, down, sol);
            lemma_concat_contains(before, right, sol);
            if before.contains(sol) {
                self.lemma_row_plays_sound(words, bag, row, (ncols - 1) as nat, sol)
            } else if right.contains(sol) {
                (ncols - 1, Direction::Right)
            } else {
                (ncols - 1, Direction::Down)
            }
        }
    }

    /// What is found from a cell of a row is found in the row's cells up
    /// to any later one.
    pub proof fn lemma_row_plays_complete(
        self,
        words: Set<Seq<u8>>,
        bag: Seq<(Letter, nat)>,
        row: int,
        col: int,
        d: Direction,
        ncols: nat,
        sol: SolutionModel,
    )
        requires
            0 <= col < ncols,
            self.cell_plays(words, bag, row, col, d).contains(sol),
        ensures
            self.row_plays(words, bag, row, ncols).contains(sol),
        decreases ncols,
    {
        let before = self.row_plays(words, bag, row, (ncols - 1) as nat);
        let right = self.cell_plays(words, bag, row, ncols - 1, Direction::Right);
        let down = self.cell_plays(words, bag, row, ncols - 1, Direction::Down);
        lemma_concat_contains(before + right, down, sol);
        lemma_concat_contains(before, right, sol);
        if col < ncols - 1 {
            self.lemma_row_plays_complete(words, bag, row, col, d, (ncols - 1) as nat, sol);
        }
    }

    /// What is found in the first rows is found from one of their cells.
    pub proof fn lemma_rows_plays_sound(
        self,
        words: Set<Seq<u8>>,
        bag: Seq<(Letter, nat)>,
        nrows: nat,
        sol: SolutionModel,
    ) -> (at: (int, int, Direction))
        requires
            self.rows_plays(words, bag, nrows).contains(sol),
        ensures
            0 <= at.0 < nrows,
            0 <= at.1 < self.ncols,
            self.cell_plays(words, bag, at.0, at.1, at.2).contains(sol),
        decreases nrows,
    {
        if nrows == 0 {
            (0, 0, Direction::Right)
        } else {
            let before = self.rows_plays(words, bag, (nrows - 1) as nat);
            let last = self.row_plays(words, bag, nrows - 1, self.ncols);
            lemma_concat_contains(before, last, sol);
            if before.contains(sol) {
                self.lemma_rows_plays_sound(words, bag, (nrows - 1) as nat, sol)
            } else {
                let at = self.lemma_row_plays_sound(words, bag, nrows - 1, self.ncols, sol);
                (nrows - 1, at.0, at.1)
            }
        }
    }

    /// What is found from a cell is found in the rows up to any later one.
    pub proof fn lemma_rows_plays_complete(
        self,
        words: Set<Seq<u8>>,
        bag: Seq<(Letter, nat)>,
        row: int,
        col: int,
        d: Direction,
        nrows: nat,
        sol: SolutionModel,
    )
        requires
            0 <= row < nrows,
            0 <= col < self.ncols,
            self.cell_plays(words, bag, row, col, d).contains(sol),
        ensures
            self.rows_plays(words, bag, nrows).contains(sol),
        decreases nrows,
    {
        let before = self.rows_plays(words, bag, (nrows - 1) as nat);
        let last = self.row_plays(words, bag, nrows - 1, self.ncols);
        lemma_concat_contains(before, last, sol);
        if row < nrows - 1 {
            self.lemma_rows_plays_complete(words, bag, row, col, d, (nrows - 1) as nat, sol);
        } else {
            self.lemma_row_plays_complete(words, bag, row, col, d, self.ncols, sol);
        }
    }

    /// A legal play starts on the board.
    pub proof fn lemma_play_starts_on_board(
        self,
        words: Set<Seq<u8>>,
        bag: Seq<(Letter, nat)>,
        start: Coord,
        d: Direction,
        letters: Seq<Letter>,
    )
        requires
            self.is_play(words, bag, start, d, letters),
        ensures
            letters.len() > 0,
            self.contains(start.row as int, start.col as int),
    {
        assert(self.tiles_placed(start, d, 0) == 0);
        assert(self.cell_accepts(words, start, d, letters, 0));
    }

    /// With a bag of lower-case letters and wildcards, `letters` are a
    /// legal play exactly when no tile lies right before or right after
    /// them, every letter can lie on its cell, the word is in the dictionary,
    /// is anchored and lays at least one new tile, and the bag holds enough
    /// for the new tiles.
    pub proof fn lemma_play_with_plain_bag(
        self,
        words: Set<Seq<u8>>,
        bag: Seq<(Letter, nat)>,
        start: Coord,
        d: Direction,
        letters: Seq<Letter>,
    )
        requires
            bag_distinct(bag),
            is_plain_bag(bag),
        ensures
            self.is_play(words, bag, start, d, letters) <==> {
                &&& !self.occupied(
                    row_along(start.row as int, d, -1),
                    col_along(start.col as int, d, -1),
                )
                &&& !self.occupied(
                    row_along(start.row as int, d, letters.len() as int),
                    col_along(start.col as int, d, letters.len() as int),
                )
                &&& forall|k: int|
                    0 <= k < letters.len() ==> #[trigger] self.cell_accepts(
                        words,
                        start,
                        d,
                        letters,
                        k,
                    )
                &&& self.is_complete(words, start, d, letters)
                &&& within_bag(bag, self.new_tiles(start, d, letters, 0))
            },
    {
        lemma_can_draw_is_within_bag(bag, self.new_tiles(start, d, letters, 0));
    }

    /// The search is sound: every solution that it lists is the solution of
    /// a legal play.
    pub proof fn theorem_search_sound(
        self,
        words: Set<Seq<u8>>,
        bag: Seq<(Letter, nat)>,
        sol: SolutionModel,
    )
        requires
            bag_distinct(bag),
            self.all_plays(words, bag).contains(sol),
        ensures
            self.is_solution_of_play(words, bag, sol),
    {
        let at = self.lemma_rows_plays_sound(words, bag, self.nrows, sol);
        let start = Coord { row: at.0 as i32, col: at.1 as i32 };
        let letters = self.lemma_plays_from_sound(words, bag, start, at.2, sol);
        assert(self.is_play(words, bag, start, at.2, letters));
    }

    /// The search is complete: it lists the solution of every legal play.
    pub proof fn theorem_search_complete(
        self,
        words: Set<Seq<u8>>,
        bag: Seq<(Letter, nat)>,
        start: Coord,
        d: Direction,
        letters: Seq<Letter>,
    )
        requires
            bag_distinct(bag),
            self.is_play(words, bag, start, d, letters),
        ensures
            self.all_plays(words, bag).contains(self.solution(start, d, letters)),
    {
        let sol = self.solution(start, d, letters);
        self.lemma_play_starts_on_board(words, bag, start, d, letters);
        self.lemma_plays_from_complete(words, bag, start, d, letters);
        assert(Coord { row: (start.row as int) as i32, col: (start.col as int) as i32 } == start);
        self.lemma_rows_plays_complete(
            words,
            bag,
            start.row as int,
            start.col as int,
            d,
            self.nrows,
            sol,
        );
    }
}

/// Tiles that can be taken out of a bag are no more than the bag holds.
pub proof fn lemma_draw_within_total(bag: Seq<(Letter, nat)>, tiles: Seq<Letter>)
    requires
        bag_distinct(bag),
        can_draw(bag, tiles),
    ensures
        tiles.len() <= bag_total(bag),
    decreases tiles.len(),
{
    if tiles.len() > 0 {
        let key = choose|key: Letter|
            bag_count(bag, key) > 0 && #[trigger] shows(key, tiles[0]) && can_draw(
                bag_decrement(bag, key),
                tiles.drop_first(),
            );
        lemma_bag_decrement(bag, key);
        lemma_draw_within_total(bag_decrement(bag, key), tiles.drop_first());
    }
}

impl BoardModel {
    /// The new tiles of a word are as many as it has letters on empty cells.
    pub proof fn lemma_new_tiles_len(self, start: Coord, d: Direction, letters: Seq<Letter>, from: int)
        requires
            0 <= from <= letters.len(),
        ensures
            self.new_tiles(start, d, letters, from).len() + self.tiles_placed(start, d, from)
                == self.tiles_placed(start, d, letters.len() as int),
        decreases letters.len() - from,
    {
        if from < letters.len() {
            self.lemma_new_tiles_len(start, d, letters, from + 1);
        }
    }

    /// The score of the solution of a legal play is the score of the
    /// placement, where the board and the bag are small enough for every
    /// score to fit into 32 bits.
    pub proof fn lemma_play_score_exact(
        self,
        words: Set<Seq<u8>>,
        bag: Seq<(Letter, nat)>,
        start: Coord,
        d: Direction,
        letters: Seq<Letter>,
    )
        requires
            bag_distinct(bag),
            self.is_play(words, bag, start, d, letters),
            score_fits(self.max_dim(), bag_total(bag)),
        ensures
            self.solution(start, d, letters).score == self.placement_score(start, d, letters),
            self.tiles_placed(start, d, letters.len() as int) <= bag_total(bag),
    {
        let n = letters.len() as int;
        self.lemma_play_starts_on_board(words, bag, start, d, letters);
        assert(self.cell_accepts(words, start, d, letters, n - 1));
        self.lemma_new_tiles_len(start, d, letters, 0);
        lemma_draw_within_total(bag, self.new_tiles(start, d, letters, 0));
        self.lemma_placement_score_fits(start, d, letters, bag_total(bag));
    }

    /// Whether a new tile is accepted across the line does not depend on
    /// its case: a blank is checked as the letter that it stands for.
    pub proof fn lemma_cross_check_ignores_case(
        self,
        words: Set<Seq<u8>>,
        row: int,
        col: int,
        d: Direction,
        l: Letter,
    )
        requires
            is_alpha(l),
        ensures
            (self.cross_check(words, row, col, d, l) == WordAroundValidation::InvalidWord) == (
            self.cross_check(words, row, col, d, lowered(l)) == WordAroundValidation::InvalidWord),
            (self.cross_check(words, row, col, d, l) == WordAroundValidation::NothingAround) == (
            self.cross_check(words, row, col, d, lowered(l))
                == WordAroundValidation::NothingAround),
    {
        let as_laid = self.cross_word(row, col, d, l);
        let as_meant = self.cross_word(row, col, d, lowered(l));
        assert(alpha_indices(as_laid) =~= alpha_indices(as_meant));
    }
}

/// Different tiles spell different texts.
pub proof fn lemma_letters_text_injective(a: Seq<Letter>, b: Seq<Letter>)
    requires
        letters_text(a) == letters_text(b),
    ensures
        a == b,
{
    assert(letters_text(a).len() == a.len());
    assert(letters_text(b).len() == b.len());
    assert forall|i: int| 0 <= i < a.len() implies a[i] == b[i] by {
        assert(letters_text(a)[i] == a[i] as char);
        assert(letters_text(b)[i] == b[i] as char);
        assert((a[i] as char) as u8 == a[i]);
        assert((b[i] as char) as u8 == b[i]);
    }
    assert(a =~= b);
}

/// Two sequences without repetitions that share nothing make one without
/// repetitions.
pub proof fn lemma_concat_no_duplicates<A>(a: Seq<A>, b: Seq<A>)
    requires
        a.no_duplicates(),
        b.no_duplicates(),
        forall|x: A| !(a.contains(x) && b.contains(x)),
    ensures
        (a + b).no_duplicates(),
{
    let c = a + b;
    assert forall|i: int, j: int| 0 <= i < c.len() && 0 <= j < c.len() && i != j implies c[i]
        != c[j] by {
        if i < a.len() && j < a.len() {
        } else if i >= a.len() && j >= a.len() {
            assert(b[i - a.len()] != b[j - a.len()]);
        } else if i < a.len() {
            assert(a.contains(a[i]));
            assert(b.contains(b[j - a.len()]));
        } else {
            assert(a.contains(a[j]));
            assert(b.contains(b[i - a.len()]));
        }
    }
}

/// Taking a tile out of a bag of lower-case letters and wildcards leaves
/// such a bag.
pub proof fn lemma_plain_decrement(bag: Seq<(Letter, nat)>, key: Letter)
    requires
        bag_distinct(bag),
        is_plain_bag(bag),
    ensures
        bag_distinct(bag_decrement(bag, key)),
        is_plain_bag(bag_decrement(bag, key)),
{
    let less = bag_decrement(bag, key);
    lemma_bag_decrement(bag, key);
    if bag_count(bag, key) > 0 {
        let i = crate::letter_bag::bag_index(bag, key);
        assert(0 <= i < bag.len() && bag[i].0 == key);
        crate::letter_bag::lemma_bag_entry(bag, i);
        assert forall|k: int| 0 <= k < less.len() && (#[trigger] less[k]).1 > 0 implies is_lower(
            less[k].0,
        ) || less[k].0 == WILDCARD_LETTER by {
            assert(less[k].0 == bag[k].0);
            assert(bag[k].1 > 0);
        }
    }
}

/// The keys of a bag of lower-case letters and wildcards are such, differ
/// from each other, and the bag holds a tile of each.
pub proof fn lemma_plain_keys(bag: Seq<(Letter, nat)>, i: int, j: int)
    requires
        bag_distinct(bag),
        is_plain_bag(bag),
        0 <= i < bag_keys(bag).len(),
        0 <= j < bag_keys(bag).len(),
    ensures
        is_lower(bag_keys(bag)[i]) || bag_keys(bag)[i] == WILDCARD_LETTER,
        bag_count(bag, bag_keys(bag)[i]) > 0,
        i != j ==> bag_keys(bag)[i] != bag_keys(bag)[j],
{
    let key = bag_keys(bag)[i];
    lemma_bag_keys(bag);
    assert(bag_keys(bag).contains(key));
    let k = crate::letter_bag::bag_index(bag, key);
    assert(0 <= k < bag.len() && bag[k].0 == key);
    crate::letter_bag::lemma_bag_entry(bag, k);
}

impl BoardModel {
    /// Two placements from the same start along the same direction have the
    /// same solution only where they lay the same letters.
    pub proof fn lemma_solution_injective(
        self,
        start: Coord,
        d: Direction,
        a: Seq<Letter>,
        b: Seq<Letter>,
    )
        requires
            self.solution(start, d, a) == self.solution(start, d, b),
        ensures
            a == b,
    {
        lemma_letters_text_injective(a, b);
    }

    /// With a bag of lower-case letters and wildcards the search finds no
    /// solution twice beyond the letters `prefix`.
    pub proof fn lemma_extend_distinct(
        self,
        words: Set<Seq<u8>>,
        start: Coord,
        d: Direction,
        prefix: Seq<Letter>,
        bag: Seq<(Letter, nat)>,
    )
        requires
            bag_distinct(bag),
            is_plain_bag(bag),
        ensures
            self.extend(words, start, d, prefix, bag).no_duplicates(),
        decreases self.line_room(start, d, prefix.len() as int), 4int, 0int,
    {
        let row = row_along(start.row as int, d, prefix.len() as int);
        let col = col_along(start.col as int, d, prefix.len() as int);
        let here = self.emit(words, start, d, prefix);
        if !self.contains(row, col) {
        } else if self.letter_at(row, col) is Some {
            let l = self.letter_at(row, col)->0;
            if can_extend(words, alpha_indices(prefix.push(l))) {
                self.lemma_extend_distinct(words, start, d, prefix.push(l), bag);
            }
        } else {
            let n = bag_keys(bag).len();
            let tried = self.try_keys(words, start, d, prefix, bag, n);
            self.lemma_try_keys_distinct(words, start, d, prefix, bag, n);
            assert forall|x: SolutionModel| !(here.contains(x) && tried.contains(x)) by {
                if here.contains(x) && tried.contains(x) {
                    let found = self.lemma_try_keys_sound(words, start, d, prefix, bag, n, x);
                    assert(here[0] == x);
                    self.lemma_solution_injective(start, d, prefix, prefix + found.0);
                }
            }
            lemma_concat_no_duplicates(here, tried);
        }
    }

    /// The same for what is found with one of the first `n` letters of the
    /// bag on the next cell.
    pub proof fn lemma_try_keys_distinct(
        self,
        words: Set<Seq<u8>>,
        start: Coord,
        d: Direction,
        prefix: Seq<Letter>,
        bag: Seq<(Letter, nat)>,
        n: nat,
    )
        requires
            bag_distinct(bag),
            is_plain_bag(bag),
            n <= bag_keys(bag).len(),
            self.letter_at(
                row_along(start.row as int, d, prefix.len() as int),
                col_along(start.col as int, d, prefix.len() as int),
            ) is None,
        ensures
            self.try_keys(words, start, d, prefix, bag, n).no_duplicates(),
        decreases self.line_room(start, d, prefix.len() as int), 3int, n,
    {
        if n > 0 {
            let key = bag_keys(bag)[n - 1];
            let before = self.try_keys(words, start, d, prefix, bag, (n - 1) as nat);
            let with_key = self.try_key(words, start, d, prefix, bag, key);
            self.lemma_try_keys_distinct(words, start, d, prefix, bag, (n - 1) as nat);
            lemma_plain_keys(bag, n - 1, n - 1);
            if key == WILDCARD_LETTER {
                self.lemma_try_blanks_distinct(words, start, d, prefix, bag, 26);
            } else {
                self.lemma_try_letter_distinct(words, start, d, prefix, bag, key, key);
            }
            assert forall|x: SolutionModel| !(before.contains(x) && with_key.contains(x)) by {
                if before.contains(x) && with_key.contains(x) {
                    let earlier = self.lemma_try_keys_sound(
                        words,
                        start,
                        d,
                        prefix,
                        bag,
                        (n - 1) as nat,
                        x,
                    );
                    let later = if key == WILDCARD_LETTER {
                        self.lemma_try_blanks_sound(words, start, d, prefix, bag, 26, x)
                    } else {
                        self.lemma_try_letter_sound(words, start, d, prefix, bag, key, key, x)
                    };
                    self.lemma_solution_injective(start, d, prefix + earlier.0, prefix + later);
                    assert(earlier.0[0] == (prefix + earlier.0)[prefix.len() as int]);
                    assert(later[0] == (prefix + later)[prefix.len() as int]);
                    lemma_plain_keys(bag, earlier.1, n - 1);
                }
            }
            lemma_concat_no_duplicates(before, with_key);
        }
    }

    /// The same for what is found with a blank on the next cell.
    pub proof fn lemma_try_blanks_distinct(
        self,
        words: Set<Seq<u8>>,
        start: Coord,
        d: Direction,
        prefix: Seq<Letter>,
        bag: Seq<(Letter, nat)>,
        n: nat,
    )
        requires
            bag_distinct(bag),
            is_plain_bag(bag),
            n <= 26,
            bag_count(bag, WILDCARD_LETTER) > 0,
            self.letter_at(
                row_along(start.row as int, d, prefix.len() as int),
                col_along(start.col as int, d, prefix.len() as int),
            ) is None,
        ensures
            self.try_blanks(words, start, d, prefix, bag, n).no_duplicates(),
        decreases self.line_room(start, d, prefix.len() as int), 1int, n,
    {
        if n > 0 {
            let l = blank_letter(n);
            let before = self.try_blanks(words, start, d, prefix, bag, (n - 1) as nat);
            let with_letter = self.try_letter(words, start, d, prefix, bag, WILDCARD_LETTER, l);
            self.lemma_try_blanks_distinct(words, start, d, prefix, bag, (n - 1) as nat);
            self.lemma_try_letter_distinct(words, start, d, prefix, bag, WILDCARD_LETTER, l);
            assert forall|x: SolutionModel| !(before.contains(x) && with_letter.contains(x)) by {
                if before.contains(x) && with_letter.contains(x) {
                    let earlier = self.lemma_try_blanks_sound(
                        words,
                        start,
                        d,
                        prefix,
                        bag,
                        (n - 1) as nat,
                        x,
                    );
                    let later = self.lemma_try_letter_sound(
                        words,
                        start,
                        d,
                        prefix,
                        bag,
                        WILDCARD_LETTER,
                        l,
                        x,
                    );
                    self.lemma_solution_injective(start, d, prefix + earlier, prefix + later);
                    assert(earlier[0] == (prefix + earlier)[prefix.len() as int]);
                    assert(later[0] == (prefix + later)[prefix.len() as int]);
                }
            }
            lemma_concat_no_duplicates(before, with_letter);
        }
    }

    /// The same for what is found with the tile `l` on the next cell.
    pub proof fn lemma_try_letter_distinct(
        self,
        words: Set<Seq<u8>>,
        start: Coord,
        d: Direction,
        prefix: Seq<Letter>,
        bag: Seq<(Letter, nat)>,
        key: Letter,
        l: Letter,
    )
        requires
            bag_distinct(bag),
            is_plain_bag(bag),
        ensures
            self.try_letter(words, start, d, prefix, bag, key, l).no_duplicates(),
        decreases self.line_room(start, d, prefix.len() as int), 0int, 0int,
    {
        let row = row_along(start.row as int, d, prefix.len() as int);
        let col = col_along(start.col as int, d, prefix.len() as int);
        if self.contains(row, col) {
            lemma_plain_decrement(bag, key);
            self.lemma_extend_distinct(words, start, d, prefix.push(l), bag_decrement(bag, key));
        }
    }

    /// With a bag of lower-case letters and wildcards nothing is found twice
    /// among the first cells of a row.
    pub proof fn lemma_row_plays_distinct(
        self,
        words: Set<Seq<u8>>,
        bag: Seq<(Letter, nat)>,
        row: int,
        ncols: nat,
    )
        requires
            bag_distinct(bag),
            is_plain_bag(bag),
            ncols <= i32::MAX,
        ensures
            self.row_plays(words, bag, row, ncols).no_duplicates(),
        decreases ncols,
    {
        if ncols > 0 {
            let coord = Coord { row: row as i32, col: (ncols - 1) as i32 };
            let before = self.row_plays(words, bag, row, (ncols - 1) as nat);
            let right = self.cell_plays(words, bag, row, ncols - 1, Direction::Right);
            let down = self.cell_plays(words, bag, row, ncols - 1, Direction::Down);
            self.lemma_row_plays_distinct(words, bag, row, (ncols - 1) as nat);
            if !self.occupied(row_along(coord.row as int, Direction::Right, -1), col_along(
                coord.col as int,
                Direction::Right,
                -1,
            )) {
                self.lemma_extend_distinct(words, coord, Direction::Right, Seq::empty(), bag);
            }
            if !self.occupied(row_along(coord.row as int, Direction::Down, -1), col_along(
                coord.col as int,
                Direction::Down,
                -1,
            )) {
                self.lemma_extend_distinct(words, coord, Direction::Down, Seq::empty(), bag);
            }
            assert forall|x: SolutionModel| !(before.contains(x) && right.contains(x)) by {
                if before.contains(x) && right.contains(x) {
                    let at = self.lemma_row_plays_sound(words, bag, row, (ncols - 1) as nat, x);
                    let from = Coord { row: row as i32, col: at.0 as i32 };
                    let a = self.lemma_plays_from_sound(words, bag, from, at.1, x);
                    let b = self.lemma_plays_from_sound(words, bag, coord, Direction::Right, x);
                }
            }
            lemma_concat_no_duplicates(before, right);
            assert forall|x: SolutionModel| !((before + right).contains(x) && down.contains(x)) by {
                if (before + right).contains(x) && down.contains(x) {
                    lemma_concat_contains(before, right, x);
                    let b = self.lemma_plays_from_sound(words, bag, coord, Direction::Down, x);
                    if before.contains(x) {
                        let at = self.lemma_row_plays_sound(words, bag, row, (ncols - 1) as nat, x);
                        let from = Coord { row: row as i32, col: at.0 as i32 };
                        let a = self.lemma_plays_from_sound(words, bag, from, at.1, x);
                    } else {
                        let a = self.lemma_plays_from_sound(words, bag, coord, Direction::Right, x);
                    }
                }
            }
            lemma_concat_no_duplicates(before + right, down);
        }
    }

    /// With a bag of lower-case letters and wildcards nothing is found twice
    /// among the first rows.
    pub proof fn lemma_rows_plays_distinct(
        self,
        words: Set<Seq<u8>>,
        bag: Seq<(Letter, nat)>,
        nrows: nat,
    )
        requires
            bag_distinct(bag),
            is_plain_bag(bag),
            nrows <= i32::MAX,
            self.ncols <= i32::MAX,
        ensures
            self.rows_plays(words, bag, nrows).no_duplicates(),
        decreases nrows,
    {
        if nrows > 0 {
            let before = self.rows_plays(words, bag, (nrows - 1) as nat);
            let last = self.row_plays(words, bag, nrows - 1, self.ncols);
            self.lemma_rows_plays_distinct(words, bag, (nrows - 1) as nat);
            self.lemma_row_plays_distinct(words, bag, nrows - 1, self.ncols);
            assert forall|x: SolutionModel| !(before.contains(x) && last.contains(x)) by {
                if before.contains(x) && last.contains(x) {
                    let above = self.lemma_rows_plays_sound(words, bag, (nrows - 1) as nat, x);
                    let from = Coord { row: above.0 as i32, col: above.1 as i32 };
                    let a = self.lemma_plays_from_sound(words, bag, from, above.2, x);
                    let at = self.lemma_row_plays_sound(words, bag, nrows - 1, self.ncols, x);
                    let here = Coord { row: (nrows - 1) as i32, col: at.0 as i32 };
                    let b = self.lemma_plays_from_sound(words, bag, here, at.1, x);
                }
            }
            lemma_concat_no_duplicates(before, last);
        }
    }

    /// With a bag of lower-case letters and wildcards the search lists no
    /// solution twice: it lists the solution of every legal play once.
    pub proof fn theorem_search_lists_each_play_once(
        self,
        words: Set<Seq<u8>>,
        bag: Seq<(Letter, nat)>,
    )
        requires
            bag_distinct(bag),
            is_plain_bag(bag),
            self.nrows <= i32::MAX,
            self.ncols <= i32::MAX,
        ensures
            self.all_plays(words, bag).no_duplicates(),
    {
        self.lemma_rows_plays_distinct(words, bag, self.nrows);
    }
}

} // verus!
