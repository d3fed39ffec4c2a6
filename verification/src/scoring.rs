//! Letter values and score modifiers.
//!
//! A lower-case letter is a natural tile and scores its face value. An
//! upper-case letter is a blank tile standing for that letter and scores
//! nothing.

use crate::util::all_alpha;
use crate::util::is_alpha;
use crate::util::is_lower;
use crate::util::Letter;
use vstd::prelude::*;

verus! {

/// The face value of the letter at the given position of the alphabet.
pub open spec fn letter_value(alpha_index: int) -> nat {
    if alpha_index == 16 || alpha_index == 25 {
        10
    } else if alpha_index == 9 || alpha_index == 23 {
        8
    } else if alpha_index == 10 {
        5
    } else if alpha_index == 5 || alpha_index == 7 || alpha_index == 21 || alpha_index == 22
        || alpha_index == 24 {
        4
    } else if alpha_index == 1 || alpha_index == 2 || alpha_index == 12 || alpha_index == 15 {
        3
    } else if alpha_index == 3 || alpha_index == 6 {
        2
    } else if 0 <= alpha_index < 26 {
        1
    } else {
        0
    }
}

/// What the tile `l` scores: its face value for a lower-case letter,
/// nothing for any other byte.
pub open spec fn letter_score(l: Letter) -> nat {
    if is_lower(l) {
        letter_value(l - 97)
    } else {
        0
    }
}

/// The sum of what the tiles of `w` score.
pub open spec fn letters_score(w: Seq<Letter>) -> nat
    decreases w.len(),
{
    if w.len() == 0 {
        0
    } else {
        letters_score(w.drop_last()) + letter_score(w.last())
    }
}

/// No tile scores more than 10, and a blank tile scores nothing.
pub proof fn lemma_letter_score_bounds(l: Letter)
    ensures
        letter_score(l) <= 10,
        !is_lower(l) ==> letter_score(l) == 0,
{
}

/// A word of `n` tiles scores no more than `10 * n`.
pub proof fn lemma_letters_score_bound(w: Seq<Letter>)
    ensures
        letters_score(w) <= 10 * w.len(),
    decreases w.len(),
{
    if w.len() > 0 {
        lemma_letters_score_bound(w.drop_last());
    }
}

/// The score of the tile `l`, which must be an ASCII letter: the face value
/// of a lower-case letter, zero for an upper-case one.
pub fn scrabble_letter_score(l: Letter) -> (score: u32)
    requires
        is_alpha(l),
    ensures
        score == letter_score(l),
        score <= 10,
{
    if 65 <= l && l <= 90 {
        0
    } else {
        let idx: u8 = l - 97;
        match idx {
            16 | 25 => 10,
            9 | 23 => 8,
            10 => 5,
            5 | 7 | 21 | 22 | 24 => 4,
            1 | 2 | 12 | 15 => 3,
            3 | 6 => 2,
            _ => 1,
        }
    }
}

/// The score of a word before any modifier: the sum of its tiles' scores.
pub fn scrabble_letters_score_utf8(w: &Vec<u8>) -> (score: u32)
    requires
        all_alpha(w@),
        10 * w@.len() <= u32::MAX,
    ensures
        score == letters_score(w@),
{
    let mut score: u32 = 0;
    let mut i: usize = 0;
    proof {
        assert(w@.take(0) =~= Seq::<u8>::empty());
    }
    while i < w.len()
        invariant
            i <= w@.len(),
            all_alpha(w@),
            10 * w@.len() <= u32::MAX,
            score == letters_score(w@.take(i as int)),
        decreases w@.len() - i,
    {
        proof {
            assert(w@.take(i + 1).drop_last() =~= w@.take(i as int));
            assert(w@.take(i + 1).last() == w@[i as int]);
            lemma_letters_score_bound(w@.take(i as int));
        }
        score = score + scrabble_letter_score(w[i]);
        i += 1;
    }
    proof {
        assert(w@.take(w@.len() as int) =~= w@);
    }
    score
}

/// What a cell of the board does to the score of a tile laid on it.
#[derive(Clone, Copy, PartialEq, Eq, Structural, Debug)]
pub enum Modifier {
    DoubleLetter,
    TripleLetter,
    DoubleWord,
    TripleWord,
}

/// Whether `c` is one of the five characters of a board layout.
pub open spec fn is_modifier_char(c: char) -> bool {
    c == 'd' || c == 't' || c == 'D' || c == 'T' || c == ' '
}

/// The meaning of a character of a board layout.
pub open spec fn modifier_of_char(c: char) -> Option<Modifier> {
    if c == 'd' {
        Some(Modifier::DoubleLetter)
    } else if c == 't' {
        Some(Modifier::TripleLetter)
    } else if c == 'D' {
        Some(Modifier::DoubleWord)
    } else if c == 'T' {
        Some(Modifier::TripleWord)
    } else {
        None
    }
}

/// By how much a cell multiplies the score of the tile laid on it.
pub open spec fn letter_factor(m: Option<Modifier>) -> nat {
    match m {
        Some(Modifier::DoubleLetter) => 2,
        Some(Modifier::TripleLetter) => 3,
        _ => 1,
    }
}

/// By how much a cell multiplies the score of a word laid across it.
pub open spec fn word_factor(m: Option<Modifier>) -> nat {
    match m {
        Some(Modifier::DoubleWord) => 2,
        Some(Modifier::TripleWord) => 3,
        _ => 1,
    }
}

/// The score of a crossing word whose own letters sum to `base`, formed by
/// laying the tile `l` on a cell with the modifier `m`: a word modifier
/// multiplies the whole word, a letter modifier adds the tile's bonus.
pub open spec fn crossing_score(m: Option<Modifier>, base: nat, l: Letter) -> nat {
    match m {
        None => base,
        Some(Modifier::DoubleWord) => base * 2,
        Some(Modifier::TripleWord) => base * 3,
        Some(Modifier::DoubleLetter) => base + letter_score(l),
        Some(Modifier::TripleLetter) => base + 2 * letter_score(l),
    }
}

/// A crossing word scores no more than three times the sum of its letters,
/// where the laid tile is one of them.
pub proof fn lemma_crossing_score_bound(m: Option<Modifier>, base: nat, l: Letter)
    requires
        letter_score(l) <= base,
    ensures
        base <= crossing_score(m, base, l) <= 3 * base,
{
}

impl Modifier {
    /// Reads one character of a board layout: `d` and `t` double and triple
    /// the letter, `D` and `T` the word, a space leaves the cell plain.
    pub fn from_char_spec(c: char) -> (m: Option<Modifier>)
        requires
            is_modifier_char(c),
        ensures
            m == modifier_of_char(c),
    {
        match c {
            'd' => Some(Modifier::DoubleLetter),
            't' => Some(Modifier::TripleLetter),
            'D' => Some(Modifier::DoubleWord),
            'T' => Some(Modifier::TripleWord),
            _ => None,
        }
    }

    /// True exactly for the five characters of a board layout.
    pub fn is_char_spec(c: char) -> (b: bool)
        ensures
            b == is_modifier_char(c),
    {
        c == 'd' || c == 't' || c == 'D' || c == 'T' || c == ' '
    }
}

/// The score that a tile adds to the word it is laid in, and the factor by
/// which it multiplies that word, on a cell with the modifier `m`.
pub fn placement_scores(m: Option<Modifier>, l: Letter) -> (r: (u32, u32))
    requires
        is_alpha(l),
    ensures
        r.0 == letter_score(l) * letter_factor(m),
        r.1 == word_factor(m),
        r.0 <= 30,
        1 <= r.1 <= 3,
{
    let base = scrabble_letter_score(l);
    match m {
        Some(Modifier::DoubleLetter) => (2 * base, 1),
        Some(Modifier::TripleLetter) => (3 * base, 1),
        Some(Modifier::DoubleWord) => (base, 2),
        Some(Modifier::TripleWord) => (base, 3),
        None => (base, 1),
    }
}

} // verus!
