//! Small shared vocabulary: letters, words and the two directions of play.

use vstd::prelude::*;

verus! {

/// A tile letter, as a raw byte.
pub type Letter = u8;

/// The text of a word.
pub type Word = String;

/// The letter that stands for a blank tile in a bag of letters.
pub const WILDCARD_LETTER: Letter = 42;

/// Whether `l` is one of the ASCII letters `a` to `z`.
pub open spec fn is_lower(l: Letter) -> bool {
    97 <= l <= 122
}

/// Whether `l` is one of the ASCII letters `A` to `Z`.
pub open spec fn is_upper(l: Letter) -> bool {
    65 <= l <= 90
}

/// Whether `l` is an ASCII letter of either case.
pub open spec fn is_alpha(l: Letter) -> bool {
    is_lower(l) || is_upper(l)
}

/// The position of a letter in the alphabet, from 0 for `a` or `A` to 25
/// for `z` or `Z`.
pub open spec fn alpha_idx(l: Letter) -> u8 {
    if is_lower(l) {
        (l - 97) as u8
    } else {
        (l - 65) as u8
    }
}

/// Whether every byte of `w` is an ASCII letter.
pub open spec fn all_alpha(w: Seq<Letter>) -> bool {
    forall|i: int| 0 <= i < w.len() ==> is_alpha(#[trigger] w[i])
}

/// Whether every entry of `w` is a position in the alphabet.
pub open spec fn all_alpha_indices(w: Seq<u8>) -> bool {
    forall|i: int| 0 <= i < w.len() ==> #[trigger] w[i] < 26
}

/// The alphabet positions of the letters of `w`, case folded.
pub open spec fn alpha_indices(w: Seq<Letter>) -> Seq<u8> {
    Seq::new(w.len(), |i: int| alpha_idx(w[i]))
}

/// The bytes of a text: its UTF-8 encoding. For a text of ASCII characters
/// these are the characters themselves.
pub open spec fn text_bytes(text: Seq<char>) -> Seq<Letter> {
    vstd::utf8::encode_utf8(text)
}

/// The lower-case form of an upper-case letter; other bytes are unchanged.
pub open spec fn lowered(l: Letter) -> Letter {
    if is_upper(l) {
        (l + 32) as u8
    } else {
        l
    }
}

/// Appends a character to a string. This is `String::push` of the standard
/// library: the text afterwards is the text before with the character at
/// its end. The contract is not proved here; it is what the documentation of
/// `String::push` says.
#[verifier::external_body]
pub(crate) fn push_char(s: &mut String, c: char)
    ensures
        final(s)@ == old(s)@.push(c),
{
    s.push(c);
}

/// True exactly for the ASCII letters.
pub fn is_letter(l: Letter) -> (b: bool)
    ensures
        b == is_alpha(l),
{
    (97 <= l && l <= 122) || (65 <= l && l <= 90)
}

/// Folds `A` to `Z` onto `a` to `z` and leaves every other byte as it is.
pub fn to_lowercase(l: Letter) -> (r: Letter)
    ensures
        r == lowered(l),
{
    if 65 <= l && l <= 90 {
        l + 32
    } else {
        l
    }
}

/// True exactly when every byte of `w` is an ASCII letter.
pub fn is_alphabetic(w: &[u8]) -> (b: bool)
    ensures
        b == all_alpha(w@),
{
    let mut i: usize = 0;
    while i < w.len()
        invariant
            i <= w@.len(),
            forall|k: int| 0 <= k < i ==> is_alpha(#[trigger] w@[k]),
        decreases w@.len() - i,
    {
        if !is_letter(w[i]) {
            return false;
        }
        i += 1;
    }
    true
}

/// The two directions in which a word can be laid on the board.
#[derive(Clone, Copy, PartialEq, Eq, Structural, Debug)]
pub enum Direction {
    Right,
    Down,
}

impl Direction {
    /// The perpendicular direction.
    pub open spec fn rotated(self) -> Direction {
        match self {
            Direction::Right => Direction::Down,
            Direction::Down => Direction::Right,
        }
    }

    /// How far one step in this direction moves along the rows.
    pub open spec fn row_step(self) -> int {
        match self {
            Direction::Right => 0,
            Direction::Down => 1,
        }
    }

    /// How far one step in this direction moves along the columns.
    pub open spec fn col_step(self) -> int {
        match self {
            Direction::Right => 1,
            Direction::Down => 0,
        }
    }

    /// Turns `Right` into `Down` and `Down` into `Right`.
    pub fn rotate(&self) -> (r: Direction)
        ensures
            r == self.rotated(),
    {
        match self {
            Direction::Right => Direction::Down,
            Direction::Down => Direction::Right,
        }
    }
}

} // verus!
