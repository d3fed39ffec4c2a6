//! A word-placement solver for Scrabble-like boards.
//!
//! Given a board with some tiles already placed, a bag of available letters
//! (which may hold wildcards) and a dictionary, the library enumerates every
//! legal placement of a word, each with its score, and ranks them.
//!
//! The parts, from the leaves up:
//!
//! - [`util`]: letters, words and the two directions of play;
//! - [`grid`]: coordinates and a fixed-shape grid;
//! - [`dictionary`]: the dictionary, a prefix tree with handles for descent;
//! - [`letter_bag`]: bags of letters that are copied, never changed, when a
//!   tile is taken;
//! - [`scoring`]: letter values and score modifiers;
//! - [`board`]: the board, and the check of the word that a new tile forms
//!   across its line;
//! - [`placement`]: what a placement is worth;
//! - [`search`]: the search for placements;
//! - [`plays`]: what a legal play is, and that the search finds exactly
//!   the legal plays;
//! - [`ranking`]: solutions by score;
//! - [`text`], [`boardspec`], [`commands`]: reading numbers, boards and
//!   commands from text, and the steps of an interactive session.
//!
//! Every function states what it returns over mathematical models of the
//! data: a dictionary is a set of words, a bag a list of letters with their
//! counts, a board a grid of optional tiles and modifiers.

pub mod util;
pub mod grid;
pub mod dictionary;
pub mod letter_bag;
pub mod scoring;
pub mod board;
pub mod placement;
pub mod search;
pub mod plays;
pub mod ranking;
pub mod text;
pub mod boardspec;
pub mod commands;

pub use board::BoardModel;
pub use board::ScrabbleBoard;
pub use board::WordAroundValidation;
pub use dictionary::DictionaryTrie;
pub use dictionary::DictionaryTrieNode;
pub use dictionary::DictionaryTrieNodePtr;
pub use grid::Coord;
pub use grid::Grid;
pub use letter_bag::HashLetterBag;
pub use letter_bag::LetterBag;
pub use letter_bag::VecLetterBag;
pub use placement::SolutionModel;
pub use scoring::scrabble_letter_score;
pub use scoring::scrabble_letters_score_utf8;
pub use scoring::Modifier;
pub use search::ScrabbleSolution;
pub use search::ScrabbleSolutionBuilder;
pub use util::Direction;
pub use util::Letter;
pub use util::Word;
pub use util::WILDCARD_LETTER;
