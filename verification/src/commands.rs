//! The commands of an interactive session and what they do.
//!
//! A session keeps a stack of boards. `place` lays a word on a copy of the
//! board on top and pushes it, `undo` takes the top board off again, `top`
//! searches the board on top. [`parse_command`] reads a command from a line
//! of text; [`Session::step`] carries it out and says what is to be shown.

use crate::board::standard_board;
use crate::board::BoardModel;
use crate::board::ScrabbleBoard;
use crate::dictionary::DictionaryTrie;
use crate::grid::Coord;
use crate::letter_bag::letter_counts;
use crate::letter_bag::LetterBag;
use crate::ranking::in_order;
use crate::ranking::is_ranking;
use crate::ranking::ranked;
use crate::ranking::scores_of;
use crate::search::bag_playable;
use crate::search::solution_views;
use crate::search::ScrabbleSolution;
use crate::placement::score_fits;
use crate::text::byte_rows;
use crate::text::copy_range;
use crate::text::i32_value;
use crate::text::parse_i32;
use crate::text::parse_usize;
use crate::text::split_words;
use crate::text::usize_value;
use crate::text::words_of;
use crate::util::text_bytes;
use crate::util::Direction;
use vstd::prelude::*;

verus! {

/// A command of the interactive session.
pub enum Command {
    /// `help`: list the commands.
    Help,
    /// `print`: show the board.
    Print,
    /// `undo`: take back the last word laid.
    Undo,
    /// `place (r|d) row col letters`: lay a word on the board.
    Place { direction: Direction, coord: Coord, letters: Vec<u8> },
    /// `place` with a direction, row, column or word missing or unreadable.
    InvalidPlace,
    /// `top letters [n]`: find the best words for the letters.
    Top { letters: Vec<u8>, limit: Option<usize> },
    /// `top` without letters.
    InvalidTop,
    /// Anything else, with its first word.
    Unknown(Vec<u8>),
}

/// The mathematical picture of a command.
pub enum CommandModel {
    Help,
    Print,
    Undo,
    Place { direction: Direction, coord: Coord, letters: Seq<u8> },
    InvalidPlace,
    Top { letters: Seq<u8>, limit: Option<usize> },
    InvalidTop,
    Unknown(Seq<u8>),
}

impl View for Command {
    type V = CommandModel;

    open spec fn view(&self) -> CommandModel {
        match self {
            Command::Help => CommandModel::Help,
            Command::Print => CommandModel::Print,
            Command::Undo => CommandModel::Undo,
            Command::Place { direction, coord, letters } => CommandModel::Place {
                direction: *direction,
                coord: *coord,
                letters: letters@,
            },
            Command::InvalidPlace => CommandModel::InvalidPlace,
            Command::Top { letters, limit } => CommandModel::Top {
                letters: letters@,
                limit: *limit,
            },
            Command::InvalidTop => CommandModel::InvalidTop,
            Command::Unknown(word) => CommandModel::Unknown(word@),
        }
    }
}

/// The direction that a word names: `r` or `R` for right, `d` or `D` for
/// down.
pub open spec fn direction_of(word: Seq<u8>) -> Option<Direction> {
    if word.len() == 1 && (word[0] == 114 || word[0] == 82) {
        Some(Direction::Right)
    } else if word.len() == 1 && (word[0] == 100 || word[0] == 68) {
        Some(Direction::Down)
    } else {
        None
    }
}

/// The command that the words of a line spell.
pub open spec fn command_of(words: Seq<Seq<u8>>) -> CommandModel {
    if words.len() == 0 {
        CommandModel::Unknown(Seq::empty())
    } else if words[0] == text_bytes("help"@) {
        CommandModel::Help
    } else if words[0] == text_bytes("print"@) {
        CommandModel::Print
    } else if words[0] == text_bytes("undo"@) {
        CommandModel::Undo
    } else if words[0] == text_bytes("place"@) {
        if words.len() >= 5 {
            match (direction_of(words[1]), i32_value(words[2]), i32_value(words[3])) {
                (Some(direction), Some(row), Some(col)) => CommandModel::Place {
                    direction,
                    coord: Coord { row, col },
                    letters: words[4],
                },
                _ => CommandModel::InvalidPlace,
            }
        } else {
            CommandModel::InvalidPlace
        }
    } else if words[0] == text_bytes("top"@) {
        if words.len() >= 2 {
            CommandModel::Top {
                letters: words[1],
                limit: if words.len() >= 3 {
                    usize_value(words[2])
                } else {
                    None
                },
            }
        } else {
            CommandModel::InvalidTop
        }
    } else {
        CommandModel::Unknown(words[0])
    }
}

/// True exactly when `word` is the text `keyword`, byte for byte.
pub fn is_keyword(word: &[u8], keyword: &str) -> (b: bool)
    ensures
        b == (word@ == text_bytes(keyword@)),
{
    let bytes = keyword.as_bytes();
    if word.len() != bytes.len() {
        return false;
    }
    let mut i: usize = 0;
    while i < word.len()
        invariant
            bytes@ == text_bytes(keyword@),
            word@.len() == bytes@.len(),
            i <= word@.len(),
            forall|k: int| 0 <= k < i ==> word@[k] == bytes@[k],
        decreases word@.len() - i,
    {
        if word[i] != bytes[i] {
            assert(word@[i as int] != bytes@[i as int]);
            return false;
        }
        i += 1;
    }
    assert(word@ =~= bytes@);
    true
}

/// The direction that a word names.
pub fn parse_direction(word: &[u8]) -> (d: Option<Direction>)
    ensures
        d == direction_of(word@),
{
    if word.len() != 1 {
        None
    } else if word[0] == 114 || word[0] == 82 {
        Some(Direction::Right)
    } else if word[0] == 100 || word[0] == 68 {
        Some(Direction::Down)
    } else {
        None
    }
}

/// Reads a command from a line of text. The words of the line are
/// separated by white space; the first names the command, the others are
/// what it needs, and what follows them is ignored.
pub fn parse_command(line: &str) -> (command: Command)
    ensures
        command@ == command_of(words_of(text_bytes(line@))),
{
    let words = split_words(line.as_bytes());
    let ghost spelled = words_of(text_bytes(line@));
    assert(forall|i: int| 0 <= i < words@.len() ==> #[trigger] words@[i]@ == spelled[i]) by {
        assert(byte_rows(words@) == spelled);
        assert forall|i: int| 0 <= i < words@.len() implies #[trigger] words@[i]@ == spelled[i] by {
            assert(byte_rows(words@)[i] == words@[i]@);
        }
    }
    assert(words@.len() == spelled.len()) by {
        assert(byte_rows(words@).len() == words@.len());
    }
    if words.len() == 0 {
        return Command::Unknown(Vec::new());
    }
    let first = words[0].as_slice();
    if is_keyword(first, "help") {
        Command::Help
    } else if is_keyword(first, "print") {
        Command::Print
    } else if is_keyword(first, "undo") {
        Command::Undo
    } else if is_keyword(first, "place") {
        if words.len() >= 5 {
            let direction = parse_direction(words[1].as_slice());
            let row = parse_i32(words[2].as_slice());
            let col = parse_i32(words[3].as_slice());
            match (direction, row, col) {
                (Some(direction), Some(row), Some(col)) => {
                    let letters = copy_range(words[4].as_slice(), 0, words[4].len());
                    assert(letters@ =~= spelled[4]);
                    Command::Place { direction, coord: Coord { row, col }, letters }
                },
                _ => Command::InvalidPlace,
            }
        } else {
            Command::InvalidPlace
        }
    } else if is_keyword(first, "top") {
        if words.len() >= 2 {
            let letters = copy_range(words[1].as_slice(), 0, words[1].len());
            assert(letters@ =~= spelled[1]);
            let limit = if words.len() >= 3 {
                parse_usize(words[2].as_slice())
            } else {
                None
            };
            Command::Top { letters, limit }
        } else {
            Command::InvalidTop
        }
    } else {
        let word = copy_range(first, 0, first.len());
        assert(word@ =~= spelled[0]);
        Command::Unknown(word)
    }
}

/// What a command leaves to be shown.
pub enum Response {
    /// The list of commands.
    Help,
    /// The board, one text per row.
    Board(Vec<String>),
    /// Nothing: the last board was taken off, if there was one to take.
    Undone,
    /// Nothing: the word was laid.
    Placed,
    /// The word does not fit on the board.
    OffBoard,
    /// The `place` command could not be read.
    InvalidPlace,
    /// The solutions, the best first, and how many of them were asked for.
    Solutions { ranked: Vec<ScrabbleSolution>, limit: Option<usize> },
    /// The board or the letters cannot be searched.
    CannotSearch,
    /// The `top` command could not be read.
    InvalidTop,
    /// The command is not known; its first word.
    Unknown(Vec<u8>),
}

/// An interactive session: the boards laid so far, the current one on top.
pub struct Session {
    boards: Vec<ScrabbleBoard>,
}

impl View for Session {
    type V = Seq<BoardModel>;

    /// The boards of the session, the first one first.
    closed spec fn view(&self) -> Seq<BoardModel> {
        Seq::new(self.boards@.len(), |i: int| self.boards@[i]@)
    }
}

impl Session {
    /// There is a board, and every board is well formed.
    pub closed spec fn wf(&self) -> bool {
        &&& self.boards@.len() > 0
        &&& forall|i: int| 0 <= i < self.boards@.len() ==> (#[trigger] self.boards@[i]).wf()
    }

    /// A session with the empty standard board.
    pub fn new() -> (s: Session)
        ensures
            s.wf(),
            s@ == seq![standard_board()],
    {
        let mut boards: Vec<ScrabbleBoard> = Vec::new();
        boards.push(ScrabbleBoard::empty_scrabble_board());
        let s = Session { boards };
        assert(s@ =~= seq![standard_board()]);
        s
    }

    /// The current board.
    pub fn board(&self) -> (b: &ScrabbleBoard)
        requires
            self.wf(),
        ensures
            b.wf(),
            b@ == self@.last(),
    {
        &self.boards[self.boards.len() - 1]
    }

    /// Takes the current board off, unless it is the only one.
    pub fn undo(&mut self)
        requires
            old(self).wf(),
        ensures
            final(self).wf(),
            final(self)@ == if old(self)@.len() > 1 {
                old(self)@.drop_last()
            } else {
                old(self)@
            },
    {
        let ghost before = self@;
        if self.boards.len() > 1 {
            self.boards.pop();
            assert(self@ =~= before.drop_last());
        }
    }

    /// Lays `letters` on a copy of the current board, from `coord` on along
    /// `direction`, and makes that the current board. Nothing is changed
    /// where the word does not fit on the board.
    pub fn place(&mut self, direction: Direction, coord: Coord, letters: &[u8]) -> (placed: bool)
        requires
            old(self).wf(),
        ensures
            final(self).wf(),
            placed == old(self)@.last().line_fits(coord, direction, letters@.len() as int),
            final(self)@ == if placed {
                old(self)@.push(
                    old(self)@.last().with_word(
                        coord.row as int,
                        coord.col as int,
                        direction,
                        letters@,
                    ),
                )
            } else {
                old(self)@
            },
    {
        let ghost before = self@;
        let board = self.board();
        if !board.word_fits(coord, direction, letters.len()) {
            return false;
        }
        let mut new_board = board.clone();
        new_board.add_letters(coord, direction, letters);
        self.boards.push(new_board);
        assert(self@ =~= before.push(
            before.last().with_word(coord.row as int, coord.col as int, direction, letters@),
        ));
        true
    }

    /// The texts that show the current board, one per row.
    pub fn show(&self) -> (rows: Vec<String>)
        requires
            self.wf(),
        ensures
            rows@.len() == self@.last().nrows,
            forall|i: int|
                0 <= i < rows@.len() ==> (#[trigger] rows@[i])@ == self@.last().row_symbols(i),
    {
        let board = self.board();
        let nrows = board.nrows();
        let mut rows: Vec<String> = Vec::new();
        let mut i: usize = 0;
        while i < nrows
            invariant
                board.wf(),
                nrows == board@.nrows,
                i <= nrows,
                rows@.len() == i,
                forall|k: int| 0 <= k < i ==> (#[trigger] rows@[k])@ == board@.row_symbols(k),
            decreases nrows - i,
        {
            rows.push(board.row_text(i));
            i += 1;
        }
        rows
    }

    /// The solutions for `letters` on the current board, the best first;
    /// nothing where the board or the letters cannot be searched.
    pub fn top(&self, letters: &[u8], dict: &DictionaryTrie) -> (r: Option<Vec<ScrabbleSolution>>)
        requires
            self.wf(),
            dict.wf(),
        ensures
            r is Some <==> letters@.len() <= u32::MAX && self@.last().letters_alphabetic()
                && bag_playable(letter_counts(letters@)) && score_fits(
                self@.last().max_dim(),
                letters@.len(),
            ),
            r matches Some(best) ==> exists|order: Seq<usize>|
                is_ranking(
                    scores_of(self@.last().all_plays(dict@, letter_counts(letters@))),
                    order,
                ) && #[trigger] in_order(
                    self@.last().all_plays(dict@, letter_counts(letters@)),
                    order,
                ) == solution_views(best@),
    {
        if letters.len() > 0xffff_ffff {
            return None;
        }
        let bag = LetterBag::from_bytes(letters);
        match self.board().solve(&bag, dict) {
            None => None,
            Some(found) => Some(ranked(&found)),
        }
    }

    /// Carries out a command and says what is to be shown.
    pub fn step(&mut self, command: &Command, dict: &DictionaryTrie) -> (response: Response)
        requires
            old(self).wf(),
            dict.wf(),
        ensures
            final(self).wf(),
            match command@ {
                CommandModel::Help => response is Help && final(self)@ == old(self)@,
                CommandModel::Print => final(self)@ == old(self)@ && (response matches Response::Board(
                    rows,
                ) && rows@.len() == old(self)@.last().nrows && forall|i: int|
                    0 <= i < rows@.len() ==> (#[trigger] rows@[i])@ == old(self)@.last().row_symbols(
                        i,
                    )),
                CommandModel::Undo => response is Undone && final(self)@ == if old(self)@.len() > 1 {
                    old(self)@.drop_last()
                } else {
                    old(self)@
                },
                CommandModel::Place { direction, coord, letters } => if old(self)@.last().line_fits(
                    coord,
                    direction,
                    letters.len() as int,
                ) {
                    response is Placed && final(self)@ == old(self)@.push(
                        old(self)@.last().with_word(
                            coord.row as int,
                            coord.col as int,
                            direction,
                            letters,
                        ),
                    )
                } else {
                    response is OffBoard && final(self)@ == old(self)@
                },
                CommandModel::InvalidPlace => response is InvalidPlace && final(self)@ == old(
                    self,
                )@,
                CommandModel::Top { letters, limit } => final(self)@ == old(self)@ && if letters.len()
                    <= u32::MAX && old(self)@.last().letters_alphabetic() && bag_playable(
                    letter_counts(letters),
                ) && score_fits(old(self)@.last().max_dim(), letters.len()) {
                    response matches Response::Solutions { ranked: best, limit: asked } && asked
                        == limit && exists|order: Seq<usize>|
                        is_ranking(
                            scores_of(old(self)@.last().all_plays(dict@, letter_counts(letters))),
                            order,
                        ) && #[trigger] in_order(
                            old(self)@.last().all_plays(dict@, letter_counts(letters)),
                            order,
                        ) == solution_views(best@)
                } else {
                    response is CannotSearch
                },
                CommandModel::InvalidTop => response is InvalidTop && final(self)@ == old(self)@,
                CommandModel::Unknown(word) => final(self)@ == old(self)@ && (
                response matches Response::Unknown(shown) && shown@ == word),
            },
    {
        match command {
            Command::Help => Response::Help,
            Command::Print => Response::Board(self.show()),
            Command::Undo => {
                self.undo();
                Response::Undone
            },
            Command::Place { direction, coord, letters } => {
                if self.place(*direction, *coord, letters.as_slice()) {
                    Response::Placed
                } else {
                    Response::OffBoard
                }
            },
            Command::InvalidPlace => Response::InvalidPlace,
            Command::Top { letters, limit } => match self.top(letters.as_slice(), dict) {
                Some(best) => Response::Solutions { ranked: best, limit: *limit },
                None => Response::CannotSearch,
            },
            Command::InvalidTop => Response::InvalidTop,
            Command::Unknown(word) => Response::Unknown(copy_range(word.as_slice(), 0, word.len())),
        }
    }
}

} // verus!
