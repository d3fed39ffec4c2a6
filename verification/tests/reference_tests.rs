use scrabble_solver::{
    scrabble_letter_score, Coord, DictionaryTrie, Direction, LetterBag, Modifier, ScrabbleBoard,
};
use std::collections::HashSet;

const LIST: &str = "aa ab ad ae ag ah ai al am an ar as at aw ax ay ba be bi bo by de do ed ef eh \
el em en er es ex fa go ha he hi hm ho id if in is it jo ka la li lo ma me mi mm mo mu my na ne no \
nu od oe of oh om on op or os ow ox oy pa pe pi re sh si so ta ti to uh um un up us ut we wo xi xu \
ya ye yo za add ado ads dad dos god gods goad goads good goods dog dogs sod sad sag gas gad dag \
dags ago goa goas oda odas soda sodas dado dados";

type Play = (String, i32, i32, bool, u32);

struct Reference<'a> {
    board: &'a ScrabbleBoard,
    words: HashSet<String>,
}

impl<'a> Reference<'a> {
    fn tile(&self, r: i32, c: i32) -> Option<u8> {
        let coord = Coord::new(r, c);
        if self.board.is_coord_in_bounds(coord) {
            self.board.letter(coord)
        } else {
            None
        }
    }

    fn on_board(&self, r: i32, c: i32) -> bool {
        self.board.is_coord_in_bounds(Coord::new(r, c))
    }

    fn is_word(&self, letters: &[u8]) -> bool {
        let lower: String = letters.iter().map(|l| l.to_ascii_lowercase() as char).collect();
        self.words.contains(&lower)
    }

    /// The run of tiles through r, c across the direction, with l at r, c.
    fn crossing(&self, r: i32, c: i32, right: bool, l: u8) -> Vec<u8> {
        let (dr, dc) = if right { (1, 0) } else { (0, 1) };
        let mut before = Vec::new();
        let mut k = 1;
        while let Some(t) = self.tile(r - k * dr, c - k * dc) {
            before.push(t);
            k += 1;
        }
        before.reverse();
        before.push(l);
        k = 1;
        while let Some(t) = self.tile(r + k * dr, c + k * dc) {
            before.push(t);
            k += 1;
        }
        before
    }

    /// The score of the letters laid from r, c on, or nothing where they are no play.
    fn score(&self, r: i32, c: i32, right: bool, letters: &[u8]) -> Option<u32> {
        let (dr, dc) = if right { (0, 1) } else { (1, 0) };
        let n = letters.len() as i32;
        if self.tile(r - dr, c - dc).is_some() || self.tile(r + n * dr, c + n * dc).is_some() {
            return None;
        }
        if !self.is_word(letters) {
            return None;
        }
        let mut letter_score = 0;
        let mut factor = 1;
        let mut across = 0;
        let mut placed = 0;
        let mut anchored = false;
        for k in 0..n {
            let (row, col) = (r + k * dr, c + k * dc);
            let l = letters[k as usize];
            if !self.on_board(row, col) {
                return None;
            }
            match self.tile(row, col) {
                Some(t) => {
                    if t != l {
                        return None;
                    }
                    anchored = true;
                    letter_score += scrabble_letter_score(l);
                }
                None => {
                    placed += 1;
                    let modifier = self.board.modifier(Coord::new(row, col));
                    let face = scrabble_letter_score(l);
                    letter_score += match modifier {
                        Some(Modifier::DoubleLetter) => 2 * face,
                        Some(Modifier::TripleLetter) => 3 * face,
                        _ => face,
                    };
                    factor *= match modifier {
                        Some(Modifier::DoubleWord) => 2,
                        Some(Modifier::TripleWord) => 3,
                        _ => 1,
                    };
                    if row == (self.board.nrows() as i32) / 2
                        && col == (self.board.ncols() as i32) / 2
                    {
                        anchored = true;
                    }
                    let crossing = self.crossing(row, col, right, l);
                    if crossing.len() > 1 {
                        if !self.is_word(&crossing) {
                            return None;
                        }
                        anchored = true;
                        let base: u32 = crossing.iter().map(|t| scrabble_letter_score(*t)).sum();
                        across += match modifier {
                            Some(Modifier::DoubleWord) => base * 2,
                            Some(Modifier::TripleWord) => base * 3,
                            Some(Modifier::DoubleLetter) => base + face,
                            Some(Modifier::TripleLetter) => base + 2 * face,
                            None => base,
                        };
                    }
                }
            }
        }
        if placed == 0 || !anchored {
            return None;
        }
        Some(letter_score * factor + across + if placed >= 7 { 50 } else { 0 })
    }

    /// Every way to lay `word` from r, c on with the tiles of the bag: the new tiles
    /// in lower case from the bag's letters, in upper case from its blanks.
    fn spellings(&self, r: i32, c: i32, right: bool, word: &[u8], bag: &[u8]) -> Vec<Vec<u8>> {
        let (dr, dc) = if right { (0, 1) } else { (1, 0) };
        let mut found: Vec<(Vec<u8>, Vec<u8>)> = vec![(Vec::new(), bag.to_vec())];
        for (k, l) in word.iter().enumerate() {
            let k = k as i32;
            let mut next = Vec::new();
            for (so_far, left) in found.into_iter() {
                match self.tile(r + k * dr, c + k * dc) {
                    Some(t) => {
                        if t.to_ascii_lowercase() == *l {
                            let mut s = so_far.clone();
                            s.push(t);
                            next.push((s, left.clone()));
                        }
                    }
                    None => {
                        if let Some(at) = left.iter().position(|b| b == l) {
                            let mut s = so_far.clone();
                            s.push(*l);
                            let mut rest = left.clone();
                            rest.remove(at);
                            next.push((s, rest));
                        }
                        if let Some(at) = left.iter().position(|b| *b == b'*') {
                            let mut s = so_far.clone();
                            s.push(l.to_ascii_uppercase());
                            let mut rest = left.clone();
                            rest.remove(at);
                            next.push((s, rest));
                        }
                    }
                }
            }
            found = next;
        }
        found.into_iter().map(|(s, _)| s).collect()
    }

    fn all_plays(&self, bag: &[u8]) -> Vec<Play> {
        let mut plays = Vec::new();
        for r in 0..self.board.nrows() as i32 {
            for c in 0..self.board.ncols() as i32 {
                for right in [true, false] {
                    for word in self.words.iter() {
                        for letters in self.spellings(r, c, right, word.as_bytes(), bag) {
                            if let Some(score) = self.score(r, c, right, &letters) {
                                plays.push((
                                    String::from_utf8(letters).unwrap(),
                                    r,
                                    c,
                                    right,
                                    score,
                                ));
                            }
                        }
                    }
                }
            }
        }
        plays.sort();
        plays
    }
}

fn compare(board: &ScrabbleBoard, bag: &str) {
    let dict = DictionaryTrie::from_word_list(LIST);
    let reference = Reference {
        board,
        words: LIST.split_ascii_whitespace().map(String::from).collect(),
    };
    let letters = LetterBag::from_string(bag);
    assert!(board.can_search(&letters));
    let mut found: Vec<Play> = board
        .find_all_valid_words(&letters, &dict)
        .into_iter()
        .map(|s| {
            (
                s.word,
                s.start_coord.row,
                s.start_coord.col,
                s.direction == Direction::Right,
                s.score,
            )
        })
        .collect();
    found.sort();
    let expected = reference.all_plays(bag.as_bytes());
    assert_eq!(found, expected, "letters {}", bag);
}

#[test]
fn the_search_agrees_with_the_rules_on_an_empty_board() {
    let board = ScrabbleBoard::empty_scrabble_board();
    compare(&board, "dog");
    compare(&board, "sa*");
    compare(&board, "");
    compare(&board, "xqz");
}

#[test]
fn the_search_agrees_with_the_rules_around_tiles() {
    let mut board = ScrabbleBoard::empty_scrabble_board();
    board.add_word(Coord::new(7, 6), Direction::Right, "god");
    compare(&board, "s");
    compare(&board, "as");
    compare(&board, "*");
    compare(&board, "ado");
    board.add_word(Coord::new(6, 8), Direction::Down, "ado");
    compare(&board, "sa");
    compare(&board, "d*");
    board.add_word(Coord::new(9, 8), Direction::Right, "Das");
    compare(&board, "go");
    compare(&board, "a*s");
}

#[test]
fn the_search_agrees_with_the_rules_at_the_edges() {
    let mut board = ScrabbleBoard::empty_scrabble_board();
    board.add_word(Coord::new(0, 0), Direction::Right, "do");
    board.add_word(Coord::new(12, 14), Direction::Down, "gas");
    board.add_word(Coord::new(14, 0), Direction::Right, "sodas");
    compare(&board, "ad");
    compare(&board, "o*");
}

#[test]
fn the_search_agrees_with_the_rules_on_a_small_board() {
    let mut board = ScrabbleBoard::with_modifiers(vec![
        vec![Some(Modifier::TripleWord), None, Some(Modifier::DoubleLetter), None],
        vec![None, Some(Modifier::DoubleWord), None, Some(Modifier::TripleLetter)],
        vec![Some(Modifier::DoubleLetter), None, Some(Modifier::DoubleWord), None],
    ]);
    compare(&board, "dogs");
    compare(&board, "a*");
    board.set_letter_unchecked(Coord::new(1, 1), b'o');
    compare(&board, "dgs");
    compare(&board, "d**");
}
