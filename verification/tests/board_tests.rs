use scrabble_solver::board::{is_modifier_row, modifier_row};
use scrabble_solver::util::{is_alphabetic, is_letter, to_lowercase};
use scrabble_solver::{
    scrabble_letter_score, scrabble_letters_score_utf8, Coord, DictionaryTrie, Direction, Grid,
    Modifier, ScrabbleBoard, WordAroundValidation, WILDCARD_LETTER,
};

#[test]
fn empty_scrabble_board_works() {
    let mut b = ScrabbleBoard::empty_scrabble_board();
    b.set_letter_unchecked(Coord::new(0, 0), b'a');
    println!("Hi");
    assert_eq!(b.letter(Coord::new(0, 0)), Some(b'a'));
    assert_eq!(b.letter(Coord::new(0, 1)), None);
}

#[test]
fn test_scrabble_letters_score() {
    let score1 = scrabble_letters_score_utf8(&Vec::from("za".as_bytes()));
    assert_eq!(score1, 11);
}

#[test]
fn letter_values() {
    let expected: [(u8, u32); 26] = [
        (b'a', 1), (b'b', 3), (b'c', 3), (b'd', 2), (b'e', 1), (b'f', 4), (b'g', 2), (b'h', 4),
        (b'i', 1), (b'j', 8), (b'k', 5), (b'l', 1), (b'm', 3), (b'n', 1), (b'o', 1), (b'p', 3),
        (b'q', 10), (b'r', 1), (b's', 1), (b't', 1), (b'u', 1), (b'v', 4), (b'w', 4), (b'x', 8),
        (b'y', 4), (b'z', 10),
    ];
    for (l, v) in expected.iter() {
        assert_eq!(scrabble_letter_score(*l), *v);
        assert_eq!(scrabble_letter_score(l.to_ascii_uppercase()), 0);
    }
    assert_eq!(scrabble_letters_score_utf8(&Vec::from("quiz".as_bytes())), 22);
    assert_eq!(scrabble_letters_score_utf8(&Vec::from("QUIZ".as_bytes())), 0);
    assert_eq!(scrabble_letters_score_utf8(&Vec::from("zA".as_bytes())), 10);
    assert_eq!(scrabble_letters_score_utf8(&Vec::new()), 0);
}

#[test]
fn letters_and_case() {
    assert!(is_letter(b'a') && is_letter(b'z') && is_letter(b'A') && is_letter(b'Z'));
    assert!(!is_letter(b'@') && !is_letter(b'[') && !is_letter(b'`') && !is_letter(b'{'));
    assert!(!is_letter(WILDCARD_LETTER));
    assert_eq!(WILDCARD_LETTER, b'*');
    assert_eq!(to_lowercase(b'Q'), b'q');
    assert_eq!(to_lowercase(b'q'), b'q');
    assert_eq!(to_lowercase(b'*'), b'*');
    assert!(is_alphabetic(b"Word"));
    assert!(is_alphabetic(b""));
    assert!(!is_alphabetic(b"two words"));
}

#[test]
fn directions_and_coordinates() {
    assert!(Direction::Right.rotate() == Direction::Down);
    assert!(Direction::Down.rotate() == Direction::Right);
    let c = Coord::new(3, 4);
    assert!(c.next(Direction::Right) == Coord::new(3, 5));
    assert!(c.next(Direction::Down) == Coord::new(4, 4));
    assert!(c.prev(Direction::Right) == Coord::new(3, 3));
    assert!(c.prev(Direction::Down) == Coord::new(2, 4));
    assert!(Coord::new(0, 0).prev(Direction::Down) == Coord::new(-1, 0));
}

#[test]
fn grid_access() {
    let mut g: Grid<u8> = Grid::new(2, 3, 7);
    assert_eq!(g.nrows(), 2);
    assert_eq!(g.ncols(), 3);
    assert!(g.is_coord_in_bounds(Coord::new(1, 2)));
    assert!(!g.is_coord_in_bounds(Coord::new(2, 0)));
    assert!(!g.is_coord_in_bounds(Coord::new(0, 3)));
    assert!(!g.is_coord_in_bounds(Coord::new(-1, 0)));
    assert!(!g.is_coord_in_bounds(Coord::new(0, -1)));
    g.set_unchecked(Coord::new(1, 0), 9);
    assert_eq!(g.get_unchecked(Coord::new(1, 0)), 9);
    assert_eq!(g.get(Coord::new(1, 0)), Some(9));
    assert_eq!(g.get(Coord::new(0, 2)), Some(7));
    assert_eq!(g.get(Coord::new(0, 3)), None);
    assert_eq!(g.get(Coord::new(-1, 1)), None);
    assert_eq!(g.get(Coord::new(2, 0)), None);
    let copy = g.duplicate();
    g.set_unchecked(Coord::new(0, 0), 1);
    assert_eq!(copy.get(Coord::new(0, 0)), Some(7));
    assert_eq!(copy.get(Coord::new(1, 0)), Some(9));
}

#[test]
fn grid_from_rows() {
    let g = Grid::from(vec![vec![1u8, 2, 3], vec![4, 5, 6]]);
    assert_eq!(g.nrows(), 2);
    assert_eq!(g.ncols(), 3);
    assert_eq!(g.get(Coord::new(0, 0)), Some(1));
    assert_eq!(g.get(Coord::new(0, 2)), Some(3));
    assert_eq!(g.get(Coord::new(1, 0)), Some(4));
    assert_eq!(g.get(Coord::new(1, 2)), Some(6));
    assert_eq!(g.get(Coord::new(1, 3)), None);
}

#[test]
fn modifier_characters() {
    assert!(Modifier::from_char_spec('d') == Some(Modifier::DoubleLetter));
    assert!(Modifier::from_char_spec('t') == Some(Modifier::TripleLetter));
    assert!(Modifier::from_char_spec('D') == Some(Modifier::DoubleWord));
    assert!(Modifier::from_char_spec('T') == Some(Modifier::TripleWord));
    assert!(Modifier::from_char_spec(' ') == None);
    assert!(Modifier::is_char_spec('d') && Modifier::is_char_spec(' '));
    assert!(!Modifier::is_char_spec('x') && !Modifier::is_char_spec('\n'));
    assert!(is_modifier_row("dt DT"));
    assert!(!is_modifier_row("dt-DT"));
    assert!(
        modifier_row("d T")
            == vec![Some(Modifier::DoubleLetter), None, Some(Modifier::TripleWord)]
    );
}

#[test]
fn standard_board_layout() {
    let b = ScrabbleBoard::empty_scrabble_board();
    assert_eq!(b.nrows(), 15);
    assert_eq!(b.ncols(), 15);
    assert!(b.is_middle(Coord::new(7, 7)));
    assert!(!b.is_middle(Coord::new(7, 8)));
    assert!(!b.is_middle(Coord::new(6, 7)));
    assert!(b.is_coord_in_bounds(Coord::new(14, 14)));
    assert!(!b.is_coord_in_bounds(Coord::new(15, 0)));
    assert!(!b.is_coord_in_bounds(Coord::new(0, -1)));
    let mut triple_words = 0;
    let mut double_words = 0;
    let mut triple_letters = 0;
    let mut double_letters = 0;
    for r in 0..15 {
        for c in 0..15 {
            assert_eq!(b.letter(Coord::new(r, c)), None);
            let m = b.modifier(Coord::new(r, c));
            assert!(m == b.modifier(Coord::new(14 - r, c)));
            assert!(m == b.modifier(Coord::new(r, 14 - c)));
            assert!(m == b.modifier(Coord::new(c, r)));
            match m {
                Some(Modifier::TripleWord) => triple_words += 1,
                Some(Modifier::DoubleWord) => double_words += 1,
                Some(Modifier::TripleLetter) => triple_letters += 1,
                Some(Modifier::DoubleLetter) => double_letters += 1,
                None => {}
            }
        }
    }
    assert_eq!(triple_words, 8);
    assert_eq!(double_words, 17);
    assert_eq!(triple_letters, 12);
    assert_eq!(double_letters, 24);
    assert!(b.modifier(Coord::new(0, 0)) == Some(Modifier::TripleWord));
    assert!(b.modifier(Coord::new(7, 7)) == Some(Modifier::DoubleWord));
    assert!(b.modifier(Coord::new(1, 5)) == Some(Modifier::TripleLetter));
    assert!(b.modifier(Coord::new(0, 3)) == Some(Modifier::DoubleLetter));
    assert!(b.modifier(Coord::new(0, 1)) == None);
}

#[test]
fn boards_of_other_shapes() {
    let b = ScrabbleBoard::with_modifiers(vec![
        vec![None, Some(Modifier::DoubleWord), None],
        vec![Some(Modifier::TripleLetter), None, None],
    ]);
    assert_eq!(b.nrows(), 2);
    assert_eq!(b.ncols(), 3);
    assert!(b.is_middle(Coord::new(1, 1)));
    assert!(b.modifier(Coord::new(0, 1)) == Some(Modifier::DoubleWord));
    assert!(b.modifier(Coord::new(1, 0)) == Some(Modifier::TripleLetter));
    assert_eq!(b.letter(Coord::new(1, 2)), None);
    assert!(b.has_only_letters());
}

#[test]
fn add_word_lays_letters_along_a_direction() {
    let mut b = ScrabbleBoard::empty_scrabble_board();
    b.add_word(Coord::new(7, 5), Direction::Right, "lolcatz");
    b.add_word(Coord::new(6, 6), Direction::Down, "goalie");
    let row: Vec<Option<u8>> = (4..13).map(|c| b.letter(Coord::new(7, c))).collect();
    assert_eq!(
        row,
        vec![None, Some(b'l'), Some(b'o'), Some(b'l'), Some(b'c'), Some(b'a'), Some(b't'),
            Some(b'z'), None]
    );
    let col: Vec<Option<u8>> = (5..13).map(|r| b.letter(Coord::new(r, 6))).collect();
    assert_eq!(
        col,
        vec![None, Some(b'g'), Some(b'o'), Some(b'a'), Some(b'l'), Some(b'i'), Some(b'e'), None]
    );
    assert!(b.has_only_letters());
    let copy = b.clone();
    b.set_letter_unchecked(Coord::new(0, 0), b'1');
    assert!(!b.has_only_letters());
    assert!(copy.has_only_letters());
    assert_eq!(copy.letter(Coord::new(0, 0)), None);
    assert_eq!(copy.letter(Coord::new(7, 11)), Some(b'z'));
    b.add_word(Coord::new(3, 3), Direction::Down, "");
    assert_eq!(b.letter(Coord::new(3, 3)), None);
}

#[test]
fn words_around_a_new_tile() {
    let dict = DictionaryTrie::from_word_list("god do ag so goad");
    let mut board = ScrabbleBoard::empty_scrabble_board();
    board.add_word(Coord::new(6, 7), Direction::Down, "god");
    assert!(
        board.validate_word_around(&dict, Coord::new(7, 6), Direction::Down, b'd')
            == WordAroundValidation::NothingAround
    );
    // "do" across, on a plain cell: 2 + 1.
    assert!(
        board.validate_word_around(&dict, Coord::new(7, 6), Direction::Right, b'd')
            == WordAroundValidation::ValidWordScore(3)
    );
    // a blank scores nothing, the word still counts.
    assert!(
        board.validate_word_around(&dict, Coord::new(7, 6), Direction::Right, b'D')
            == WordAroundValidation::ValidWordScore(1)
    );
    assert!(
        board.validate_word_around(&dict, Coord::new(7, 6), Direction::Right, b'z')
            == WordAroundValidation::InvalidWord
    );
    // "ag" on a double-letter cell: 1 + 2, and 1 more for the new tile.
    assert!(
        board.validate_word_around(&dict, Coord::new(6, 6), Direction::Right, b'a')
            == WordAroundValidation::ValidWordScore(4)
    );
    // a tile at the end of a run: "gods" is no word of this dictionary.
    assert!(
        board.validate_word_around(&dict, Coord::new(9, 7), Direction::Down, b's')
            == WordAroundValidation::InvalidWord
    );
    // a tile in a gap joins both runs.
    let mut gap = ScrabbleBoard::empty_scrabble_board();
    gap.add_word(Coord::new(4, 4), Direction::Right, "go");
    gap.add_word(Coord::new(4, 7), Direction::Right, "d");
    // "goad" with the new tile on a plain cell: 2 + 1 + 1 + 2.
    assert!(gap.modifier(Coord::new(4, 6)).is_none());
    assert!(
        gap.validate_word_around(&dict, Coord::new(4, 6), Direction::Right, b'a')
            == WordAroundValidation::ValidWordScore(6)
    );
    // and on a double-word cell: "goad" down through 4, 4.
    let mut down = ScrabbleBoard::empty_scrabble_board();
    down.add_word(Coord::new(2, 4), Direction::Down, "go");
    down.add_word(Coord::new(5, 4), Direction::Down, "d");
    assert!(down.modifier(Coord::new(4, 4)) == Some(Modifier::DoubleWord));
    assert!(
        down.validate_word_around(&dict, Coord::new(4, 4), Direction::Down, b'a')
            == WordAroundValidation::ValidWordScore(12)
    );
    // on a triple-letter cell the new tile counts three times: "ag" at 5, 5.
    let mut triple = ScrabbleBoard::empty_scrabble_board();
    triple.set_letter_unchecked(Coord::new(5, 6), b'g');
    assert!(triple.modifier(Coord::new(5, 5)) == Some(Modifier::TripleLetter));
    assert!(
        triple.validate_word_around(&dict, Coord::new(5, 5), Direction::Right, b'a')
            == WordAroundValidation::ValidWordScore(1 + 2 + 2 * 1)
    );
}

#[test]
fn boards_are_read_from_layouts() {
    let lines = vec![String::from("T d"), String::from(" D "), String::from("t  ")];
    let b = ScrabbleBoard::from_layout(&lines).unwrap();
    assert_eq!(b.nrows(), 3);
    assert_eq!(b.ncols(), 3);
    assert!(b.modifier(Coord::new(0, 0)) == Some(Modifier::TripleWord));
    assert!(b.modifier(Coord::new(0, 1)) == None);
    assert!(b.modifier(Coord::new(0, 2)) == Some(Modifier::DoubleLetter));
    assert!(b.modifier(Coord::new(1, 1)) == Some(Modifier::DoubleWord));
    assert!(b.modifier(Coord::new(2, 0)) == Some(Modifier::TripleLetter));
    assert_eq!(b.letter(Coord::new(1, 1)), None);
    assert_eq!(b.row_text(0), "\u{2462} 2");
    assert!(ScrabbleBoard::from_layout(&Vec::new()).is_none());
    assert!(ScrabbleBoard::from_layout(&vec![String::from("T d"), String::from(" D")]).is_none());
    assert!(ScrabbleBoard::from_layout(&vec![String::from("T d"), String::from(" x ")]).is_none());
    let slim = ScrabbleBoard::from_layout(&vec![String::new(), String::new()]).unwrap();
    assert_eq!(slim.nrows(), 2);
    assert_eq!(slim.ncols(), 0);
    let standard: Vec<String> = (0..15)
        .map(|r| {
            (0..15)
                .map(|c| {
                    match ScrabbleBoard::empty_scrabble_board().modifier(Coord::new(r, c)) {
                        Some(Modifier::DoubleLetter) => 'd',
                        Some(Modifier::TripleLetter) => 't',
                        Some(Modifier::DoubleWord) => 'D',
                        Some(Modifier::TripleWord) => 'T',
                        None => ' ',
                    }
                })
                .collect()
        })
        .collect();
    assert_eq!(standard[0], "T  d   T   d  T");
    assert_eq!(standard[7], "T  d   D   d  T");
    let again = ScrabbleBoard::from_layout(&standard).unwrap();
    for r in 0..15 {
        assert_eq!(again.row_text(r), ScrabbleBoard::empty_scrabble_board().row_text(r));
    }
}
