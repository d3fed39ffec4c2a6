use scrabble_solver::placement::scores_fit;
use scrabble_solver::search::letters_to_string;
use scrabble_solver::{
    Coord, DictionaryTrie, Direction, LetterBag, Modifier, ScrabbleBoard, ScrabbleSolution,
    ScrabbleSolutionBuilder,
};

const WORDS: &str = "aa ab ad ae ag ah ai al am an ar as at aw ax ay ba be bi bo by de do ed ef eh el \
em en er es ex fa go ha he hi hm ho id if in is it jo ka la li lo ma me mi mm mo mu my na ne no nu \
od oe of oh om on op or os ow ox oy pa pe pi re sh si so ta ti to uh um un up us ut we wo xi xu ya \
ye yo za\nbrawn brawns dog dogs god gods goad good\n";

fn sample_dictionary() -> DictionaryTrie {
    DictionaryTrie::from_word_list(WORDS)
}

fn covers(s: &ScrabbleSolution, row: i32, col: i32) -> bool {
    let len = s.word.len() as i32;
    match s.direction {
        Direction::Right => {
            s.start_coord.row == row && s.start_coord.col <= col && col < s.start_coord.col + len
        }
        Direction::Down => {
            s.start_coord.col == col && s.start_coord.row <= row && row < s.start_coord.row + len
        }
    }
}

#[test]
fn find_words_empty_board() {
    let dict = sample_dictionary();
    let board = ScrabbleBoard::empty_scrabble_board();
    let letters = LetterBag::from_string("za");

    let right_solutions =
        board.find_valid_words_coord(Coord::new(7, 6), Direction::Right, letters.clone(), &dict);

    let down_solutions =
        board.find_valid_words_coord(Coord::new(7, 6), Direction::Right, letters.clone(), &dict);

    assert_eq!(right_solutions.len(), 1);
    assert_eq!(down_solutions.len(), 1);
    assert_eq!(right_solutions[0].word, String::from("za"));
}

#[test]
fn get_anchored_solutions() {
    let dict = sample_dictionary();
    let mut board = ScrabbleBoard::empty_scrabble_board();
    board.set_letter_unchecked(Coord::new(6, 7), b'g');
    board.set_letter_unchecked(Coord::new(7, 7), b'o');
    board.set_letter_unchecked(Coord::new(8, 7), b'd');

    let letters = LetterBag::from_string("d");

    let right_solutions =
        board.find_valid_words_coord(Coord::new(7, 6), Direction::Right, letters, &dict);

    assert_eq!(right_solutions.len(), 1);
    assert_eq!(right_solutions[0].word, "do");
}

#[test]
fn first_word_goes_through_the_centre() {
    let dict = sample_dictionary();
    let board = ScrabbleBoard::empty_scrabble_board();
    let letters = LetterBag::from_string("sa");
    assert!(board.can_search(&letters));
    let solutions = board.find_all_valid_words(&letters, &dict);
    assert_eq!(solutions.len(), 4);
    for s in solutions.iter() {
        assert_eq!(s.word, "as");
        assert_eq!(s.score, 4);
        assert!(covers(s, 7, 7));
    }
    let starts: Vec<(i32, i32, bool)> = solutions
        .iter()
        .map(|s| (s.start_coord.row, s.start_coord.col, s.direction == Direction::Right))
        .collect();
    assert_eq!(starts, vec![(6, 7, false), (7, 6, true), (7, 7, true), (7, 7, false)]);
    let elsewhere =
        board.find_valid_words_coord(Coord::new(3, 3), Direction::Right, letters.clone(), &dict);
    assert!(elsewhere.is_empty());
}

#[test]
fn crossing_a_word_needs_a_dictionary_word() {
    let mut board = ScrabbleBoard::empty_scrabble_board();
    board.add_word(Coord::new(6, 7), Direction::Down, "god");
    let with_do = DictionaryTrie::from_word_list("god do");
    let without_do = DictionaryTrie::from_word_list("god dog");
    let found = board.find_valid_words_coord(
        Coord::new(7, 6),
        Direction::Right,
        LetterBag::from_string("d"),
        &with_do,
    );
    assert_eq!(found.len(), 1);
    assert_eq!(found[0].word, "do");
    assert_eq!(found[0].score, 3);
    assert!(found[0].start_coord == Coord::new(7, 6));
    assert!(found[0].direction == Direction::Right);
    let none = board.find_valid_words_coord(
        Coord::new(7, 6),
        Direction::Right,
        LetterBag::from_string("d"),
        &without_do,
    );
    assert!(none.is_empty());
    let wrong_letter = board.find_valid_words_coord(
        Coord::new(7, 6),
        Direction::Right,
        LetterBag::from_string("z"),
        &with_do,
    );
    assert!(wrong_letter.is_empty());
}

#[test]
fn a_word_beside_tiles_is_anchored_by_its_crossing_words() {
    let dict = sample_dictionary();
    let mut board = ScrabbleBoard::empty_scrabble_board();
    board.add_word(Coord::new(6, 7), Direction::Down, "god");
    let found = board.find_valid_words_coord(
        Coord::new(6, 6),
        Direction::Down,
        LetterBag::from_string("as"),
        &dict,
    );
    // "as" down from 6,6: "ag" and "so" across. The a lies on a double-letter cell.
    assert_eq!(found.len(), 1);
    assert_eq!(found[0].word, "as");
    assert_eq!(found[0].score, 3 + 4 + 2);
    // "za" down from 6,6 would need "zg" across.
    let rejected = board.find_valid_words_coord(
        Coord::new(6, 6),
        Direction::Down,
        LetterBag::from_string("za"),
        &dict,
    );
    assert!(rejected.is_empty());
}

#[test]
fn a_word_over_plain_cells_scores_the_sum_of_its_letters() {
    let dict = sample_dictionary();
    let mut board = ScrabbleBoard::empty_scrabble_board();
    board.set_letter_unchecked(Coord::new(7, 7), b'z');
    let solutions = board.find_all_valid_words(&LetterBag::from_string("a"), &dict);
    assert_eq!(solutions.len(), 2);
    for s in solutions.iter() {
        assert_eq!(s.word, "za");
        assert_eq!(s.score, 11);
        assert!(s.start_coord == Coord::new(7, 7));
    }
    assert!(solutions[0].direction == Direction::Right);
    assert!(solutions[1].direction == Direction::Down);
}

#[test]
fn a_triple_word_cell_triples_the_word() {
    let dict = DictionaryTrie::from_word_list("ba");
    let mut board = ScrabbleBoard::empty_scrabble_board();
    board.set_letter_unchecked(Coord::new(0, 1), b'a');
    let solutions = board.find_all_valid_words(&LetterBag::from_string("b"), &dict);
    assert_eq!(solutions.len(), 1);
    assert_eq!(solutions[0].word, "ba");
    assert_eq!(solutions[0].score, 3 * (3 + 1));
    assert!(solutions[0].start_coord == Coord::new(0, 0));
    assert!(solutions[0].direction == Direction::Right);
}

#[test]
fn modifiers_under_old_tiles_do_not_count() {
    let dict = DictionaryTrie::from_word_list("ab");
    let mut board = ScrabbleBoard::empty_scrabble_board();
    board.set_letter_unchecked(Coord::new(0, 0), b'a');
    let solutions = board.find_all_valid_words(&LetterBag::from_string("b"), &dict);
    assert_eq!(solutions.len(), 2);
    for s in solutions.iter() {
        assert_eq!(s.word, "ab");
        assert_eq!(s.score, 4);
    }
}

#[test]
fn seven_tiles_earn_fifty_points() {
    let dict = DictionaryTrie::from_word_list("abcdefg abcdef");
    let board = ScrabbleBoard::empty_scrabble_board();
    let letters = LetterBag::from_string("abcdefg");
    let solutions = board.find_all_valid_words(&letters, &dict);
    let sevens: Vec<&ScrabbleSolution> =
        solutions.iter().filter(|s| s.word == "abcdefg").collect();
    let sixes: Vec<&ScrabbleSolution> = solutions.iter().filter(|s| s.word == "abcdef").collect();
    assert_eq!(sevens.len(), 14);
    assert_eq!(sixes.len(), 12);
    assert_eq!(solutions.len(), 26);
    let from_1 = sevens
        .iter()
        .find(|s| s.direction == Direction::Right && s.start_coord == Coord::new(7, 1))
        .unwrap();
    assert_eq!(from_1.score, (1 + 3 + 2 * 3 + 2 + 1 + 4 + 2) * 2 + 50);
    let from_7 = sevens
        .iter()
        .find(|s| s.direction == Direction::Down && s.start_coord == Coord::new(7, 7))
        .unwrap();
    assert_eq!(from_7.score, (1 + 3 + 3 + 2 + 2 * 1 + 4 + 2) * 2 + 50);
    let six_from_2 = sixes
        .iter()
        .find(|s| s.direction == Direction::Right && s.start_coord == Coord::new(7, 2))
        .unwrap();
    assert_eq!(six_from_2.score, (1 + 2 * 3 + 3 + 2 + 1 + 4) * 2);
}

#[test]
fn a_blank_scores_nothing_and_is_written_in_upper_case() {
    let dict = sample_dictionary();
    let mut board = ScrabbleBoard::empty_scrabble_board();
    board.set_letter_unchecked(Coord::new(7, 7), b'z');
    let solutions = board.find_all_valid_words(&LetterBag::from_string("*"), &dict);
    assert_eq!(solutions.len(), 2);
    for s in solutions.iter() {
        assert_eq!(s.word, "zA");
        assert_eq!(s.score, 10);
    }
}

#[test]
fn blanks_count_towards_the_bonus_and_cross_words() {
    let dict = DictionaryTrie::from_word_list("abcdefg");
    let board = ScrabbleBoard::empty_scrabble_board();
    let solutions = board.find_all_valid_words(&LetterBag::from_string("ab*defg"), &dict);
    assert_eq!(solutions.len(), 14);
    let from_1 = solutions
        .iter()
        .find(|s| s.direction == Direction::Right && s.start_coord == Coord::new(7, 1))
        .unwrap();
    assert_eq!(from_1.word, "abCdefg");
    assert_eq!(from_1.score, (1 + 3 + 0 + 2 + 1 + 4 + 2) * 2 + 50);
    let with_blank = DictionaryTrie::from_word_list("god do");
    let mut crossed = ScrabbleBoard::empty_scrabble_board();
    crossed.add_word(Coord::new(6, 7), Direction::Down, "god");
    let found = crossed.find_valid_words_coord(
        Coord::new(7, 6),
        Direction::Right,
        LetterBag::from_string("*"),
        &with_blank,
    );
    assert_eq!(found.len(), 1);
    assert_eq!(found[0].word, "Do");
    assert_eq!(found[0].score, 1);
}

#[test]
fn tiles_on_the_board_written_in_upper_case_are_read_as_letters() {
    let dict = sample_dictionary();
    let mut board = ScrabbleBoard::empty_scrabble_board();
    board.set_letter_unchecked(Coord::new(7, 7), b'Z');
    let solutions = board.find_all_valid_words(&LetterBag::from_string("a"), &dict);
    assert_eq!(solutions.len(), 2);
    for s in solutions.iter() {
        assert_eq!(s.word, "Za");
        assert_eq!(s.score, 1);
    }
}

#[test]
fn no_word_starts_in_the_middle_of_a_run() {
    let dict = DictionaryTrie::from_word_list("dogs og ogs");
    let mut board = ScrabbleBoard::empty_scrabble_board();
    board.add_word(Coord::new(7, 6), Direction::Right, "dog");
    let from_middle = board.find_valid_words_coord(
        Coord::new(7, 7),
        Direction::Right,
        LetterBag::from_string("s"),
        &dict,
    );
    assert!(from_middle.is_empty());
    let from_start = board.find_valid_words_coord(
        Coord::new(7, 6),
        Direction::Right,
        LetterBag::from_string("s"),
        &dict,
    );
    assert_eq!(from_start.len(), 1);
    assert_eq!(from_start[0].word, "dogs");
    assert_eq!(from_start[0].score, 2 + 1 + 2 + 1);
}

#[test]
fn words_end_at_the_edge_of_the_board() {
    let dict = DictionaryTrie::from_word_list("ab abc");
    let mut board = ScrabbleBoard::empty_scrabble_board();
    board.set_letter_unchecked(Coord::new(3, 13), b'a');
    let found = board.find_valid_words_coord(
        Coord::new(3, 13),
        Direction::Right,
        LetterBag::from_string("bc"),
        &dict,
    );
    assert_eq!(found.len(), 1);
    assert_eq!(found[0].word, "ab");
    // the b lies on the double-letter cell at 3, 14.
    assert_eq!(found[0].score, 1 + 2 * 3);
    let off_board = board.find_valid_words_coord(
        Coord::new(3, 15),
        Direction::Right,
        LetterBag::from_string("bc"),
        &dict,
    );
    assert!(off_board.is_empty());
    let far_off = board.find_valid_words_coord(
        Coord::new(-5, 40),
        Direction::Down,
        LetterBag::from_string("bc"),
        &dict,
    );
    assert!(far_off.is_empty());
}

#[test]
fn a_search_needs_letters() {
    let dict = sample_dictionary();
    let mut board = ScrabbleBoard::empty_scrabble_board();
    assert!(board.can_search(&LetterBag::from_string("abc*")));
    assert!(!board.can_search(&LetterBag::from_string("abc1")));
    assert!(board.can_search(&LetterBag::from_string("abcdefghijklmn")));
    assert!(!board.can_search(&LetterBag::from_string("abcdefghijklmno")));
    assert!(board.solve(&LetterBag::from_string("a b"), &dict).is_none());
    assert_eq!(board.solve(&LetterBag::from_string("sa"), &dict).unwrap().len(), 4);
    board.set_letter_unchecked(Coord::new(2, 2), b'?');
    assert!(!board.can_search(&LetterBag::from_string("abc")));
    assert!(board.solve(&LetterBag::from_string("sa"), &dict).is_none());
}

#[test]
fn score_range() {
    assert!(scores_fit(0, 1000));
    assert!(scores_fit(15, 0));
    assert!(scores_fit(15, 14));
    assert!(!scores_fit(15, 15));
    assert!(scores_fit(1, 17));
    assert!(!scores_fit(1, 18));
    assert!(!scores_fit(1, 4000000000));
    assert!(!scores_fit(143165575, 0));
    assert!(scores_fit(143165574, 0));
}

#[test]
fn boards_of_other_shapes_are_searched_too() {
    let dict = DictionaryTrie::from_word_list("ab ba");
    let board = ScrabbleBoard::with_modifiers(vec![
        vec![None, Some(Modifier::TripleLetter), None],
        vec![None, Some(Modifier::DoubleWord), Some(Modifier::TripleWord)],
    ]);
    let solutions = board.find_all_valid_words(&LetterBag::from_string("ab"), &dict);
    let summary: Vec<(String, u32, i32, i32, bool)> = solutions
        .iter()
        .map(|s| {
            (
                s.word.clone(),
                s.score,
                s.start_coord.row,
                s.start_coord.col,
                s.direction == Direction::Right,
            )
        })
        .collect();
    assert_eq!(
        summary,
        vec![
            (String::from("ab"), (3 * 1 + 3) * 2, 0, 1, false),
            (String::from("ba"), (3 * 3 + 1) * 2, 0, 1, false),
            (String::from("ab"), (1 + 3) * 2, 1, 0, true),
            (String::from("ba"), (3 + 1) * 2, 1, 0, true),
            (String::from("ab"), (1 + 3) * 2 * 3, 1, 1, true),
            (String::from("ba"), (3 + 1) * 2 * 3, 1, 1, true),
        ]
    );
}

#[test]
fn letters_become_text() {
    assert_eq!(letters_to_string(&vec![b'z', b'A']), "zA");
    assert_eq!(letters_to_string(&Vec::new()), "");
    assert_eq!(letters_to_string(&vec![0xe9]), "\u{e9}");
}

#[test]
fn builder_scores() {
    let dict = sample_dictionary();
    let builder = ScrabbleSolutionBuilder::new(LetterBag::from_string("za"), &dict);
    assert_eq!(builder.final_score(), 0);
    assert!(!builder.is_valid_solution());
    assert!(builder.get_trie_child(b'z').is_some());
    assert!(builder.get_trie_child(b'q').is_none());
    assert!(builder.dict_trie().is_word(&String::from("za")));
    let solution = builder.build(Direction::Right, Coord::new(4, 4));
    assert_eq!(solution.word, "");
    assert_eq!(solution.score, 0);
    assert!(solution.start_coord == Coord::new(4, 4));
    let copy = solution.clone();
    assert_eq!(copy.word, solution.word);
}
