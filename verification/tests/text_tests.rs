use scrabble_solver::boardspec::{board_from_spec, is_number, position_of, read_tile, BoardSpecError};
use scrabble_solver::commands::{
    is_keyword, parse_command, parse_direction, Command, Response, Session,
};
use scrabble_solver::ranking::{ranked, ranking};
use scrabble_solver::text::{
    copy_range, is_decimal_digit, parse_digits, parse_i32, parse_usize, push_integer, push_number,
    split_words,
};
use scrabble_solver::{Coord, DictionaryTrie, Direction, ScrabbleSolution};

#[test]
fn words_are_split_at_white_space() {
    assert_eq!(
        split_words(b"  place r\t7 7\nword \r"),
        vec![b"place".to_vec(), b"r".to_vec(), b"7".to_vec(), b"7".to_vec(), b"word".to_vec()]
    );
    assert!(split_words(b"").is_empty());
    assert!(split_words(b" \n\t ").is_empty());
    assert_eq!(split_words(b"one"), vec![b"one".to_vec()]);
    assert_eq!(copy_range(b"abcdef", 2, 4), b"cd".to_vec());
    assert!(copy_range(b"abcdef", 3, 3).is_empty());
}

#[test]
fn numbers_are_read_like_the_standard_library_reads_them() {
    let cases = [
        "0", "7", "007", "+7", "-7", "-0", "+0", "2147483647", "2147483648", "-2147483648",
        "-2147483649", "99999999999999999999999", "", "+", "-", "--1", "+-1", "1a", "a1", " 1",
        "1 ", "1_000", "0x10",
    ];
    for s in cases.iter() {
        assert_eq!(parse_i32(s.as_bytes()), s.parse::<i32>().ok(), "{} as i32", s);
        assert_eq!(parse_usize(s.as_bytes()), s.parse::<usize>().ok(), "{} as usize", s);
    }
    let max = usize::MAX.to_string();
    assert_eq!(parse_usize(max.as_bytes()), Some(usize::MAX));
    let over = format!("{}0", max);
    assert_eq!(parse_usize(over.as_bytes()), None);
    assert_eq!(parse_digits(b"x123y", 1, 4, 1000), Some(123));
    assert_eq!(parse_digits(b"x123y", 1, 4, 122), None);
    assert_eq!(parse_digits(b"x123y", 1, 4, 123), Some(123));
    assert_eq!(parse_digits(b"x123y", 0, 4, 1000), None);
    assert_eq!(parse_digits(b"x123y", 2, 2, 1000), None);
    assert!(is_decimal_digit(b'0') && is_decimal_digit(b'9'));
    assert!(!is_decimal_digit(b'/') && !is_decimal_digit(b':'));
}

#[test]
fn board_spec_describes_tiles() {
    let board = board_from_spec("7,5,d;7,6,o;7,7,G").unwrap();
    assert_eq!(board.letter(Coord::new(7, 5)), Some(b'd'));
    assert_eq!(board.letter(Coord::new(7, 6)), Some(b'o'));
    assert_eq!(board.letter(Coord::new(7, 7)), Some(b'G'));
    assert_eq!(board.letter(Coord::new(7, 8)), None);
    let empty = board_from_spec("").unwrap();
    for r in 0..15 {
        for c in 0..15 {
            assert_eq!(empty.letter(Coord::new(r, c)), None);
        }
    }
    let later_wins = board_from_spec("00,014,a;0,14,b").unwrap();
    assert_eq!(later_wins.letter(Coord::new(0, 14)), Some(b'b'));
}

#[test]
fn board_spec_errors() {
    assert!(board_from_spec("3,4,a;4,5,z;").err() == Some(BoardSpecError::NotInFormat(2)));
    assert!(board_from_spec(";").err() == Some(BoardSpecError::NotInFormat(0)));
    assert!(board_from_spec("3,4").err() == Some(BoardSpecError::NotInFormat(0)));
    assert!(board_from_spec("3,4,ab").err() == Some(BoardSpecError::NotInFormat(0)));
    assert!(board_from_spec("3,4,1").err() == Some(BoardSpecError::NotInFormat(0)));
    assert!(board_from_spec("3,,a").err() == Some(BoardSpecError::NotInFormat(0)));
    assert!(board_from_spec(",4,a").err() == Some(BoardSpecError::NotInFormat(0)));
    assert!(board_from_spec("-3,4,a").err() == Some(BoardSpecError::NotInFormat(0)));
    assert!(board_from_spec("3,4,a ").err() == Some(BoardSpecError::NotInFormat(0)));
    assert!(board_from_spec("1,1,a;3, 4,a").err() == Some(BoardSpecError::NotInFormat(1)));
    assert!(board_from_spec("1,1,a;15,0,a").err() == Some(BoardSpecError::OffBoard(1)));
    assert!(board_from_spec("0,15,a").err() == Some(BoardSpecError::OffBoard(0)));
    assert!(board_from_spec("0,99999999999999,a").err() == Some(BoardSpecError::OffBoard(0)));
    assert!(board_from_spec("1,1,a;1,99,b;x").err() == Some(BoardSpecError::OffBoard(1)));
}

#[test]
fn tiles_are_read_from_parts() {
    let tile = read_tile(b"12,3,q").unwrap();
    assert!(tile.coord == Some(Coord::new(12, 3)));
    assert_eq!(tile.letter, b'q');
    let far = read_tile(b"2147483648,3,q").unwrap();
    assert!(far.coord.is_none());
    assert!(read_tile(b"12,3,").is_none());
    assert!(read_tile(b"12;3;q").is_none());
    assert_eq!(position_of(b"ab;cd", 0, b';'), 2);
    assert_eq!(position_of(b"ab;cd", 3, b';'), 5);
    assert_eq!(position_of(b"ab;cd", 2, b';'), 2);
    assert!(is_number(b"a12b", 1, 3));
    assert!(!is_number(b"a12b", 0, 3));
    assert!(!is_number(b"a12b", 1, 1));
}

#[test]
fn commands_are_read_from_lines() {
    assert!(matches!(parse_command("help\n"), Command::Help));
    assert!(matches!(parse_command("  print  "), Command::Print));
    assert!(matches!(parse_command("undo now"), Command::Undo));
    match parse_command("place d 7 -3 Word extra\n") {
        Command::Place { direction, coord, letters } => {
            assert!(direction == Direction::Down);
            assert!(coord == Coord::new(7, -3));
            assert_eq!(letters, b"Word".to_vec());
        }
        _ => panic!("place was not read"),
    }
    assert!(matches!(parse_command("place R +1 2 a"), Command::Place { direction: Direction::Right, .. }));
    assert!(matches!(parse_command("place x 1 2 a"), Command::InvalidPlace));
    assert!(matches!(parse_command("place r one 2 a"), Command::InvalidPlace));
    assert!(matches!(parse_command("place r 1 2"), Command::InvalidPlace));
    assert!(matches!(parse_command("place"), Command::InvalidPlace));
    match parse_command("top ab*c 5") {
        Command::Top { letters, limit } => {
            assert_eq!(letters, b"ab*c".to_vec());
            assert_eq!(limit, Some(5));
        }
        _ => panic!("top was not read"),
    }
    assert!(matches!(parse_command("top abc"), Command::Top { limit: None, .. }));
    assert!(matches!(parse_command("top abc many"), Command::Top { limit: None, .. }));
    assert!(matches!(parse_command("top abc -1"), Command::Top { limit: None, .. }));
    assert!(matches!(parse_command("top"), Command::InvalidTop));
    match parse_command("Help") {
        Command::Unknown(word) => assert_eq!(word, b"Help".to_vec()),
        _ => panic!("Help is no command"),
    }
    match parse_command("\n") {
        Command::Unknown(word) => assert!(word.is_empty()),
        _ => panic!("an empty line is no command"),
    }
    assert!(is_keyword(b"top", "top"));
    assert!(!is_keyword(b"to", "top"));
    assert!(!is_keyword(b"tip", "top"));
    assert!(parse_direction(b"r") == Some(Direction::Right));
    assert!(parse_direction(b"D") == Some(Direction::Down));
    assert!(parse_direction(b"rd") == None);
    assert!(parse_direction(b"") == None);
}

#[test]
fn a_session_places_and_undoes() {
    let dict = DictionaryTrie::from_word_list("do dog god");
    let mut session = Session::new();
    assert!(matches!(session.step(&parse_command("help"), &dict), Response::Help));
    assert!(matches!(session.step(&parse_command("bogus"), &dict), Response::Unknown(_)));
    assert!(matches!(session.step(&parse_command("place r 7 7 do"), &dict), Response::Placed));
    assert_eq!(session.board().letter(Coord::new(7, 8)), Some(b'o'));
    assert!(matches!(session.step(&parse_command("place r 7 14 do"), &dict), Response::OffBoard));
    assert!(matches!(session.step(&parse_command("place r 7 d"), &dict), Response::InvalidPlace));
    assert!(matches!(session.step(&parse_command("top"), &dict), Response::InvalidTop));
    assert!(matches!(session.step(&parse_command("top g1"), &dict), Response::CannotSearch));
    match session.step(&parse_command("top g 3"), &dict) {
        Response::Solutions { ranked, limit } => {
            assert_eq!(limit, Some(3));
            assert_eq!(ranked.len(), 1);
            assert_eq!(ranked[0].word, "dog");
            assert_eq!(ranked[0].score, 2 + 1 + 2);
        }
        _ => panic!("no solutions"),
    }
    match session.step(&parse_command("print"), &dict) {
        Response::Board(rows) => {
            assert_eq!(rows.len(), 15);
            assert_eq!(rows[7], "\u{2462}  2   do  2  \u{2462}");
            assert_eq!(rows[0], "\u{2462}  2   \u{2462}   2  \u{2462}");
            assert_eq!(rows[1], " \u{2461}   3   3   \u{2461} ");
        }
        _ => panic!("no board"),
    }
    assert!(matches!(session.step(&parse_command("undo"), &dict), Response::Undone));
    assert_eq!(session.board().letter(Coord::new(7, 8)), None);
    assert!(matches!(session.step(&parse_command("undo"), &dict), Response::Undone));
    assert_eq!(session.board().letter(Coord::new(7, 8)), None);
    assert_eq!(session.show()[7], "\u{2462}  2   \u{2461}   2  \u{2462}");
    assert!(session.place(Direction::Down, Coord::new(13, 0), b"ab"));
    assert!(!session.place(Direction::Down, Coord::new(14, 0), b"ab"));
    assert!(session.place(Direction::Down, Coord::new(40, 40), b""));
    assert!(session.top(b"ab", &dict).unwrap().is_empty());
    assert!(session.top(b"a?", &dict).is_none());
}

fn solution(word: &str, score: u32) -> ScrabbleSolution {
    ScrabbleSolution {
        word: String::from(word),
        score,
        direction: Direction::Right,
        start_coord: Coord::new(0, 0),
    }
}

#[test]
fn ranking_puts_the_best_first_and_keeps_ties_in_order() {
    assert_eq!(ranking(&vec![3, 9, 3, 1, 9, 0, 3]), vec![1, 4, 0, 2, 6, 3, 5]);
    assert!(ranking(&Vec::new()).is_empty());
    assert_eq!(ranking(&vec![5]), vec![0]);
    assert_eq!(ranking(&vec![1, 2]), vec![1, 0]);
    assert_eq!(ranking(&vec![2, 2, 2]), vec![0, 1, 2]);
    let found = vec![
        solution("a", 3),
        solution("b", 9),
        solution("c", 3),
        solution("d", 1),
        solution("e", 9),
    ];
    let best = ranked(&found);
    let words: Vec<&str> = best.iter().map(|s| s.word.as_str()).collect();
    assert_eq!(words, vec!["b", "e", "a", "c", "d"]);
    let scores: Vec<u32> = best.iter().map(|s| s.score).collect();
    assert_eq!(scores, vec![9, 9, 3, 3, 1]);
    assert_eq!(found.len(), 5);
    let mut many: Vec<u32> = Vec::new();
    let mut x: u32 = 12345;
    for _ in 0..1000 {
        x = x.wrapping_mul(1103515245).wrapping_add(12345);
        many.push((x >> 16) % 50);
    }
    let order = ranking(&many);
    let mut expected: Vec<usize> = (0..many.len()).collect();
    expected.sort_by(|a, b| many[*b].cmp(&many[*a]));
    assert_eq!(order, expected);
}

#[test]
fn numbers_are_written_in_decimal() {
    let cases: [i32; 9] = [0, 7, 10, 99, 100, -1, -10, i32::MAX, i32::MIN];
    for v in cases.iter() {
        let mut text = String::from("x");
        push_integer(&mut text, *v);
        assert_eq!(text, format!("x{}", v));
        assert_eq!(parse_i32(text[1..].as_bytes()), Some(*v));
    }
    let mut text = String::new();
    push_number(&mut text, u64::MAX);
    push_number(&mut text, 0);
    assert_eq!(text, "184467440737095516150");
}

#[test]
fn solutions_are_shown_as_text() {
    let shown = ScrabbleSolution {
        word: String::from("za"),
        score: 11,
        direction: Direction::Right,
        start_coord: Coord::new(7, 6),
    };
    assert_eq!(shown.to_text(), "za: 7,6(R): 11 points");
    let down = ScrabbleSolution {
        word: String::from("abCdefg"),
        score: 4294967295,
        direction: Direction::Down,
        start_coord: Coord::new(-1, 14),
    };
    assert_eq!(down.to_text(), "abCdefg: -1,14(D): 4294967295 points");
    assert_eq!(solution("", 0).to_text(), ": 0,0(R): 0 points");
}
