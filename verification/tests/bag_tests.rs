use scrabble_solver::{HashLetterBag, LetterBag, VecLetterBag};

#[test]
fn bag_counts_bytes() {
    let bag = LetterBag::from_string("hello*");
    assert_eq!(bag.keys(), vec![b'h', b'e', b'l', b'o', b'*']);
    assert_eq!(bag.total_up_to(100), 6);
    assert_eq!(bag.total_up_to(4), 4);
    assert!(bag.is_playable());
}

#[test]
fn empty_bag_has_no_keys() {
    let bag = VecLetterBag::from_string("");
    assert!(bag.keys().is_empty());
    assert_eq!(bag.total_up_to(10), 0);
    assert!(bag.is_playable());
}

#[test]
fn decremented_takes_one_tile_and_leaves_the_bag_alone() {
    let bag = LetterBag::from_string("aab");
    let less = bag.decremented(b'a');
    assert_eq!(bag.keys(), vec![b'a', b'b']);
    assert_eq!(bag.total_up_to(10), 3);
    assert_eq!(less.keys(), vec![b'a', b'b']);
    assert_eq!(less.total_up_to(10), 2);
    let least = less.decremented(b'a');
    assert_eq!(least.keys(), vec![b'b']);
    assert_eq!(least.total_up_to(10), 1);
    let same = least.decremented(b'a');
    assert_eq!(same.keys(), vec![b'b']);
    assert_eq!(same.total_up_to(10), 1);
}

#[test]
fn decrementing_an_absent_letter_changes_nothing() {
    let bag = LetterBag::from_string("xyz");
    let same = bag.decremented(b'q');
    assert_eq!(same.keys(), bag.keys());
    assert_eq!(same.total_up_to(10), 3);
}

#[test]
fn clone_of_a_bag_is_independent() {
    let bag = LetterBag::from_string("ab");
    let copy = bag.clone();
    let less = copy.decremented(b'a');
    assert_eq!(bag.keys(), vec![b'a', b'b']);
    assert_eq!(copy.keys(), vec![b'a', b'b']);
    assert_eq!(less.keys(), vec![b'b']);
}

#[test]
fn bags_with_other_bytes_are_not_playable() {
    assert!(!LetterBag::from_string("ab1").is_playable());
    assert!(!LetterBag::from_string("a b").is_playable());
    assert!(LetterBag::from_string("aB*").is_playable());
    let spent = LetterBag::from_string("1").decremented(b'1');
    assert!(spent.is_playable());
}

#[test]
fn hash_bag_counts_bytes() {
    let bag = HashLetterBag::from_string("hello");
    let mut keys = bag.keys();
    keys.sort();
    assert_eq!(keys, vec![b'e', b'h', b'l', b'o']);
    assert!(HashLetterBag::new().keys().is_empty());
}

#[test]
fn hash_bag_decremented() {
    let bag = HashLetterBag::from_string("aab");
    let less = bag.decremented(b'a');
    let mut keys = less.keys();
    keys.sort();
    assert_eq!(keys, vec![b'a', b'b']);
    let least = less.decremented(b'a');
    assert_eq!(least.keys(), vec![b'b']);
    let same = least.decremented(b'a');
    assert_eq!(same.keys(), vec![b'b']);
    let none = same.decremented(b'b');
    assert!(none.keys().is_empty());
    let mut untouched = bag.clone().keys();
    untouched.sort();
    assert_eq!(untouched, vec![b'a', b'b']);
}
