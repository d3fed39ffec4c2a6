use scrabble_solver::dictionary::{
    bytes_to_alpha_indices, letter_alpha_idx, utf8_to_alpha_indices, word_to_alpha_indices,
};
use scrabble_solver::text::{is_clean_word_list, is_space};
use scrabble_solver::{DictionaryTrie, DictionaryTrieNode};

const WORDS: &str = "aa ab ad ae ag ah ai al am an ar as at aw ax ay ba be bi bo by de do ed ef eh el \
em en er es ex fa go ha he hi hm ho id if in is it jo ka la li lo ma me mi mm mo mu my na ne no nu \
od oe of oh om on op or os ow ox oy pa pe pi re sh si so ta ti to uh um un up us ut we wo xi xu ya \
ye yo za\nbrawn\tbrawns\r\ndog dogs god gods goad good\n";

#[test]
fn trie_contains() {
    let mut trie = DictionaryTrie::new();

    trie.add_word(String::from("dog"));
    trie.add_word(String::from("dogcat"));

    assert!(trie.is_word(&String::from("dog")));
    assert!(trie.is_word(&String::from("dogcat")));
    assert!(!trie.is_word(&String::from("do")));
    assert!(!trie.is_word(&String::from("a")));
    assert!(!trie.is_word(&String::from("dogcatz")));
}

#[test]
fn trie_traversal() {
    let mut trie = DictionaryTrie::new();

    trie.add_word(String::from("dog"));

    let mut ptr = trie.root();
    assert!(!ptr.is_word());
    ptr = ptr.get_child(b'd').unwrap();
    ptr = ptr.get_child(b'o').unwrap();
    assert!(!ptr.is_word());
    ptr = ptr.get_child(b'g').unwrap();
    assert!(ptr.is_word());
}

#[test]
fn scrabble_trie() {
    let trie = DictionaryTrie::from_word_list(WORDS);
    assert!(trie.is_word(&String::from("brawns")));
}

#[test]
fn empty_trie_has_no_words() {
    let trie = DictionaryTrie::new();
    assert!(!trie.is_word(&String::from("")));
    assert!(!trie.is_word(&String::from("a")));
    assert!(trie.root().get_child(b'a').is_none());
}

#[test]
fn inserted_words_are_words_and_bare_prefixes_are_not() {
    let mut trie = DictionaryTrie::new();
    let words = ["brawns", "zebra", "za", "goad"];
    for w in words.iter() {
        trie.add_word(String::from(*w));
    }
    for w in words.iter() {
        assert!(trie.is_word(&String::from(*w)));
        for end in 0..w.len() {
            let prefix = String::from(&w[0..end]);
            assert!(!trie.is_word(&prefix), "{} is no word", prefix);
        }
    }
    trie.add_word(String::from("brawn"));
    assert!(trie.is_word(&String::from("brawn")));
    assert!(trie.is_word(&String::from("brawns")));
    assert!(!trie.is_word(&String::from("braw")));
}

#[test]
fn insertion_is_idempotent() {
    let mut trie = DictionaryTrie::new();
    trie.add_word(String::from("dog"));
    trie.add_word(String::from("dog"));
    assert!(trie.is_word(&String::from("dog")));
    assert!(!trie.is_word(&String::from("do")));
    assert!(!trie.is_word(&String::from("dogs")));
}

#[test]
fn lookups_ignore_case() {
    let mut trie = DictionaryTrie::new();
    trie.add_word(String::from("Dog"));
    assert!(trie.is_word(&String::from("dog")));
    assert!(trie.is_word(&String::from("DOG")));
    assert!(trie.is_word_utf8(&vec![b'd', b'O', b'g']));
    assert!(!trie.is_word_utf8(&vec![b'd', b'O']));
    let d = trie.root().get_child(b'D').unwrap();
    assert!(d.get_child(b'o').is_some());
    assert!(d.get_child(b'x').is_none());
}

#[test]
fn alpha_indices_of_letters() {
    assert_eq!(letter_alpha_idx(b'a'), 0);
    assert_eq!(letter_alpha_idx(b'A'), 0);
    assert_eq!(letter_alpha_idx(b'z'), 25);
    assert_eq!(letter_alpha_idx(b'Z'), 25);
    assert_eq!(letter_alpha_idx(b'm'), 12);
    assert_eq!(word_to_alpha_indices(&String::from("Cab")), vec![2, 0, 1]);
    assert_eq!(utf8_to_alpha_indices(&vec![b'z', b'A']), vec![25, 0]);
    assert_eq!(bytes_to_alpha_indices(b"by"), vec![1, 24]);
}

#[test]
fn alpha_index_lookups() {
    let mut trie = DictionaryTrie::new();
    trie.add_alpha_indices(vec![3, 14, 6]);
    assert!(trie.are_alpha_indices_word(vec![3, 14, 6]));
    assert!(!trie.are_alpha_indices_word(vec![3, 14]));
    assert!(!trie.are_alpha_indices_word(vec![]));
    let node = trie.find_node_from_alpha_indices(vec![3, 14]).unwrap();
    assert!(!node.is_word());
    assert!(node.get_child_idx(6).unwrap().is_word());
    assert!(node.get_child_idx(7).is_none());
    assert!(trie.find_node_from_alpha_indices(vec![3, 15]).is_none());
    assert!(trie.find_node_from_alpha_indices(vec![]).is_some());
    assert!(node.dict_trie().is_word(&String::from("dog")));
}

#[test]
fn empty_word_can_be_added() {
    let mut trie = DictionaryTrie::new();
    trie.add_word(String::from(""));
    assert!(trie.is_word(&String::from("")));
    assert!(trie.root().is_word());
}

#[test]
fn word_list_is_split_at_white_space() {
    let trie = DictionaryTrie::from_word_list("  dog\tcat\r\nbird\x0Cant  ");
    assert!(trie.is_word(&String::from("dog")));
    assert!(trie.is_word(&String::from("cat")));
    assert!(trie.is_word(&String::from("bird")));
    assert!(trie.is_word(&String::from("ant")));
    assert!(!trie.is_word(&String::from("dogcat")));
    assert!(!trie.is_word(&String::from("catbird")));
    assert!(!trie.is_word(&String::from("do")));
    assert!(!trie.is_word(&String::from("")));
    let none = DictionaryTrie::from_word_list(" \n ");
    assert!(!none.is_word(&String::from("")));
}

#[test]
fn word_list_checks() {
    assert!(is_clean_word_list(b"dog cat\nbird"));
    assert!(is_clean_word_list(b""));
    assert!(!is_clean_word_list(b"dog c4t"));
    assert!(!is_clean_word_list(b"dog,cat"));
    assert!(is_space(b' '));
    assert!(is_space(b'\n'));
    assert!(is_space(b'\t'));
    assert!(is_space(b'\r'));
    assert!(is_space(0x0c));
    assert!(!is_space(b'a'));
    assert!(!is_space(0x0b));
}

#[test]
fn trie_nodes_hold_children() {
    let mut node = DictionaryTrieNode::new();
    assert_eq!(node.get_child_idx(0), None);
    assert_eq!(node.get_child_idx(25), None);
    node.set_child_idx(3, 7);
    assert_eq!(node.get_child_idx(3), Some(7));
    assert_eq!(node.get_child_idx(2), None);
    node.set_child_idx(3, 9);
    assert_eq!(node.get_child_idx(3), Some(9));
}
