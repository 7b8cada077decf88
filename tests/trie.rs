use word_search_solver::trie::Trie;

#[test]
fn test_start_with() {
    let mut trie = Trie::new();
    trie.insert("Hello");
    trie.insert("Like");
    trie.insert("Interesting");
    trie.insert("K");
    trie.insert("Half");

    assert!(trie.starts_with("H"));
    assert!(trie.starts_with("Li"));
    assert!(trie.starts_with("K"));
    assert!(trie.starts_with(""));
    assert!(trie.starts_with("Interest"));
    assert!(!trie.starts_with("prefix"));
}

#[test]
fn test_insert_and_search() {
    let mut trie = Trie::new();
    trie.insert("Hello");
    trie.insert("Like");
    trie.insert("Interesting");
    trie.insert("K");
    trie.insert("Half");

    assert!(trie.search("Hello"));
    assert!(trie.search("Like"));
    assert!(trie.search("Interesting"));
    assert!(trie.search("K"));
    assert!(trie.search("Half"));
    assert!(!trie.search("prefix"));
}

#[test]
fn test_insert_words() {
    let mut trie = Trie::new();
    let words = vec!["One", "Two", "Three", "Four", "Five"];
    trie.insert_words(&words);
    assert!(trie.search("One"));
    assert!(trie.search("Two"));
    assert!(trie.search("Three"));
    assert!(trie.search("Four"));
    assert!(trie.search("Five"));
    assert!(!trie.search("Six"));
}

#[test]
fn every_prefix_of_an_inserted_word_is_found() {
    let trie = Trie::from(&vec!["CATERPILLAR", "DOG"]);
    let w = "CATERPILLAR";
    for n in 0..=w.len() {
        assert!(trie.starts_with(&w[..n]));
    }
    assert!(trie.search("CATERPILLAR"));
    assert!(trie.search("DOG"));
    assert!(!trie.search("CAT"));
    assert!(!trie.search("DO"));
    assert!(!trie.search(""));
}

#[test]
fn non_prefixes_are_absent() {
    let trie = Trie::from(&vec!["CAT", "CAR"]);
    for s in ["X", "CB", "CATS", "cat", "CARE"] {
        assert!(!trie.starts_with(s));
        assert!(!trie.search(s));
    }
}

#[test]
fn empty_trie() {
    let trie = Trie::default();
    assert!(trie.starts_with(""));
    assert!(!trie.search(""));
    assert!(!trie.starts_with("a"));
}

#[test]
fn empty_word_and_duplicates() {
    let mut trie = Trie::new();
    trie.insert("");
    trie.insert("ab");
    trie.insert("ab");
    assert!(trie.search(""));
    assert!(trie.search("ab"));
    assert!(!trie.search("a"));
    assert!(trie.starts_with("a"));
}

#[test]
fn insertion_order_does_not_matter() {
    let a = Trie::from(&vec!["TEA", "TEN", "TO", "INN"]);
    let b = Trie::from(&vec!["INN", "TO", "TEN", "TEA"]);
    for s in ["", "T", "TE", "TEA", "TEN", "TO", "I", "IN", "INN", "TEAS", "X"] {
        assert_eq!(a.starts_with(s), b.starts_with(s));
        assert_eq!(a.search(s), b.search(s));
    }
}

#[test]
fn non_ascii_letters() {
    let trie = Trie::from(&vec!["ÉTÉ", "日本"]);
    assert!(trie.search("ÉTÉ"));
    assert!(trie.starts_with("ÉT"));
    assert!(trie.starts_with("日"));
    assert!(!trie.search("日"));
}
