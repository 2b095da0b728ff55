use succinct_trie::trie::SuccinctTrie;
use succinct_trie::trie::test_succinct_trie;

#[test]
fn scenario_three_fruits_then_cranberry() {
    let mut trie = SuccinctTrie::new();

    trie.insert("apple", 0);
    trie.insert("banana", 1);
    trie.insert("cherry", 2);

    assert_eq!(trie.search("apple"), Some(0));
    assert_eq!(trie.search("banana"), Some(1));
    assert_eq!(trie.search("cherry"), Some(2));
    assert_eq!(trie.search("durian"), None);

    trie.insert("cranberry", 3);
    assert_eq!(trie.search("cranberry"), Some(3));
    assert_eq!(trie.search("cran"), None);
}

#[test]
fn verified_scenario_runs() {
    test_succinct_trie();
}

#[test]
fn insert_then_search_returns_value() {
    let mut trie = SuccinctTrie::new();
    trie.insert("key", 42);
    assert_eq!(trie.search("key"), Some(42));

    trie.insert("k", 7);
    assert_eq!(trie.search("k"), Some(7));
    assert_eq!(trie.search("key"), Some(42));
}

#[test]
fn overwrite_keeps_last_value_only() {
    let mut trie = SuccinctTrie::new();
    trie.insert("alpha", 1);
    trie.insert("alpha", 2);
    assert_eq!(trie.search("alpha"), Some(2));
    trie.insert("alpha", 3);
    assert_eq!(trie.search("alpha"), Some(3));
}

#[test]
fn empty_key_absent_until_inserted() {
    let mut trie = SuccinctTrie::new();
    assert_eq!(trie.search(""), None);
    trie.insert("", 9);
    assert_eq!(trie.search(""), Some(9));
    trie.insert("", 10);
    assert_eq!(trie.search(""), Some(10));
    assert_eq!(trie.search("a"), None);
}

#[test]
fn prefixes_do_not_leak() {
    let mut trie = SuccinctTrie::new();
    trie.insert("cranberry", 3);
    assert_eq!(trie.search(""), None);
    assert_eq!(trie.search("c"), None);
    assert_eq!(trie.search("cran"), None);
    assert_eq!(trie.search("cranberr"), None);
    assert_eq!(trie.search("cranberry"), Some(3));
    assert_eq!(trie.search("cranberryx"), None);
}

#[test]
fn prefix_key_can_hold_its_own_value() {
    let mut trie = SuccinctTrie::new();
    trie.insert("cranberry", 3);
    trie.insert("cran", 4);
    assert_eq!(trie.search("cran"), Some(4));
    assert_eq!(trie.search("cranberry"), Some(3));
}

#[test]
fn absent_keys_stay_absent() {
    let mut trie = SuccinctTrie::new();
    trie.insert("left", 1);
    trie.insert("right", 2);
    assert_eq!(trie.search("middle"), None);
    assert_eq!(trie.search("lefts"), None);
    assert_eq!(trie.search("rig"), None);
}

#[test]
fn insertion_order_does_not_matter() {
    let mut forward = SuccinctTrie::new();
    forward.insert("one", 1);
    forward.insert("two", 2);
    forward.insert("three", 3);

    let mut backward = SuccinctTrie::new();
    backward.insert("three", 3);
    backward.insert("two", 2);
    backward.insert("one", 1);

    for key in ["one", "two", "three", "four", "", "t", "on"] {
        assert_eq!(forward.search(key), backward.search(key));
    }
}

#[test]
fn non_ascii_keys_work() {
    let mut trie = SuccinctTrie::new();
    trie.insert("caf\u{e9}", 5);
    assert_eq!(trie.search("caf\u{e9}"), Some(5));
    assert_eq!(trie.search("caf"), None);
    assert_eq!(trie.search("cafe"), None);
}
