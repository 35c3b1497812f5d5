use spacecases::trie::Trie;

#[test]
fn test_insert_and_find() {
    let mut trie = Trie::new();
    trie.insert("apple");
    trie.insert("app");
    trie.insert("past");
    trie.insert("pass");
    trie.insert("part");
    trie.insert("pot");

    let mut result = trie.find_starting_with("app", 10);
    result.sort();
    assert_eq!(result, vec!["app", "apple"]);

    result = trie.find_starting_with("pass", 10);
    result.sort();
    assert_eq!(result, vec!["pass"]);

    result = trie.find_starting_with("pa", 10);
    result.sort();
    assert_eq!(result, vec!["part", "pass", "past"]);
}

#[test]
fn test_find_with_limit() {
    let mut trie = Trie::new();
    trie.insert("apple");
    trie.insert("app");
    trie.insert("apricot");
    trie.insert("`a`````partment");

    let mut result = trie.find_starting_with("ap", 2);
    result.sort();
    assert_eq!(result.len(), 2);

    let mut result = trie.find_starting_with("ap", 3);
    result.sort();
    assert_eq!(result.len(), 3);
}

#[test]
fn test_empty_trie() {
    let trie = Trie::new();
    let result = trie.find_starting_with("a", 10);
    assert_eq!(result, Vec::<String>::new());
}

#[test]
fn test_no_matches() {
    let mut trie = Trie::new();
    trie.insert("apple");
    trie.insert("banana");
    let result = trie.find_starting_with("c", 10);
    assert_eq!(result, Vec::<String>::new());
    let result = trie.find_starting_with("abcdefghijklmnopqrstuvwxyz", 10);
    assert_eq!(result, Vec::<String>::new());
}

#[test]
fn empty_prefix_finds_every_word_once() {
    let mut trie = Trie::new();
    trie.insert("b");
    trie.insert("a");
    trie.insert("a");
    trie.insert("");
    let mut result = trie.find_starting_with("", 10);
    result.sort();
    assert_eq!(result, vec!["", "a", "b"]);
}

#[test]
fn zero_limit_finds_nothing() {
    let mut trie = Trie::new();
    trie.insert("apple");
    assert!(trie.find_starting_with("a", 0).is_empty());
}

#[test]
fn inserted_word_is_found_by_its_prefixes() {
    let mut trie = Trie::new();
    trie.insert("龍王");
    trie.insert("龍");
    let mut result = trie.find_starting_with("龍", 5);
    result.sort();
    assert_eq!(result, vec!["龍", "龍王"]);
    assert_eq!(trie.find_starting_with("龍王", 5), vec!["龍王"]);
}

#[test]
fn a_word_comes_before_its_extensions() {
    let mut t = Trie::new();
    t.insert("app");
    t.insert("apple");
    assert_eq!(t.find_starting_with("app", 1), vec!["app".to_string()]);
    let mut t = Trie::new();
    for w in ["abc", "a", "abd", "ab", "b"] {
        t.insert(w);
    }
    let r = t.find_starting_with("a", 10);
    assert_eq!(r[0], "a");
    let pos = |w: &str| r.iter().position(|x| x == w).unwrap();
    assert!(pos("ab") < pos("abc"));
    assert!(pos("ab") < pos("abd"));
    assert!(pos("a") < pos("ab"));
}

#[test]
fn inserting_a_present_word_changes_no_search() {
    let mut t = Trie::new();
    for w in ["pass", "past", "part", "pot", "p"] {
        t.insert(w);
    }
    let before = (t.find_starting_with("p", 10), t.find_starting_with("pa", 2));
    t.insert("past");
    t.insert("p");
    let after = (t.find_starting_with("p", 10), t.find_starting_with("pa", 2));
    assert_eq!(before, after);
}
