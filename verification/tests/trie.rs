use kino_dicts::WordTrie;

fn strings(items: &[&str]) -> Vec<String> {
    items.iter().map(|s| s.to_string()).collect()
}

#[test]
fn insert_then_prefix_search_round_trip() {
    let mut trie = WordTrie::new();
    assert!(trie.insert("abandon".to_string()));
    let res = trie.prefix_search("abandon", 10);
    assert!(res.contains(&"abandon".to_string()));
    assert_eq!(res[0], "abandon");
}

#[test]
fn duplicate_insert_returns_false_and_changes_nothing() {
    let mut trie = WordTrie::new();
    assert!(trie.insert("abandon".to_string()));
    assert!(!trie.insert("abandon".to_string()));
    let res = trie.prefix_search("abandon", 10);
    assert_eq!(res, strings(&["abandon"]));
    assert!(trie.has("abandon"));
}

#[test]
fn prefix_search_finds_all_words_under_prefix() {
    let mut trie = WordTrie::new();
    assert!(trie.insert("abandon".to_string()));
    assert!(trie.insert("abandoned".to_string()));
    assert!(trie.insert("abandonment".to_string()));
    let res = trie.prefix_search("aband", 10);
    assert_eq!(res.len(), 3);
    assert!(res.contains(&"abandon".to_string()));
    assert!(res.contains(&"abandoned".to_string()));
    assert!(res.contains(&"abandonment".to_string()));
}

#[test]
fn prefix_search_unmatched_prefix_is_empty() {
    let mut trie = WordTrie::new();
    trie.insert("abandon".to_string());
    trie.insert("abandoned".to_string());
    assert_eq!(trie.prefix_search("xyz", 10), strings(&[]));
}

#[test]
fn prefix_search_respects_limit() {
    let mut trie = WordTrie::new();
    trie.insert("abandon".to_string());
    trie.insert("abandoned".to_string());
    trie.insert("abandonment".to_string());
    assert!(trie.prefix_search("aband", 2).len() <= 2);
    assert!(trie.prefix_search("aband", 1).len() == 1);
    assert_eq!(trie.prefix_search("aband", 0), strings(&[]));
}

#[test]
fn empty_prefix_enumerates_from_the_root() {
    let mut trie = WordTrie::new();
    trie.insert("cat".to_string());
    trie.insert("dog".to_string());
    trie.insert("cow".to_string());
    let res = trie.prefix_search("", 8);
    assert_eq!(res.len(), 3);
    assert!(res.contains(&"cat".to_string()));
    assert!(res.contains(&"dog".to_string()));
    assert!(res.contains(&"cow".to_string()));
}

#[test]
fn has_answers_exact_membership_only() {
    let mut trie = WordTrie::new();
    trie.insert("abandoned".to_string());
    assert!(trie.has("abandoned"));
    assert!(!trie.has("abandon"));
    assert!(!trie.has("abandonedly"));
    assert!(!trie.has(""));
}

#[test]
fn empty_trie_finds_nothing() {
    let trie = WordTrie::new();
    assert!(!trie.has("cat"));
    assert_eq!(trie.prefix_search("", 10), strings(&[]));
    assert_eq!(trie.prefix_search("cat", 10), strings(&[]));
}
