use kino_dicts::BKTree;

#[test]
fn find_returns_close_words_in_distance_order() {
    let mut bk = BKTree::new();
    bk.insert("aaa".to_string());
    bk.insert("outdatqq".to_string());
    bk.insert("outdate".to_string());
    let res = bk.find("outdatr", 8);
    // "outdate" is one edit away, "outdatqq" two: closest first
    assert_eq!(res, vec!["outdate".to_string(), "outdatqq".to_string()]);
}

#[test]
fn find_never_returns_the_query_itself() {
    let mut bk = BKTree::new();
    bk.insert("aaa".to_string());
    bk.insert("outdatqq".to_string());
    bk.insert("outdate".to_string());
    bk.insert("outdatr".to_string());
    let res = bk.find("outdatr", 8);
    assert!(!res.contains(&"outdatr".to_string()));
    assert!(res.contains(&"outdate".to_string()));
}

#[test]
fn find_respects_limit() {
    let mut bk = BKTree::new();
    bk.insert("aaa".to_string());
    bk.insert("outdatqq".to_string());
    bk.insert("outdate".to_string());
    assert!(bk.find("outdatr", 1).len() <= 1);
    assert_eq!(bk.find("outdatr", 0), Vec::<String>::new());
}

#[test]
fn find_reports_each_distinct_word_once() {
    let mut bk = BKTree::new();
    bk.insert("aaa".to_string());
    bk.insert("outdate".to_string());
    bk.insert("outdata".to_string());
    bk.insert("outdoor".to_string());
    bk.insert("outdated".to_string());
    let res = bk.find("outdatr", 8);
    for i in 0..res.len() {
        for j in (i + 1)..res.len() {
            assert_ne!(res[i], res[j]);
        }
    }
    assert!(res.contains(&"outdate".to_string()));
}

#[test]
fn find_on_empty_tree_is_empty() {
    let bk = BKTree::new();
    assert_eq!(bk.find("anything", 8), Vec::<String>::new());
}

#[test]
fn empty_query_yields_no_suggestions() {
    let mut bk = BKTree::new();
    bk.insert("a".to_string());
    bk.insert("b".to_string());
    assert_eq!(bk.find("", 8), Vec::<String>::new());
}

#[test]
fn far_words_stay_outside_the_error_budget() {
    let mut bk = BKTree::new();
    bk.insert("zzzzzzzzzz".to_string());
    bk.insert("cat".to_string());
    // budget for a three-byte query is two edits; "zzzzzzzzzz" is far beyond
    let res = bk.find("cau", 8);
    assert!(!res.contains(&"zzzzzzzzzz".to_string()));
    assert!(res.contains(&"cat".to_string()));
}
