use kino_dicts::{Database, WordNetDatabase};

fn preamble() -> String {
    "\n".repeat(29)
}

fn cat_data() -> Vec<u8> {
    b"00001740 03 n 01 cat 0 | a small domesticated carnivore; \"I own a cat\"  \n".to_vec()
}

fn small_db() -> WordNetDatabase {
    let data = vec![cat_data(), Vec::new(), Vec::new(), Vec::new()];
    let index = vec![
        format!("{}cat n 1 0\n", preamble()),
        String::new(),
        String::new(),
        String::new(),
    ];
    WordNetDatabase::load(data, index).unwrap()
}

#[test]
fn get_returns_the_parsed_noun_entry() {
    let db = small_db();
    let word = db.get("cat").unwrap();
    assert_eq!(word.lemma, "cat");
    assert_eq!(word.data.len(), 4);
    assert_eq!(word.data[0].len(), 1);
    let g = &word.data[0][0];
    assert_eq!(g.meanings(), &b"a small domesticated carnivore".to_vec());
    assert_eq!(g.synonyms_list(), vec![b"cat".to_vec()]);
    assert_eq!(g.examples_list(), vec![b"I own a cat".to_vec()]);
    assert!(word.data[1].is_empty());
    assert!(word.data[2].is_empty());
    assert!(word.data[3].is_empty());
}

#[test]
fn get_unknown_word_is_none() {
    let db = small_db();
    assert!(db.get("doesnotexist").is_none());
}

#[test]
fn repeated_get_is_byte_identical() {
    let db = small_db();
    let w1 = db.get("cat").unwrap();
    let w2 = db.get("cat").unwrap();
    assert_eq!(w1.lemma, w2.lemma);
    assert_eq!(w1.data[0][0].meanings(), w2.data[0][0].meanings());
    assert_eq!(w1.data[0][0].examples(), w2.data[0][0].examples());
    assert_eq!(w1.data[0][0].synonyms(), w2.data[0][0].synonyms());
}

#[test]
fn get_by_offset_reads_one_sense() {
    let db = small_db();
    let g = db.get_by_offset(0, 0).unwrap();
    assert_eq!(g.meanings(), &b"a small domesticated carnivore".to_vec());
    // class out of range and bad offsets degrade to nothing
    assert!(db.get_by_offset(4, 0).is_none());
    assert!(db.get_by_offset(0, 9999).is_none());
}

#[test]
fn suggest_search_completes_prefixes() {
    let db = small_db();
    let res = db.suggest_search("ca");
    assert_eq!(res, vec!["cat".to_string()]);
    assert_eq!(db.suggest_search("xyz"), Vec::<String>::new());
    // the empty prefix reaches every known headword
    assert_eq!(db.suggest_search(""), vec!["cat".to_string()]);
}

#[test]
fn suggest_offers_close_corrections_without_the_query() {
    let data = vec![Vec::new(), Vec::new(), Vec::new(), Vec::new()];
    let index = vec![
        format!("{}aaa n 1 0\noutdatqq n 1 0\noutdate n 1 0\noutdatr n 1 0\n", preamble()),
        String::new(),
        String::new(),
        String::new(),
    ];
    let db = WordNetDatabase::load(data, index).unwrap();
    let res = db.suggest("outdatr");
    assert_eq!(res, vec!["outdate".to_string(), "outdatqq".to_string()]);
    assert!(!res.contains(&"outdatr".to_string()));
}

#[test]
fn a_headword_shared_by_classes_enters_the_search_trees_once() {
    let data = vec![cat_data(), cat_data(), Vec::new(), Vec::new()];
    let index = vec![
        format!("{}cat n 1 0\n", preamble()),
        format!("{}cat v 1 0\n", preamble()),
        String::new(),
        String::new(),
    ];
    let db = WordNetDatabase::load(data, index).unwrap();
    assert_eq!(db.suggest_search(""), vec!["cat".to_string()]);
    let word = db.get("cat").unwrap();
    assert_eq!(word.data[0].len(), 1);
    assert_eq!(word.data[1].len(), 1);
}

#[test]
fn later_index_lines_overwrite_earlier_ones() {
    // the second registration points at an unreadable offset, so the lookup
    // degrades to nothing rather than using the first registration
    let data = vec![cat_data(), Vec::new(), Vec::new(), Vec::new()];
    let index = vec![
        format!("{}cat n 1 0\ncat n 1 500\n", preamble()),
        String::new(),
        String::new(),
        String::new(),
    ];
    let db = WordNetDatabase::load(data, index).unwrap();
    assert!(db.get("cat").is_none());
}

#[test]
fn a_sense_with_invalid_utf8_degrades_the_lookup() {
    let mut data_noun = b"00001740 03 n 01 cat 0 | a small ".to_vec();
    data_noun.push(0xFF);
    data_noun.extend_from_slice(b" carnivore\n");
    let data = vec![data_noun, Vec::new(), Vec::new(), Vec::new()];
    let index = vec![
        format!("{}cat n 1 0\n", preamble()),
        String::new(),
        String::new(),
        String::new(),
    ];
    let db = WordNetDatabase::load(data, index).unwrap();
    assert!(db.get("cat").is_none());
}

#[test]
fn load_rejects_malformed_index_lines() {
    let data = vec![Vec::new(), Vec::new(), Vec::new(), Vec::new()];
    // too few fields
    let index = vec![
        format!("{}cat\n", preamble()),
        String::new(),
        String::new(),
        String::new(),
    ];
    assert!(WordNetDatabase::load(data, index).is_none());

    let data = vec![Vec::new(), Vec::new(), Vec::new(), Vec::new()];
    // the offset is not a number
    let index = vec![
        format!("{}cat n 1 zz\n", preamble()),
        String::new(),
        String::new(),
        String::new(),
    ];
    assert!(WordNetDatabase::load(data, index).is_none());
}

#[test]
fn load_needs_all_four_classes() {
    assert!(WordNetDatabase::load(vec![Vec::new()], vec![String::new()]).is_none());
}

#[test]
fn preamble_lines_are_skipped() {
    // 29 lines of license text parse as nothing even though they are not
    // well-formed entries
    let data = vec![Vec::new(), Vec::new(), Vec::new(), Vec::new()];
    let index = vec![
        "license text\n".repeat(29),
        String::new(),
        String::new(),
        String::new(),
    ];
    let db = WordNetDatabase::load(data, index).unwrap();
    assert!(db.get("license").is_none());
}

#[test]
fn queries_through_the_database_trait() {
    let db = small_db();
    let handle: &dyn Database<kino_dicts::Word> = &db;
    assert!(handle.get("cat").is_some());
    assert_eq!(handle.suggest_search("c"), vec!["cat".to_string()]);
    assert!(handle.suggest("zzz").is_empty());
}
