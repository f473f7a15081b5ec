use kino_dicts::Gloassary;
use kino_dicts::record::parse_record;

fn cat_record_line() -> Vec<u8> {
    b"00001740 03 n 01 cat 0 | a small domesticated carnivore; \"I own a cat\"  \n".to_vec()
}

#[test]
fn parses_a_record_into_its_three_spans() {
    let buf = cat_record_line();
    let g = parse_record(&buf, 0).unwrap();
    assert_eq!(g.synonyms(), &b"cat 0".to_vec());
    assert_eq!(g.meanings(), &b"a small domesticated carnivore".to_vec());
    assert_eq!(g.examples(), &b"; \"I own a cat\"".to_vec());
}

#[test]
fn record_without_example_marker_keeps_whole_gloss_as_meanings() {
    // no trailing whitespace after the gloss: every byte of it must stay in
    // the meanings span
    let buf = b"00001740 03 n 01 cat 0 | a small domesticated carnivore\n".to_vec();
    let g = parse_record(&buf, 0).unwrap();
    assert_eq!(g.meanings(), &b"a small domesticated carnivore".to_vec());
    assert_eq!(g.examples(), &b"".to_vec());
}

#[test]
fn invalid_utf8_in_a_span_makes_the_record_unavailable() {
    let mut bad_gloss = b"00001740 03 n 01 cat 0 | a small ".to_vec();
    bad_gloss.push(0xFF);
    bad_gloss.extend_from_slice(b" carnivore\n");
    assert!(parse_record(&bad_gloss, 0).is_none());

    let mut bad_lemma = b"00001740 03 n 01 c".to_vec();
    bad_lemma.push(0xC3);
    bad_lemma.extend_from_slice(b"t 0 | a gloss\n");
    assert!(parse_record(&bad_lemma, 0).is_none());

    // multi-byte sequences that are well formed stay available
    let accented = "00001740 03 n 01 caf\u{e9} 0 | a caf\u{e9}; \"au caf\u{e9}\"\n"
        .as_bytes()
        .to_vec();
    let g = parse_record(&accented, 0).unwrap();
    assert_eq!(g.meanings(), &"a caf\u{e9}".as_bytes().to_vec());
}

#[test]
fn malformed_records_are_rejected() {
    // too short for the fixed header
    assert!(parse_record(&b"0000".to_vec(), 0).is_none());
    // sense count is not hexadecimal
    let bad_hex = b"00001740 03 n zz cat 0 | gloss\n".to_vec();
    assert!(parse_record(&bad_hex, 0).is_none());
    // gloss separator missing
    let no_pipe = b"00001740 03 n 01 cat 0 a gloss without pipe\n".to_vec();
    assert!(parse_record(&no_pipe, 0).is_none());
    // line never ends
    let no_newline = b"00001740 03 n 01 cat 0 | a gloss".to_vec();
    assert!(parse_record(&no_newline, 0).is_none());
    // offset outside the buffer
    let buf = cat_record_line();
    assert!(parse_record(&buf, 4000).is_none());
}

#[test]
fn synonyms_list_takes_every_other_token() {
    let g = Gloassary::new(b"cat 0 true_cat 0".to_vec(), b"m".to_vec(), b"".to_vec());
    assert_eq!(g.synonyms_list(), vec![b"cat".to_vec(), b"true_cat".to_vec()]);
}

#[test]
fn examples_list_splits_quoted_examples() {
    let g = Gloassary::new(
        b"cat 0".to_vec(),
        b"m".to_vec(),
        b"; \"I own a cat\"".to_vec(),
    );
    assert_eq!(g.examples_list(), vec![b"I own a cat".to_vec()]);

    let g2 = Gloassary::new(b"cat 0".to_vec(), b"m".to_vec(), b"; \"A\"; \"B\"".to_vec());
    assert_eq!(g2.examples_list(), vec![b"A".to_vec(), b"B".to_vec()]);
}

#[test]
fn empty_examples_span_yields_no_examples() {
    let g = Gloassary::new(b"cat 0".to_vec(), b"m".to_vec(), b"".to_vec());
    assert_eq!(g.examples_list(), Vec::<Vec<u8>>::new());
}
