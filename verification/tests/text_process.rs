use sesquioxide::text_process::{
    clean_up_text, contains_word, fits_counters, get_all_words, replaced_or_same, stop_word_list,
    strip_pattern, tokenise,
};

fn strings(words: &[&str]) -> Vec<String> {
    words.iter().map(|w| w.to_string()).collect()
}

fn sample_corpus() -> Vec<Vec<String>> {
    vec![
        strings(&["this", "is", "some", "text"]),
        strings(&["and", "there", "is", "more"]),
        strings(&["this", "too"]),
    ]
}

#[test]
fn test_tokenise() {
    let text: String = "this is some text".to_string();

    let result_1: Result<Vec<String>, String> = tokenise(&text);

    assert_eq!(Ok(vec!["text".to_string()]), result_1);
}

#[test]
fn test_tokenise_empty_input() {
    let empty_text: String = "".to_string();
    let result_2: Result<Vec<String>, String> = tokenise(&empty_text);

    assert_eq!(Err("No words found.".to_string()), result_2);
}

#[test]
fn test_clean_up_text() {
    let text: String = "this is some text".to_string();

    let result = clean_up_text(&text);

    assert_eq!("this is some text".to_string(), result);
}

#[test]
fn test_get_all_words() {
    let corpus = sample_corpus();

    let result = get_all_words(&corpus);

    assert_eq!(
        result.terms,
        strings(&["this", "is", "some", "text", "and", "there", "more", "too"])
    );
    assert_eq!(result.counts, vec![2, 2, 1, 1, 1, 1, 1, 1]);
}

#[test]
fn get_all_words_of_empty_corpus_is_empty() {
    let result = get_all_words(&[]);
    assert_eq!(result.len(), 0);
    assert!(result.counts.is_empty());
}

#[test]
fn get_all_words_counts_repeats_within_a_document() {
    let corpus = vec![strings(&["b", "a", "b", "b"]), strings(&["a"])];
    let result = get_all_words(&corpus);
    assert_eq!(result.terms, strings(&["b", "a"]));
    assert_eq!(result.counts, vec![3, 2]);
    assert_eq!(result.get(&"b".to_string()), Some(3));
    assert_eq!(result.get(&"c".to_string()), None);
    assert_eq!(result.position(&"a".to_string()), Some(1));
}

#[test]
fn tokenise_skips_empty_pieces_and_stop_words() {
    assert_eq!(
        tokenise("  the  sky   is blue "),
        Ok(strings(&["sky", "blue"]))
    );
    assert_eq!(tokenise("sky sky"), Ok(strings(&["sky", "sky"])));
}

#[test]
fn tokenise_only_stop_words_is_an_error() {
    assert_eq!(tokenise("this is the"), Err("No words found.".to_string()));
    assert_eq!(tokenise("   "), Err("No words found.".to_string()));
}

#[test]
fn tokenise_splits_on_spaces_only() {
    assert_eq!(
        tokenise("sky\tblue green\nred"),
        Ok(strings(&["sky\tblue", "green\nred"]))
    );
    assert_eq!(tokenise("The sky"), Ok(strings(&["The", "sky"])));
}

#[test]
fn tokenise_keeps_text_beyond_ascii() {
    assert_eq!(tokenise("é the ü"), Ok(strings(&["é", "ü"])));
}

#[test]
fn stop_word_list_holds_the_common_words() {
    let list = stop_word_list();
    assert_eq!(list.len(), 127);
    assert!(contains_word(&list, "the"));
    assert!(contains_word(&list, "some"));
    assert!(!contains_word(&list, "sky"));
    assert!(!contains_word(&list, ""));
}

#[test]
fn clean_up_text_lowers_case_and_blanks_what_is_no_letter() {
    assert_eq!(clean_up_text("Hello, World!"), "hello world ".to_string());
    assert_eq!(clean_up_text("A1b2"), "a b ".to_string());
    assert_eq!(clean_up_text(""), "".to_string());
}

#[test]
fn strip_pattern_replaces_each_match_by_one_space() {
    assert_eq!(strip_pattern(" +", "a   b  c".to_string()), "a b c".to_string());
    assert_eq!(strip_pattern("[0-9]", "a1b22".to_string()), "a b  ".to_string());
}

#[test]
fn strip_pattern_keeps_the_text_when_the_pattern_is_broken() {
    assert_eq!(strip_pattern("(", "a(b".to_string()), "a(b".to_string());
}

#[test]
fn replaced_or_same_prefers_the_replacement() {
    assert_eq!(
        replaced_or_same(Some("x".to_string()), "y".to_string()),
        "x".to_string()
    );
    assert_eq!(replaced_or_same(None, "y".to_string()), "y".to_string());
}

#[test]
fn fits_counters_accepts_ordinary_corpora() {
    assert!(fits_counters(&sample_corpus()));
    assert!(fits_counters(&[]));
    assert!(fits_counters(&[vec![], vec![]]));
}

#[test]
fn tokenise_agrees_on_ascii_and_other_text() {
    assert_eq!(
        tokenise("red the green"),
        Ok(strings(&["red", "green"]))
    );
    assert_eq!(
        tokenise("réd the grün"),
        Ok(strings(&["réd", "grün"]))
    );
}
