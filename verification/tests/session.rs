use sesquioxide::session::{read_turn, Turn};
use sesquioxide::vocabulary::Vocabulary;

fn sky_vocabulary() -> Vocabulary {
    let mut words = Vocabulary::new();
    words.insert("sky".to_string(), 2);
    words.insert("blue".to_string(), 1);
    words.insert("grass".to_string(), 1);
    words
}

#[test]
fn read_turn_projects_a_query() {
    let words = sky_vocabulary();
    match read_turn("Is the GRASS blue, or what?\n", &words) {
        Turn::Search { marks } => assert_eq!(marks, vec![false, true, true]),
        _ => panic!("a query was expected"),
    }
}

#[test]
fn read_turn_ends_on_quit() {
    let words = sky_vocabulary();
    assert!(matches!(read_turn("quit\n", &words), Turn::Quit));
    assert!(matches!(read_turn("sky, then QUIT!", &words), Turn::Quit));
    assert!(matches!(read_turn("quite blue", &words), Turn::Search { .. }));
}

#[test]
fn read_turn_without_tokens_asks_for_nothing() {
    let words = sky_vocabulary();
    assert!(matches!(read_turn("\n", &words), Turn::NoInput));
    assert!(matches!(read_turn("this is the 42", &words), Turn::NoInput));
}

#[test]
fn read_turn_with_unknown_tokens_marks_nothing() {
    let words = sky_vocabulary();
    match read_turn("purple rain", &words) {
        Turn::Search { marks } => assert_eq!(marks, vec![false, false, false]),
        _ => panic!("a query was expected"),
    }
}
