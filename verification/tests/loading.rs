use sesquioxide::calculations::{rank_idx, tf_calculation};
use sesquioxide::loading::{
    extract_contents, is_text_file, load_corpus, load_corpus_with_sources, load_paths,
    process_input, walk_directory, FoundEntry,
};
use sesquioxide::model::Model;
use sesquioxide::text_process::get_all_words;
use sesquioxide::vocabulary::Vocabulary;

fn file(path: &str) -> FoundEntry {
    let name = path.rsplit('/').next().unwrap_or(path);
    FoundEntry { is_dir: false, file_name: name.to_string(), path: Some(path.to_string()) }
}

fn directory(path: &str) -> FoundEntry {
    let name = path.rsplit('/').next().unwrap_or(path);
    FoundEntry { is_dir: true, file_name: name.to_string(), path: Some(path.to_string()) }
}

fn tokens(words: &[&str]) -> Vec<String> {
    words.iter().map(|w| w.to_string()).collect()
}

fn vocabulary_of_eight() -> Vocabulary {
    let mut words = Vocabulary::new();
    words.insert("this".to_string(), 2);
    words.insert("is".to_string(), 2);
    words.insert("some".to_string(), 1);
    words.insert("text".to_string(), 1);
    words.insert("and".to_string(), 1);
    words.insert("there".to_string(), 1);
    words.insert("more".to_string(), 1);
    words.insert("too".to_string(), 1);
    words
}

#[test]
fn test_load_paths_ok() {
    let found = vec![
        directory("data"),
        file("data/doc4.txt"),
        file("data/doc1.txt"),
        file("data/doc3.txt"),
        file("data/doc2.txt"),
    ];
    let result: Result<Vec<String>, String> = load_paths(true, &found);

    assert_eq!(
        Ok(vec![
            "data/doc4.txt".to_string(),
            "data/doc1.txt".to_string(),
            "data/doc3.txt".to_string(),
            "data/doc2.txt".to_string()
        ]),
        result
    );
}

#[test]
fn test_load_paths_error() {
    let error_res: Result<Vec<String>, String> = load_paths(false, &[]);
    assert_eq!(Err("Directory does not exist.".to_string()), error_res);
}

#[test]
fn load_paths_without_text_files_is_an_error() {
    let found = vec![directory("data"), file("data/picture.png"), directory("data/notes.md")];
    assert_eq!(
        load_paths(true, &found),
        Err("No files found in directory.".to_string())
    );
    assert_eq!(
        load_paths(true, &[]),
        Err("No files found in directory.".to_string())
    );
}

#[test]
fn walk_directory_filters_by_kind_name_and_path() {
    let found = vec![
        file("a/README.MD"),
        file("a/b/notes.Txt"),
        file("a/.md"),
        file("a/.txt"),
        file("a/md"),
        file("a/x.mdx"),
        directory("a/c.txt"),
        FoundEntry { is_dir: false, file_name: "lost.txt".to_string(), path: None },
        file("a/x.y.md"),
    ];
    assert_eq!(
        walk_directory(&found),
        vec![
            "a/README.MD".to_string(),
            "a/b/notes.Txt".to_string(),
            "a/x.y.md".to_string()
        ]
    );
}

#[test]
fn is_text_file_goes_by_the_extension() {
    assert!(is_text_file("a.md"));
    assert!(is_text_file("a.mD"));
    assert!(is_text_file("a.txt"));
    assert!(is_text_file("a.TXT"));
    assert!(is_text_file("é.md"));
    assert!(!is_text_file(".md"));
    assert!(!is_text_file(".txt"));
    assert!(!is_text_file("txt"));
    assert!(!is_text_file("a.md.bak"));
    assert!(!is_text_file("amd"));
    assert!(!is_text_file(""));
    assert!(!is_text_file("a.rs"));
}

#[test]
fn test_load_corpus_ok() {
    let contents: Vec<String> = vec!["The sky is blue.\n".to_string()];
    let result: Result<Vec<Vec<String>>, String> = load_corpus(&contents);

    assert_eq!(
        Ok(vec![vec!["sky".to_string(), "blue".to_string()]]),
        result
    );
}

#[test]
fn test_load_corpus_error() {
    let contents: Vec<String> = vec!["".to_string()];
    let result: Result<Vec<Vec<String>>, String> = load_corpus(&contents);

    assert_eq!(Err("No words extracted from files.".to_string()), result);
}

#[test]
fn load_corpus_leaves_out_files_without_tokens() {
    let contents = vec![
        "Red apples".to_string(),
        "the and of 123".to_string(),
        "".to_string(),
        "Green PEARS!".to_string(),
    ];
    assert_eq!(
        load_corpus(&contents),
        Ok(vec![tokens(&["red", "apples"]), tokens(&["green", "pears"])])
    );
    assert_eq!(
        load_corpus(&[]),
        Err("No words extracted from files.".to_string())
    );
}

#[test]
fn test_extract_contents_ok() {
    let result: Result<Vec<String>, String> = extract_contents("The sky is blue.\n");

    assert_eq!(Ok(vec!["sky".to_string(), "blue".to_string()]), result);

    let error_res: Result<Vec<String>, String> = extract_contents("");

    assert_eq!(Err(String::from("No words found.")), error_res);
}

#[test]
fn test_extract_contents_error() {
    let result: Result<Vec<String>, String> = extract_contents("");

    assert_eq!(Err(String::from("No words found.")), result);
}

#[test]
fn test_process_input_ok() {
    let test_input: Vec<String> = vec![
        "this is some text".to_string(),
        "and there is more".to_string(),
        "this too".to_string(),
    ];
    let words = vocabulary_of_eight();

    let result: Result<Vec<bool>, String> = process_input(&test_input, &words);

    assert_eq!(Ok(vec![false; 8]), result);
}

#[test]
fn test_process_input_error() {
    let words = vocabulary_of_eight();

    let error_res: Result<Vec<bool>, String> = process_input(&[], &words);

    assert_eq!(Err(String::from("Empty query")), error_res);
}

#[test]
fn process_input_marks_presence_not_counts() {
    let words = vocabulary_of_eight();
    let query = tokens(&["more", "this", "this", "unknown", "this"]);
    assert_eq!(
        process_input(&query, &words),
        Ok(vec![true, false, false, false, false, false, true, false])
    );
}

#[test]
fn process_input_error_leaves_the_vocabulary_as_it_was() {
    let words = vocabulary_of_eight();
    let terms_before = words.terms.clone();
    let counts_before = words.counts.clone();
    assert!(process_input(&[], &words).is_err());
    assert_eq!(words.terms, terms_before);
    assert_eq!(words.counts, counts_before);
}

#[test]
fn unknown_query_marks_nothing_and_ranks_nothing() {
    let words = vocabulary_of_eight();
    let marks = process_input(&tokens(&["sky", "blue"]), &words).unwrap();
    assert_eq!(marks, vec![false; 8]);
    let scores: Vec<i64> = marks.iter().map(|_| 0).collect();
    assert_eq!(rank_idx(&scores), Vec::<usize>::new());
}

#[test]
fn a_document_as_query_marks_its_own_terms() {
    let corpus = vec![
        tokens(&["this", "is", "some", "text"]),
        tokens(&["and", "there", "is", "more"]),
        tokens(&["this", "too"]),
    ];
    let words = get_all_words(&corpus);
    let tf = tf_calculation(&corpus, &words);
    for (i, doc) in corpus.iter().enumerate() {
        let marks = process_input(doc, &words).unwrap();
        let support: Vec<bool> = tf[i].iter().map(|&count| count > 0).collect();
        assert_eq!(marks, support);
        assert!(marks.contains(&true));
    }
}

#[test]
fn model_holds_vocabulary_counts_and_ratios() {
    let corpus = vec![
        tokens(&["this", "is", "some", "text"]),
        tokens(&["and", "there", "is", "more"]),
        tokens(&["this", "too"]),
    ];
    let model = Model::new(&corpus);
    assert_eq!(model.words.len(), 8);
    assert_eq!(model.words.counts, vec![2, 2, 1, 1, 1, 1, 1, 1]);
    assert_eq!(model.tf.len(), 3);
    assert_eq!(model.tf[1], vec![0, 1, 0, 0, 1, 1, 1, 0]);
    assert_eq!(model.idf.len(), 8);
    assert_eq!(model.idf[0].documents, 3);
    assert_eq!(model.idf[0].occurrences_plus_one, 3);
    let sums: Vec<usize> = model.tf.iter().map(|row| row.iter().sum()).collect();
    assert_eq!(sums, vec![4, 4, 2]);
}

#[test]
fn model_of_empty_corpus_is_empty() {
    let model = Model::new(&[]);
    assert_eq!(model.words.len(), 0);
    assert!(model.tf.is_empty());
    assert!(model.idf.is_empty());
}

#[test]
fn load_corpus_with_sources_remembers_where_documents_came_from() {
    let contents = vec![
        "".to_string(),
        "Red apples".to_string(),
        "the and of".to_string(),
        "Green pears".to_string(),
    ];
    let loaded = load_corpus_with_sources(&contents).unwrap();
    assert_eq!(
        loaded.corpus,
        vec![tokens(&["red", "apples"]), tokens(&["green", "pears"])]
    );
    assert_eq!(loaded.sources, vec![1, 3]);
    assert!(load_corpus_with_sources(&["".to_string()]).is_err());
}

#[test]
fn vocabulary_insert_replaces_the_count_of_a_known_term() {
    let mut words = Vocabulary::new();
    words.insert("a".to_string(), 1);
    words.insert("b".to_string(), 2);
    words.insert("a".to_string(), 7);
    assert_eq!(words.terms, tokens(&["a", "b"]));
    assert_eq!(words.counts, vec![7, 2]);
    assert_eq!(words.len(), 2);
}

#[test]
fn model_try_new_builds_what_new_builds() {
    let corpus = vec![tokens(&["red", "apples", "red"]), tokens(&["pears"])];
    let model = Model::try_new(&corpus).unwrap();
    assert_eq!(model.words.terms, tokens(&["red", "apples", "pears"]));
    assert_eq!(model.words.counts, vec![2, 1, 1]);
    assert_eq!(model.tf, vec![vec![2, 1, 0], vec![0, 0, 1]]);
    assert_eq!(model.idf[0].documents, 2);
    assert_eq!(model.idf[0].occurrences_plus_one, 3);
}
