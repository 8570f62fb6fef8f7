//! From what was found on disk to a corpus, and from a query to its place in
//! the vocabulary's columns.

use vstd::prelude::*;
use crate::text_process::{clean_up_text, cleaned, contains_word, tokenise, tokens_of};
use crate::calculations::is_tf_matrix;
use crate::vocabulary::{corpus_tokens, corpus_view, distinct_terms, doc_view, Vocabulary};
use crate::vocabulary::{lemma_corpus_tokens_contains, lemma_count_in_positive, lemma_distinct_terms};

verus! {

/// One entry that a walk through a directory tree came upon.
pub struct FoundEntry {
    /// Whether the entry is itself a directory.
    pub is_dir: bool,
    /// The last component of its path.
    pub file_name: String,
    /// Its whole path, where that can be written as text.
    pub path: Option<String>,
}

/// The name ends in `.md`, in either case of the letters, after a stem that
/// is not empty.
pub open spec fn has_md_extension(name: Seq<char>) -> bool {
    let n = name.len() as int;
    &&& n > 3
    &&& name[n - 3] == '.'
    &&& (name[n - 2] == 'm' || name[n - 2] == 'M')
    &&& (name[n - 1] == 'd' || name[n - 1] == 'D')
}

/// The name ends in `.txt`, in either case of the letters, after a stem that
/// is not empty.
pub open spec fn has_txt_extension(name: Seq<char>) -> bool {
    let n = name.len() as int;
    &&& n > 4
    &&& name[n - 4] == '.'
    &&& (name[n - 3] == 't' || name[n - 3] == 'T')
    &&& (name[n - 2] == 'x' || name[n - 2] == 'X')
    &&& (name[n - 1] == 't' || name[n - 1] == 'T')
}

/// Whether a file of this name is read: a markdown or a plain text file.
pub fn is_text_file(file_name: &str) -> (wanted: bool)
    ensures
        wanted == (has_md_extension(file_name@) || has_txt_extension(file_name@)),
{
    let n = file_name.unicode_len();
    if n <= 3 {
        return false;
    }
    let last = file_name.get_char(n - 1);
    let second = file_name.get_char(n - 2);
    let third = file_name.get_char(n - 3);
    if third == '.' && (second == 'm' || second == 'M') && (last == 'd' || last == 'D') {
        return true;
    }
    if n <= 4 {
        return false;
    }
    let fourth = file_name.get_char(n - 4);
    fourth == '.' && (third == 't' || third == 'T') && (second == 'x' || second == 'X') && (last
        == 't' || last == 'T')
}

/// An entry is listed when it is no directory, is a text file by its name,
/// and has a path that can be written as text.
pub open spec fn is_listed(entry: FoundEntry) -> bool {
    &&& !entry.is_dir
    &&& has_md_extension(entry.file_name@) || has_txt_extension(entry.file_name@)
    &&& entry.path is Some
}

/// The paths of the listed entries, in the order of the walk.
pub open spec fn listed_paths(entries: Seq<FoundEntry>) -> Seq<Seq<char>>
    decreases entries.len(),
{
    if entries.len() == 0 {
        Seq::empty()
    } else if is_listed(entries.last()) {
        listed_paths(entries.drop_last()).push(entries.last().path->0@)
    } else {
        listed_paths(entries.drop_last())
    }
}

/// Picks the markdown and text files out of the entries of a walk.
pub fn walk_directory(entries: &[FoundEntry]) -> (path_list: Vec<String>)
    ensures
        doc_view(path_list@) == listed_paths(entries@),
{
    let mut path_list: Vec<String> = Vec::new();
    let mut k: usize = 0;
    assert(doc_view(path_list@) =~= listed_paths(entries@.take(0)));
    while k < entries.len()
        invariant
            k <= entries.len(),
            doc_view(path_list@) == listed_paths(entries@.take(k as int)),
        decreases entries.len() - k,
    {
        let entry = &entries[k];
        let ghost before = doc_view(path_list@);
        assert(entries@.take(k + 1).drop_last() =~= entries@.take(k as int));
        if !entry.is_dir && is_text_file(entry.file_name.as_str()) {
            match &entry.path {
                Some(path) => {
                    path_list.push(path.clone());
                    assert(doc_view(path_list@) =~= before.push(path@));
                },
                None => {},
            }
        }
        k += 1;
    }
    assert(entries@.take(k as int) =~= entries@);
    path_list
}

/// The paths of the markdown and text files below a directory, given
/// whether the directory exists and what a walk through it found.
pub fn load_paths(is_directory: bool, entries: &[FoundEntry]) -> (result: Result<
    Vec<String>,
    String,
>)
    ensures
        match result {
            Ok(path_list) => is_directory && listed_paths(entries@).len() > 0 && doc_view(
                path_list@,
            ) == listed_paths(entries@),
            Err(message) => if is_directory {
                listed_paths(entries@).len() == 0 && message@ == "No files found in directory."@
            } else {
                message@ == "Directory does not exist."@
            },
        },
{
    if is_directory {
        let path_list = walk_directory(entries);
        if path_list.len() == 0 {
            Err(String::from_str("No files found in directory."))
        } else {
            Ok(path_list)
        }
    } else {
        Err(String::from_str("Directory does not exist."))
    }
}

/// Cleans up the contents of one file and splits them into tokens. Contents
/// without any token are an error.
pub fn extract_contents(contents: &str) -> (result: Result<Vec<String>, String>)
    ensures
        match result {
            Ok(words) => tokens_of(cleaned(contents@)).len() > 0 && doc_view(words@) == tokens_of(
                cleaned(contents@),
            ),
            Err(message) => tokens_of(cleaned(contents@)).len() == 0 && message@
                == "No words found."@,
        },
{
    let cleaned_text = clean_up_text(contents);
    tokenise(cleaned_text.as_str())
}

/// The documents that a list of file contents gives: the tokens of each
/// file that has any, in the order of the files.
pub open spec fn corpus_of(contents: Seq<Seq<char>>) -> Seq<Seq<Seq<char>>>
    decreases contents.len(),
{
    if contents.len() == 0 {
        Seq::empty()
    } else {
        let tokens = tokens_of(cleaned(contents.last()));
        if tokens.len() > 0 {
            corpus_of(contents.drop_last()).push(tokens)
        } else {
            corpus_of(contents.drop_last())
        }
    }
}

/// The places, in the list of contents, of the files that give a document:
/// entry `j` is the file from which document `j` of the corpus was made.
pub open spec fn sources_of(contents: Seq<Seq<char>>) -> Seq<usize>
    decreases contents.len(),
{
    if contents.len() == 0 {
        Seq::empty()
    } else if tokens_of(cleaned(contents.last())).len() > 0 {
        sources_of(contents.drop_last()).push((contents.len() - 1) as usize)
    } else {
        sources_of(contents.drop_last())
    }
}

/// Each document of the corpus has its source: there are as many sources as
/// documents, and document `j` holds the tokens of the file at place
/// `sources[j]`.
pub proof fn lemma_sources_match_documents(contents: Seq<Seq<char>>, j: int)
    requires
        contents.len() <= usize::MAX,
    ensures
        sources_of(contents).len() == corpus_of(contents).len(),
        0 <= j < sources_of(contents).len() ==> sources_of(contents)[j] < contents.len()
            && corpus_of(contents)[j] == tokens_of(cleaned(contents[sources_of(contents)[j] as int])),
    decreases contents.len(),
{
    if contents.len() > 0 {
        lemma_sources_match_documents(contents.drop_last(), j);
    }
}

/// A corpus, and for each of its documents the place of the file it was
/// made from.
pub struct LoadedCorpus {
    pub corpus: Vec<Vec<String>>,
    pub sources: Vec<usize>,
}

/// Builds the corpus from the contents of the files and keeps, for each
/// document, the place of its file. Files without tokens are left out; if
/// none is left, that is an error.
pub fn load_corpus_with_sources(contents: &[String]) -> (result: Result<LoadedCorpus, String>)
    ensures
        match result {
            Ok(loaded) => {
                &&& loaded.corpus@.len() > 0
                &&& corpus_view(loaded.corpus@) == corpus_of(doc_view(contents@))
                &&& loaded.sources@ == sources_of(doc_view(contents@))
            },
            Err(message) => corpus_of(doc_view(contents@)).len() == 0 && message@
                == "No words extracted from files."@,
        },
{
    let ghost texts = doc_view(contents@);
    let mut corpus: Vec<Vec<String>> = Vec::new();
    let mut sources: Vec<usize> = Vec::new();
    let mut k: usize = 0;
    assert(corpus_view(corpus@) =~= corpus_of(texts.take(0)));
    assert(sources@ =~= sources_of(texts.take(0)));
    while k < contents.len()
        invariant
            k <= contents.len(),
            texts == doc_view(contents@),
            corpus_view(corpus@) == corpus_of(texts.take(k as int)),
            sources@ == sources_of(texts.take(k as int)),
        decreases contents.len() - k,
    {
        let ghost before = corpus_view(corpus@);
        assert(texts.take(k + 1).drop_last() =~= texts.take(k as int));
        match extract_contents(contents[k].as_str()) {
            Ok(words) => {
                let ghost tokens = doc_view(words@);
                corpus.push(words);
                sources.push(k);
                assert(corpus_view(corpus@) =~= before.push(tokens));
            },
            Err(_) => {},
        }
        k += 1;
    }
    assert(texts.take(k as int) =~= texts);
    if corpus.len() == 0 {
        Err(String::from_str("No words extracted from files."))
    } else {
        Ok(LoadedCorpus { corpus, sources })
    }
}

/// Builds the corpus from the contents of the files. Files without tokens
/// are left out; if none is left, that is an error.
pub fn load_corpus(contents: &[String]) -> (result: Result<Vec<Vec<String>>, String>)
    ensures
        match result {
            Ok(corpus) => corpus@.len() > 0 && corpus_view(corpus@) == corpus_of(
                doc_view(contents@),
            ),
            Err(message) => corpus_of(doc_view(contents@)).len() == 0 && message@
                == "No words extracted from files."@,
        },
{
    match load_corpus_with_sources(contents) {
        Ok(loaded) => Ok(loaded.corpus),
        Err(message) => Err(message),
    }
}

/// Which columns of the vocabulary a query touches: column `j` is marked
/// exactly when the query holds the column's term, however often.
pub open spec fn query_mask(query: Seq<Seq<char>>, terms: Seq<Seq<char>>) -> Seq<bool> {
    Seq::new(terms.len(), |j: int| query.contains(terms[j]))
}

/// A query whose tokens are all unknown to the vocabulary marks no column.
pub proof fn lemma_unknown_query_marks_nothing(query: Seq<Seq<char>>, terms: Seq<Seq<char>>)
    requires
        forall|k: int| 0 <= k < query.len() ==> !terms.contains(#[trigger] query[k]),
    ensures
        query_mask(query, terms).len() == terms.len(),
        forall|j: int| 0 <= j < terms.len() ==> !(#[trigger] query_mask(query, terms)[j]),
{
    assert forall|j: int| 0 <= j < terms.len() implies !(#[trigger] query_mask(query, terms)[j]) by {
        if query.contains(terms[j]) {
            let k = choose|k: int| 0 <= k < query.len() && query[k] == terms[j];
            assert(terms.contains(query[k]));
        }
    }
}

/// A document of the corpus, taken as a query against the corpus's own
/// vocabulary, marks exactly the columns in which its term-frequency row is
/// not zero; and it marks at least one unless it is empty.
pub proof fn lemma_document_marks_its_terms(
    corpus: Seq<Seq<Seq<char>>>,
    tf: Seq<Vec<usize>>,
    i: int,
)
    requires
        0 <= i < corpus.len(),
        is_tf_matrix(tf, corpus, distinct_terms(corpus_tokens(corpus))),
    ensures
        forall|j: int|
            0 <= j < distinct_terms(corpus_tokens(corpus)).len() ==> #[trigger] query_mask(
                corpus[i],
                distinct_terms(corpus_tokens(corpus)),
            )[j] == (tf[i]@[j] > 0),
        corpus[i].len() > 0 ==> exists|j: int|
            0 <= j < distinct_terms(corpus_tokens(corpus)).len() && #[trigger] query_mask(
                corpus[i],
                distinct_terms(corpus_tokens(corpus)),
            )[j],
{
    let terms = distinct_terms(corpus_tokens(corpus));
    let doc = corpus[i];
    assert forall|j: int| 0 <= j < terms.len() implies #[trigger] query_mask(doc, terms)[j] == (
    tf[i]@[j] > 0) by {
        lemma_count_in_positive(doc, terms[j]);
    }
    if doc.len() > 0 {
        lemma_corpus_tokens_contains(corpus, i, 0);
        lemma_distinct_terms(corpus_tokens(corpus), doc[0]);
        let j = choose|j: int| 0 <= j < terms.len() && terms[j] == doc[0];
        assert(doc.contains(terms[j]));
        assert(query_mask(doc, terms)[j]);
    }
}

/// Projects a tokenised query onto the vocabulary. An empty query is an
/// error; tokens that are no terms of the vocabulary mark nothing.
pub fn process_input(test_input: &[String], all_words: &Vocabulary) -> (result: Result<
    Vec<bool>,
    String,
>)
    ensures
        match result {
            Ok(marks) => test_input@.len() > 0 && marks@ == query_mask(
                doc_view(test_input@),
                all_words.terms_view(),
            ),
            Err(message) => test_input@.len() == 0 && message@ == "Empty query"@,
        },
{
    if test_input.len() == 0 {
        return Err(String::from_str("Empty query"));
    }
    let mut marks: Vec<bool> = Vec::new();
    let mut j: usize = 0;
    while j < all_words.terms.len()
        invariant
            j <= all_words.terms@.len(),
            marks@.len() == j,
            forall|c: int|
                0 <= c < j ==> #[trigger] marks@[c] == doc_view(test_input@).contains(
                    all_words.terms_view()[c],
                ),
        decreases all_words.terms@.len() - j,
    {
        let found = contains_word(test_input, all_words.terms[j].as_str());
        marks.push(found);
        j += 1;
    }
    assert(marks@ =~= query_mask(doc_view(test_input@), all_words.terms_view()));
    Ok(marks)
}

} // verus!
