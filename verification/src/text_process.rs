//! From raw text to tokens, and from tokens to the vocabulary.

use vstd::prelude::*;
use crate::vocabulary::{corpus_tokens, corpus_view, count_in, distinct_terms, doc_view};
use crate::vocabulary::{lemma_corpus_tokens_prefix, lemma_count_in_bounded};
use crate::vocabulary::{lemma_count_in_positive, lemma_distinct_terms, Vocabulary};

verus! {

/// The words that carry no meaning for retrieval and are never tokens.
pub open spec fn stop_words() -> Seq<Seq<char>> {
    seq![
        "i"@, "me"@, "my"@, "myself"@, "we"@, "our"@, "ours"@, "ourselves"@, "you"@,
        "your"@, "yours"@, "yourself"@, "yourselves"@, "he"@, "him"@, "his"@,
        "himself"@, "she"@, "her"@, "hers"@, "herself"@, "it"@, "its"@, "itself"@,
        "they"@, "them"@, "their"@, "theirs"@, "themselves"@, "what"@, "which"@,
        "who"@, "whom"@, "this"@, "that"@, "these"@, "those"@, "am"@, "is"@, "are"@,
        "was"@, "were"@, "be"@, "been"@, "being"@, "have"@, "has"@, "had"@, "having"@,
        "do"@, "does"@, "did"@, "doing"@, "a"@, "an"@, "the"@, "and"@, "but"@, "if"@,
        "or"@, "because"@, "as"@, "until"@, "while"@, "of"@, "at"@, "by"@, "for"@,
        "with"@, "about"@, "against"@, "between"@, "into"@, "through"@, "during"@,
        "before"@, "after"@, "above"@, "below"@, "to"@, "from"@, "up"@, "down"@, "in"@,
        "out"@, "on"@, "off"@, "over"@, "under"@, "again"@, "further"@, "then"@,
        "once"@, "here"@, "there"@, "when"@, "where"@, "why"@, "how"@, "all"@, "any"@,
        "both"@, "each"@, "few"@, "more"@, "most"@, "other"@, "some"@, "such"@, "no"@,
        "nor"@, "not"@, "only"@, "own"@, "same"@, "so"@, "than"@, "too"@, "very"@,
        "s"@, "t"@, "can"@, "will"@, "just"@, "don"@, "should"@, "now"@,
    ]
}

/// The stop words as owned strings, for comparing.
pub fn stop_word_list() -> (list: Vec<String>)
    ensures
        doc_view(list@) == stop_words(),
{
    let words: [&str; 127] = [
        "i", "me", "my", "myself", "we", "our", "ours", "ourselves", "you", "your",
        "yours", "yourself", "yourselves", "he", "him", "his", "himself", "she", "her",
        "hers", "herself", "it", "its", "itself", "they", "them", "their", "theirs",
        "themselves", "what", "which", "who", "whom", "this", "that", "these", "those",
        "am", "is", "are", "was", "were", "be", "been", "being", "have", "has", "had",
        "having", "do", "does", "did", "doing", "a", "an", "the", "and", "but", "if",
        "or", "because", "as", "until", "while", "of", "at", "by", "for", "with",
        "about", "against", "between", "into", "through", "during", "before", "after",
        "above", "below", "to", "from", "up", "down", "in", "out", "on", "off", "over",
        "under", "again", "further", "then", "once", "here", "there", "when", "where",
        "why", "how", "all", "any", "both", "each", "few", "more", "most", "other",
        "some", "such", "no", "nor", "not", "only", "own", "same", "so", "than", "too",
        "very", "s", "t", "can", "will", "just", "don", "should", "now",
    ];
    let mut list: Vec<String> = Vec::new();
    let mut k: usize = 0;
    while k < words.len()
        invariant
            k <= words@.len(),
            list@.len() == k,
            forall|c: int| 0 <= c < k ==> (#[trigger] list@[c])@ == words@[c]@,
        decreases words@.len() - k,
    {
        list.push(String::from_str(words[k]));
        k += 1;
    }
    assert(doc_view(list@) =~= stop_words());
    list
}

/// Whether `word` stands among the tokens of `doc`.
pub fn contains_word(doc: &[String], word: &str) -> (found: bool)
    ensures
        found == doc_view(doc@).contains(word@),
{
    let owned = String::from_str(word);
    let mut k: usize = 0;
    while k < doc.len()
        invariant
            k <= doc.len(),
            owned@ == word@,
            forall|c: int| 0 <= c < k ==> doc_view(doc@)[c] != word@,
        decreases doc.len() - k,
    {
        if doc[k] == owned {
            assert(doc_view(doc@)[k as int] == word@);
            return true;
        }
        k += 1;
    }
    false
}

/// The pieces between the single spaces of a text; two spaces in a row, or
/// one at either end, give an empty piece.
pub open spec fn split_on_space(text: Seq<char>) -> Seq<Seq<char>>
    decreases text.len(),
{
    if text.len() == 0 {
        seq![Seq::empty()]
    } else {
        let pieces = split_on_space(text.drop_last());
        if text.last() == ' ' {
            pieces.push(Seq::empty())
        } else {
            pieces.drop_last().push(pieces.last().push(text.last()))
        }
    }
}

/// A piece is a token unless it is empty or a stop word.
pub open spec fn is_token(piece: Seq<char>) -> bool {
    piece.len() > 0 && !stop_words().contains(piece)
}

/// The pieces that are tokens, in their order.
pub open spec fn keep_tokens(pieces: Seq<Seq<char>>) -> Seq<Seq<char>>
    decreases pieces.len(),
{
    if pieces.len() == 0 {
        Seq::empty()
    } else if is_token(pieces.last()) {
        keep_tokens(pieces.drop_last()).push(pieces.last())
    } else {
        keep_tokens(pieces.drop_last())
    }
}

/// The tokens of a text.
pub open spec fn tokens_of(text: Seq<char>) -> Seq<Seq<char>> {
    keep_tokens(split_on_space(text))
}

/// Whether a space stands at place `i`. Text that is known to be ASCII is
/// read by its bytes, in constant time.
fn is_space_at(text: &str, ascii: bool, i: usize) -> (space: bool)
    requires
        i < text@.len(),
        ascii ==> text.is_ascii(),
    ensures
        space == (text@[i as int] == ' '),
{
    if ascii {
        text.get_ascii(i) == 32u8
    } else {
        text.get_char(i) == ' '
    }
}

/// The part of the text from place `from` up to place `to`. On text that is
/// known to be ASCII this takes constant time.
fn piece_of<'a>(text: &'a str, ascii: bool, from: usize, to: usize) -> (piece: &'a str)
    requires
        from <= to <= text@.len(),
        ascii ==> text.is_ascii(),
    ensures
        piece@ == text@.subrange(from as int, to as int),
{
    if ascii {
        text.substring_ascii(from, to)
    } else {
        text.substring_char(from, to)
    }
}

/// Appends `piece` to `words` if it is a token.
fn keep_piece(words: &mut Vec<String>, piece: &str, stops: &Vec<String>)
    requires
        doc_view(stops@) == stop_words(),
    ensures
        doc_view(final(words)@) == if is_token(piece@) {
            doc_view(old(words)@).push(piece@)
        } else {
            doc_view(old(words)@)
        },
{
    let ghost before = doc_view(words@);
    if piece.unicode_len() > 0 && !contains_word(stops.as_slice(), piece) {
        words.push(String::from_str(piece));
        assert(doc_view(words@) =~= before.push(piece@));
    }
}

/// Splits a text at its spaces and keeps the pieces that are tokens. A text
/// without any token is an error.
pub fn tokenise(text: &str) -> (result: Result<Vec<String>, String>)
    ensures
        match result {
            Ok(words) => tokens_of(text@).len() > 0 && doc_view(words@) == tokens_of(text@),
            Err(message) => tokens_of(text@).len() == 0 && message@ == "No words found."@,
        },
{
    let stops = stop_word_list();
    let ascii = text.is_ascii();
    let n = text.unicode_len();
    let mut words: Vec<String> = Vec::new();
    let mut start: usize = 0;
    let mut i: usize = 0;
    let ghost mut done: Seq<Seq<char>> = Seq::empty();
    proof {
        assert(text@.take(0) =~= Seq::<char>::empty());
        assert(split_on_space(text@.take(0)) =~= done.push(text@.subrange(0, 0)));
        assert(doc_view(words@) =~= keep_tokens(done));
    }
    while i < n
        invariant
            start <= i <= n,
            n == text@.len(),
            ascii ==> text.is_ascii(),
            doc_view(stops@) == stop_words(),
            split_on_space(text@.take(i as int)) == done.push(
                text@.subrange(start as int, i as int),
            ),
            doc_view(words@) == keep_tokens(done),
        decreases n - i,
    {
        let ghost piece = text@.subrange(start as int, i as int);
        proof {
            assert(text@.take(i + 1).drop_last() =~= text@.take(i as int));
            assert(done.push(piece).drop_last() =~= done);
        }
        if is_space_at(text, ascii, i) {
            keep_piece(&mut words, piece_of(text, ascii, start, i), &stops);
            proof {
                done = done.push(piece);
                assert(text@.subrange(i + 1, i + 1) =~= Seq::<char>::empty());
            }
            start = i + 1;
        } else {
            assert(piece.push(text@[i as int]) =~= text@.subrange(start as int, i + 1));
        }
        i += 1;
    }
    let ghost piece = text@.subrange(start as int, n as int);
    proof {
        assert(text@.take(n as int) =~= text@);
        assert(done.push(piece).drop_last() =~= done);
    }
    keep_piece(&mut words, piece_of(text, ascii, start, n), &stops);
    if words.len() == 0 {
        Err(String::from_str("No words found."))
    } else {
        Ok(words)
    }
}

/// What `Regex::replace_all` of the regex crate makes of `text` when every
/// match of `pattern` is replaced by `with`; `None` where `Regex::new`
/// refuses the pattern.
pub uninterp spec fn regex_replace_all(pattern: Seq<char>, text: Seq<char>, with: Seq<char>) -> Option<Seq<char>>;

/// What `str::to_lowercase` makes of `text`.
pub uninterp spec fn lowercase_of(text: Seq<char>) -> Seq<char>;

/// Calls `regex::Regex::new` on `pattern` and, on the compiled expression,
/// `Regex::replace_all` with `text` and `with`. Trusted: the result is the
/// named function of the three texts, and `None` stands for a pattern that
/// does not compile.
#[verifier::external_body]
fn replace_all(pattern: &str, text: &str, with: &str) -> (replaced: Option<String>)
    ensures
        replaced is Some <==> regex_replace_all(pattern@, text@, with@) is Some,
        replaced is Some ==> regex_replace_all(pattern@, text@, with@) == Some(replaced->0@),
{
    match regex::Regex::new(pattern) {
        Ok(expression) => Some(expression.replace_all(text, with).into_owned()),
        Err(_) => None,
    }
}

/// Calls `str::to_lowercase`. Trusted: the result is the named function of
/// the text.
#[verifier::external_body]
fn lowercase(text: &str) -> (lowered: String)
    ensures
        lowered@ == lowercase_of(text@),
{
    text.to_lowercase()
}

/// `text` with every match of `pattern` turned into one space; unchanged
/// where the pattern does not compile.
pub open spec fn without_pattern(pattern: Seq<char>, text: Seq<char>) -> Seq<char> {
    match regex_replace_all(pattern, text, " "@) {
        Some(replaced) => replaced,
        None => text,
    }
}

/// The outcome of one replacement: the replaced text, or `text` itself where
/// there is none.
pub fn replaced_or_same(replaced: Option<String>, text: String) -> (output: String)
    ensures
        output@ == match replaced {
            Some(r) => r@,
            None => text@,
        },
{
    match replaced {
        Some(r) => r,
        None => text,
    }
}

/// Turns every match of `pattern` in `text` into one space.
pub fn strip_pattern(pattern: &str, text: String) -> (output: String)
    ensures
        output@ == without_pattern(pattern@, text@),
{
    let replaced = replace_all(pattern, text.as_str(), " ");
    replaced_or_same(replaced, text)
}

/// A text in lower case, after each kind of markup has in turn been turned
/// into a space.
pub open spec fn cleaned(text: Seq<char>) -> Seq<char> {
    // everything but letters and spaces
    let step1 = without_pattern("[^a-zA-Z ]"@, lowercase_of(text));
    // runs of spaces
    let step2 = without_pattern(" +"@, step1);
    // math fields
    let step3 = without_pattern(r"\$.*\$"@, step2);
    // web links
    let step4 = without_pattern(r"https?://(www\.)?[-a-zA-Z0-9@:%._\+~#=]{1,256}\.[a-zA-Z0-9()]{1,6}\b([-a-zA-Z0-9()@:%_\+.~#?&//=]*)"@, step3);
    // bare addresses and identifiers with a dot
    let step5 = without_pattern(r"[-a-zA-Z0-9@:%._\+~#=]{1,256}\.[a-zA-Z0-9()]{1,6}\b([-a-zA-Z0-9()@:%_\+.~#?&//=]*)"@, step4);
    // fenced code blocks
    let step6 = without_pattern(r"```[a-z]*\n[\s\S]*?\n```"@, step5);
    // front-matter blocks
    let step7 = without_pattern(r"---[a-z]*\n[\s\S]*?\n---"@, step6);
    step7
}

/// Lower-cases a text and blanks out what is not prose: non-letters, runs of
/// spaces, math fields, links, code and front-matter blocks.
pub fn clean_up_text(text: &str) -> (output: String)
    ensures
        output@ == cleaned(text@),
{
    let mut output = lowercase(text);
    output = strip_pattern("[^a-zA-Z ]", output);
    output = strip_pattern(" +", output);
    output = strip_pattern(r"\$.*\$", output);
    output = strip_pattern(r"https?://(www\.)?[-a-zA-Z0-9@:%._\+~#=]{1,256}\.[a-zA-Z0-9()]{1,6}\b([-a-zA-Z0-9()@:%_\+.~#?&//=]*)", output);
    output = strip_pattern(r"[-a-zA-Z0-9@:%._\+~#=]{1,256}\.[a-zA-Z0-9()]{1,6}\b([-a-zA-Z0-9()@:%_\+.~#?&//=]*)", output);
    output = strip_pattern(r"```[a-z]*\n[\s\S]*?\n```", output);
    output = strip_pattern(r"---[a-z]*\n[\s\S]*?\n---", output);
    output
}

/// Whether the corpus is small enough for its tokens to be counted: it
/// holds at most `i32::MAX` tokens.
pub fn fits_counters(corpus: &[Vec<String>]) -> (fits: bool)
    ensures
        fits == (corpus_tokens(corpus_view(corpus@)).len() <= i32::MAX),
{
    let ghost cv = corpus_view(corpus@);
    let limit: usize = 2147483647;
    let mut total: usize = 0;
    let mut i: usize = 0;
    while i < corpus.len()
        invariant
            i <= corpus.len(),
            cv == corpus_view(corpus@),
            limit == i32::MAX,
            total <= limit,
            total == corpus_tokens(cv.take(i as int)).len(),
        decreases corpus.len() - i,
    {
        proof {
            lemma_corpus_tokens_prefix(cv, i as int);
            lemma_corpus_tokens_prefix(cv, i + 1);
        }
        let size = corpus[i].len();
        if size > limit - total {
            return false;
        }
        total = total + size;
        i += 1;
    }
    assert(cv.take(i as int) =~= cv);
    true
}

/// Builds the vocabulary of a corpus: every distinct token, in the order of
/// first occurrence, with the number of its occurrences in the whole corpus.
pub fn get_all_words(corpus: &[Vec<String>]) -> (all_words: Vocabulary)
    requires
        corpus_tokens(corpus_view(corpus@)).len() <= i32::MAX,
    ensures
        all_words.is_vocabulary_of(corpus_tokens(corpus_view(corpus@))),
{
    let mut all_words = Vocabulary::new();
    let ghost cv = corpus_view(corpus@);
    let ghost mut seen: Seq<Seq<char>> = Seq::empty();
    let mut i: usize = 0;
    assert(all_words.terms_view() =~= distinct_terms(seen));
    while i < corpus.len()
        invariant
            i <= corpus.len(),
            cv == corpus_view(corpus@),
            corpus_tokens(cv).len() <= i32::MAX,
            seen == corpus_tokens(cv.take(i as int)),
            all_words.is_vocabulary_of(seen),
        decreases corpus.len() - i,
    {
        let doc = &corpus[i];
        let ghost at_start = seen;
        let mut k: usize = 0;
        proof {
            lemma_corpus_tokens_prefix(cv, i as int);
            lemma_corpus_tokens_prefix(cv, i + 1);
            assert(cv[i as int].take(0) =~= Seq::<Seq<char>>::empty());
            assert(seen =~= at_start + cv[i as int].take(0));
        }
        while k < doc.len()
            invariant
                k <= doc.len(),
                i < corpus.len(),
                cv == corpus_view(corpus@),
                doc_view(doc@) == cv[i as int],
                at_start.len() + doc.len() <= i32::MAX,
                seen == at_start + cv[i as int].take(k as int),
                all_words.is_vocabulary_of(seen),
            decreases doc.len() - k,
        {
            let word = &doc[k];
            let ghost before = all_words;
            let ghost longer = seen.push(word@);
            proof {
                assert(longer.drop_last() =~= seen);
                assert(longer =~= at_start + cv[i as int].take(k + 1));
                assert forall|t: Seq<char>| count_in(longer, t) == count_in(seen, t) + if word@
                    == t {
                    1nat
                } else {
                    0nat
                } by {}
            }
            match all_words.position(word) {
                Some(j) => {
                    proof {
                        lemma_count_in_bounded(seen, word@);
                        assert(before.terms_view().contains(word@));
                    }
                    let count = all_words.counts[j];
                    all_words.counts[j] = count + 1;
                    assert(all_words.terms_view() == before.terms_view());
                },
                None => {
                    proof {
                        lemma_count_in_positive(seen, word@);
                        lemma_distinct_terms(seen, word@);
                    }
                    all_words.terms.push(word.clone());
                    all_words.counts.push(1);
                    assert(all_words.terms_view() =~= before.terms_view().push(word@));
                },
            }
            proof {
                seen = longer;
            }
            k += 1;
        }
        proof {
            assert(cv[i as int].take(k as int) =~= cv[i as int]);
        }
        i += 1;
    }
    proof {
        assert(cv.take(i as int) =~= cv);
    }
    all_words
}

} // verus!
