//! The vocabulary: every distinct term of a corpus with its number of
//! occurrences, in one fixed order that all later structures share.

use vstd::prelude::*;

verus! {

/// A document as the sequence of its tokens' texts.
pub open spec fn doc_view(doc: Seq<String>) -> Seq<Seq<char>> {
    Seq::new(doc.len(), |k: int| doc[k]@)
}

/// A corpus as the sequence of its documents.
pub open spec fn corpus_view(corpus: Seq<Vec<String>>) -> Seq<Seq<Seq<char>>> {
    Seq::new(corpus.len(), |i: int| doc_view(corpus[i]@))
}

/// How often `term` occurs among `tokens`.
pub open spec fn count_in(tokens: Seq<Seq<char>>, term: Seq<char>) -> nat
    decreases tokens.len(),
{
    if tokens.len() == 0 {
        0
    } else {
        count_in(tokens.drop_last(), term) + if tokens.last() == term {
            1nat
        } else {
            0nat
        }
    }
}

/// All tokens of a corpus, document after document.
pub open spec fn corpus_tokens(corpus: Seq<Seq<Seq<char>>>) -> Seq<Seq<char>>
    decreases corpus.len(),
{
    if corpus.len() == 0 {
        Seq::empty()
    } else {
        corpus_tokens(corpus.drop_last()) + corpus.last()
    }
}

/// The distinct tokens, each at the place of its first occurrence.
pub open spec fn distinct_terms(tokens: Seq<Seq<char>>) -> Seq<Seq<char>>
    decreases tokens.len(),
{
    if tokens.len() == 0 {
        Seq::empty()
    } else {
        let earlier = distinct_terms(tokens.drop_last());
        if earlier.contains(tokens.last()) {
            earlier
        } else {
            earlier.push(tokens.last())
        }
    }
}

/// A term occurs at most as often as there are tokens.
pub proof fn lemma_count_in_bounded(tokens: Seq<Seq<char>>, term: Seq<char>)
    ensures
        count_in(tokens, term) <= tokens.len(),
    decreases tokens.len(),
{
    if tokens.len() > 0 {
        lemma_count_in_bounded(tokens.drop_last(), term);
    }
}

/// A term occurs among the tokens exactly when its count is positive.
pub proof fn lemma_count_in_positive(tokens: Seq<Seq<char>>, term: Seq<char>)
    ensures
        count_in(tokens, term) > 0 <==> tokens.contains(term),
    decreases tokens.len(),
{
    if tokens.len() > 0 {
        let earlier = tokens.drop_last();
        lemma_count_in_positive(earlier, term);
        if tokens.last() == term {
            assert(tokens[tokens.len() - 1] == term);
        } else if earlier.contains(term) {
            let k = choose|k: int| 0 <= k < earlier.len() && earlier[k] == term;
            assert(tokens[k] == term);
        } else if tokens.contains(term) {
            let k = choose|k: int| 0 <= k < tokens.len() && tokens[k] == term;
            assert(earlier[k] == term);
        }
    }
}

/// The distinct terms are the tokens, no more and no fewer, and none twice.
pub proof fn lemma_distinct_terms(tokens: Seq<Seq<char>>, t: Seq<char>)
    ensures
        distinct_terms(tokens).contains(t) <==> tokens.contains(t),
        distinct_terms(tokens).no_duplicates(),
    decreases tokens.len(),
{
    if tokens.len() > 0 {
        let earlier = tokens.drop_last();
        let terms = distinct_terms(earlier);
        let all = distinct_terms(tokens);
        lemma_distinct_terms(earlier, t);
        lemma_distinct_terms(earlier, tokens.last());
        if tokens.contains(t) {
            let k = choose|k: int| 0 <= k < tokens.len() && tokens[k] == t;
            if k < earlier.len() {
                assert(earlier[k] == t);
                assert(earlier.contains(t));
                let j = choose|j: int| 0 <= j < terms.len() && terms[j] == t;
                assert(all[j] == t);
            } else if !terms.contains(t) {
                assert(all[terms.len() as int] == t);
            } else {
                assert(all.contains(t));
            }
        }
        if all.contains(t) {
            let j = choose|j: int| 0 <= j < all.len() && all[j] == t;
            if j < terms.len() {
                assert(terms[j] == t);
                assert(terms.contains(t));
                let k = choose|k: int| 0 <= k < earlier.len() && earlier[k] == t;
                assert(tokens[k] == t);
            } else {
                assert(tokens[tokens.len() - 1] == t);
            }
        }
    }
}

/// The tokens of the first `i` documents, and of one more, are among the
/// tokens of the corpus.
pub proof fn lemma_corpus_tokens_prefix(corpus: Seq<Seq<Seq<char>>>, i: int)
    requires
        0 <= i <= corpus.len(),
    ensures
        corpus_tokens(corpus.take(i)).len() <= corpus_tokens(corpus).len(),
        i < corpus.len() ==> corpus_tokens(corpus.take(i + 1)) == corpus_tokens(corpus.take(i))
            + corpus[i],
    decreases corpus.len(),
{
    if i < corpus.len() {
        assert(corpus.take(i + 1).drop_last() =~= corpus.take(i));
        assert(corpus.drop_last().take(i) =~= corpus.take(i));
        lemma_corpus_tokens_prefix(corpus.drop_last(), i);
    } else {
        assert(corpus.take(i) =~= corpus);
    }
}

/// Every token of every document is among the tokens of the corpus.
pub proof fn lemma_corpus_tokens_contains(corpus: Seq<Seq<Seq<char>>>, i: int, k: int)
    requires
        0 <= i < corpus.len(),
        0 <= k < corpus[i].len(),
    ensures
        corpus_tokens(corpus).contains(corpus[i][k]),
    decreases corpus.len(),
{
    let earlier = corpus_tokens(corpus.drop_last());
    if i == corpus.len() - 1 {
        assert(corpus_tokens(corpus)[earlier.len() + k] == corpus[i][k]);
    } else {
        lemma_corpus_tokens_contains(corpus.drop_last(), i, k);
        let at = choose|at: int| 0 <= at < earlier.len() && earlier[at] == corpus[i][k];
        assert(corpus_tokens(corpus)[at] == corpus[i][k]);
    }
}

/// The terms of a corpus in a fixed order, each with its occurrence count.
/// Column `j` of every structure built from a vocabulary belongs to
/// `terms[j]`.
pub struct Vocabulary {
    pub terms: Vec<String>,
    pub counts: Vec<i32>,
}

impl Vocabulary {
    /// The terms as texts, in column order.
    pub open spec fn terms_view(&self) -> Seq<Seq<char>> {
        doc_view(self.terms@)
    }

    /// Every term has a count, and no term stands twice.
    pub open spec fn wf(&self) -> bool {
        &&& self.terms@.len() == self.counts@.len()
        &&& self.terms_view().no_duplicates()
    }

    /// This is the vocabulary of `tokens`: the distinct tokens in the order
    /// of their first occurrence, each with the number of its occurrences.
    pub open spec fn is_vocabulary_of(&self, tokens: Seq<Seq<char>>) -> bool {
        &&& self.wf()
        &&& self.terms_view() == distinct_terms(tokens)
        &&& forall|j: int|
            0 <= j < self.counts@.len() ==> #[trigger] self.counts@[j] == count_in(
                tokens,
                self.terms_view()[j],
            )
    }

    /// In the vocabulary of some tokens every term has been counted at
    /// least once.
    pub proof fn lemma_counts_positive(&self, tokens: Seq<Seq<char>>, j: int)
        requires
            self.is_vocabulary_of(tokens),
            0 <= j < self.counts@.len(),
        ensures
            self.counts@[j] >= 1,
    {
        let term = self.terms_view()[j];
        assert(distinct_terms(tokens).contains(term));
        lemma_distinct_terms(tokens, term);
        lemma_count_in_positive(tokens, term);
    }

    /// The vocabulary without any term.
    pub fn new() -> (vocab: Vocabulary)
        ensures
            vocab.wf(),
            vocab.terms@.len() == 0,
    {
        Vocabulary { terms: Vec::new(), counts: Vec::new() }
    }

    /// The number of terms, which is the number of columns.
    pub fn len(&self) -> (n: usize)
        ensures
            n == self.terms@.len(),
    {
        self.terms.len()
    }

    /// The column of `word`, if it is a term.
    pub fn position(&self, word: &String) -> (found: Option<usize>)
        ensures
            match found {
                Some(j) => j < self.terms@.len() && self.terms_view()[j as int] == word@
                    && forall|k: int| 0 <= k < j ==> self.terms_view()[k] != word@,
                None => !self.terms_view().contains(word@),
            },
    {
        let mut j: usize = 0;
        while j < self.terms.len()
            invariant
                j <= self.terms@.len(),
                forall|k: int| 0 <= k < j ==> self.terms_view()[k] != word@,
            decreases self.terms@.len() - j,
        {
            if self.terms[j] == *word {
                return Some(j);
            }
            j += 1;
        }
        None
    }

    /// The stored count of `word`, if it is a term.
    pub fn get(&self, word: &String) -> (count: Option<i32>)
        requires
            self.wf(),
        ensures
            match count {
                Some(c) => exists|j: int|
                    0 <= j < self.terms@.len() && self.terms_view()[j] == word@
                        && self.counts@[j] == c,
                None => !self.terms_view().contains(word@),
            },
    {
        match self.position(word) {
            Some(j) => Some(self.counts[j]),
            None => None,
        }
    }

    /// Stores `count` for `word`: in its column if it is a term already,
    /// else in a new last column.
    pub fn insert(&mut self, word: String, count: i32)
        requires
            old(self).wf(),
        ensures
            final(self).wf(),
            old(self).terms_view().contains(word@) ==> {
                &&& final(self).terms_view() == old(self).terms_view()
                &&& exists|j: int|
                    0 <= j < old(self).counts@.len() && old(self).terms_view()[j] == word@
                        && final(self).counts@ == old(self).counts@.update(j, count)
            },
            !old(self).terms_view().contains(word@) ==> {
                &&& final(self).terms_view() == old(self).terms_view().push(word@)
                &&& final(self).counts@ == old(self).counts@.push(count)
            },
    {
        match self.position(&word) {
            Some(j) => {
                self.counts[j] = count;
                assert(self.terms_view()[j as int] == word@);
            },
            None => {
                let ghost before = self.terms_view();
                self.terms.push(word);
                self.counts.push(count);
                assert(self.terms_view() =~= before.push(word@));
            },
        }
    }
}

} // verus!
