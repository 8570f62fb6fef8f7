//! The index: what is built once from a corpus and read by every query.

use vstd::prelude::*;
use crate::calculations::{idf_calculation, is_tf_matrix, tf_calculation, IdfRatio};
use crate::text_process::{fits_counters, get_all_words};
use crate::vocabulary::{corpus_tokens, corpus_view, Vocabulary};

verus! {

/// The vocabulary of a corpus, its term frequencies and the integer terms of
/// its inverse document frequencies, all over the same columns.
pub struct Model {
    pub tf: Vec<Vec<usize>>,
    pub idf: Vec<IdfRatio>,
    pub words: Vocabulary,
}

impl Model {
    /// This is the index of `corpus`.
    pub open spec fn is_model_of(&self, corpus: Seq<Seq<Seq<char>>>) -> bool {
        &&& self.words.is_vocabulary_of(corpus_tokens(corpus))
        &&& is_tf_matrix(self.tf@, corpus, self.words.terms_view())
        &&& self.idf@.len() == self.words.counts@.len()
        &&& forall|j: int|
            0 <= j < self.idf@.len() ==> (#[trigger] self.idf@[j]).documents == corpus.len()
                && self.idf@[j].occurrences_plus_one == self.words.counts@[j] + 1
    }

    /// Every ratio of the index of a corpus is a positive number: under it
    /// stands at least two, and above it the number of documents, which is
    /// at least one.
    pub proof fn lemma_ratios_defined(&self, corpus: Seq<Seq<Seq<char>>>, j: int)
        requires
            self.is_model_of(corpus),
            0 <= j < self.idf@.len(),
        ensures
            self.idf@[j].occurrences_plus_one >= 2,
            self.idf@[j].documents == corpus.len(),
            self.idf@[j].documents >= 1,
    {
        self.words.lemma_counts_positive(corpus_tokens(corpus), j);
        assert(self.words.terms_view().len() > 0);
    }

    /// Builds the index of a corpus.
    pub fn new(corpus: &[Vec<String>]) -> (model: Model)
        requires
            corpus_tokens(corpus_view(corpus@)).len() <= i32::MAX,
        ensures
            model.is_model_of(corpus_view(corpus@)),
    {
        let all_words = get_all_words(corpus);
        let tf_vals = tf_calculation(corpus, &all_words);
        let idf_vals = idf_calculation(corpus.len(), &all_words);
        Model { tf: tf_vals, idf: idf_vals, words: all_words }
    }

    /// Builds the index of a corpus, unless the corpus holds more tokens
    /// than can be counted.
    pub fn try_new(corpus: &[Vec<String>]) -> (built: Option<Model>)
        ensures
            built is Some <==> corpus_tokens(corpus_view(corpus@)).len() <= i32::MAX,
            built is Some ==> built->0.is_model_of(corpus_view(corpus@)),
    {
        if fits_counters(corpus) {
            Some(Model::new(corpus))
        } else {
            None
        }
    }
}

} // verus!
