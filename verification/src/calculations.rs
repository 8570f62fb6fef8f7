//! Term frequencies, the integer terms of the inverse document frequencies,
//! and the ranking of documents by score.

use vstd::prelude::*;
use crate::vocabulary::{corpus_tokens, corpus_view, count_in, distinct_terms, doc_view};
use crate::vocabulary::{lemma_corpus_tokens_contains, lemma_count_in_positive, lemma_distinct_terms};
use crate::vocabulary::Vocabulary;

verus! {

/// Counts the occurrences of `word` in `doc`, by exact match.
pub fn count_occurrences(doc: &[String], word: &String) -> (count: usize)
    ensures
        count == count_in(doc_view(doc@), word@),
{
    let ghost tokens = doc_view(doc@);
    let mut count: usize = 0;
    let mut k: usize = 0;
    while k < doc.len()
        invariant
            k <= doc.len(),
            tokens == doc_view(doc@),
            count <= k,
            count == count_in(tokens.take(k as int), word@),
        decreases doc.len() - k,
    {
        assert(tokens.take(k + 1).drop_last() =~= tokens.take(k as int));
        if doc[k] == *word {
            count += 1;
        }
        k += 1;
    }
    assert(tokens.take(k as int) =~= tokens);
    count
}

/// `tf` is the term-frequency matrix of `corpus` over the columns `terms`:
/// one row per document, one column per term, each cell the raw number of
/// occurrences of the column's term in the row's document.
pub open spec fn is_tf_matrix(
    tf: Seq<Vec<usize>>,
    corpus: Seq<Seq<Seq<char>>>,
    terms: Seq<Seq<char>>,
) -> bool {
    &&& tf.len() == corpus.len()
    &&& forall|i: int| 0 <= i < tf.len() ==> (#[trigger] tf[i])@.len() == terms.len()
    &&& forall|i: int, j: int|
        0 <= i < tf.len() && 0 <= j < terms.len() ==> (#[trigger] tf[i]@[j]) == count_in(
            corpus[i],
            terms[j],
        )
}

/// Builds the term-frequency matrix: for each document and each term of the
/// vocabulary, in the vocabulary's order, the raw count of the term in the
/// document.
pub fn tf_calculation(corpus: &[Vec<String>], all_words: &Vocabulary) -> (tf_vals: Vec<Vec<usize>>)
    ensures
        is_tf_matrix(tf_vals@, corpus_view(corpus@), all_words.terms_view()),
{
    let ghost cv = corpus_view(corpus@);
    let ghost terms = all_words.terms_view();
    let mut tf_vals: Vec<Vec<usize>> = Vec::new();
    let mut i: usize = 0;
    while i < corpus.len()
        invariant
            i <= corpus.len(),
            cv == corpus_view(corpus@),
            terms == all_words.terms_view(),
            is_tf_matrix(tf_vals@, cv.take(i as int), terms),
        decreases corpus.len() - i,
    {
        let mut row: Vec<usize> = Vec::new();
        let mut j: usize = 0;
        while j < all_words.terms.len()
            invariant
                j <= all_words.terms@.len(),
                i < corpus.len(),
                cv == corpus_view(corpus@),
                terms == all_words.terms_view(),
                row@.len() == j,
                forall|c: int| 0 <= c < j ==> #[trigger] row@[c] == count_in(cv[i as int], terms[c]),
            decreases all_words.terms@.len() - j,
        {
            let count = count_occurrences(corpus[i].as_slice(), &all_words.terms[j]);
            row.push(count);
            j += 1;
        }
        tf_vals.push(row);
        i += 1;
    }
    assert(cv.take(i as int) =~= cv);
    tf_vals
}

/// The sum of a row of counts.
pub open spec fn row_sum(row: Seq<usize>) -> int
    decreases row.len(),
{
    if row.len() == 0 {
        0
    } else {
        row_sum(row.drop_last()) + row.last()
    }
}

/// How many tokens of `doc` are terms, counted term by term.
pub open spec fn known_tokens(doc: Seq<Seq<char>>, terms: Seq<Seq<char>>) -> nat
    decreases terms.len(),
{
    if terms.len() == 0 {
        0
    } else {
        known_tokens(doc, terms.drop_last()) + count_in(doc, terms.last())
    }
}

/// A term that stands once in a list is counted once there.
pub proof fn lemma_count_of_distinct_term(terms: Seq<Seq<char>>, word: Seq<char>)
    requires
        terms.no_duplicates(),
        terms.contains(word),
    ensures
        count_in(terms, word) == 1,
    decreases terms.len(),
{
    let earlier = terms.drop_last();
    lemma_count_in_positive(earlier, word);
    if terms.last() == word {
        if earlier.contains(word) {
            let k = choose|k: int| 0 <= k < earlier.len() && earlier[k] == word;
            assert(terms[k] == terms[terms.len() - 1]);
        }
    } else {
        let k = choose|k: int| 0 <= k < terms.len() && terms[k] == word;
        assert(earlier[k] == word);
        lemma_count_of_distinct_term(earlier, word);
    }
}

/// One more token in the document adds to the known tokens as often as the
/// token stands among the terms.
pub proof fn lemma_known_tokens_step(doc: Seq<Seq<char>>, terms: Seq<Seq<char>>)
    ensures
        doc.len() == 0 ==> known_tokens(doc, terms) == 0,
        doc.len() > 0 ==> known_tokens(doc, terms) == known_tokens(doc.drop_last(), terms)
            + count_in(terms, doc.last()),
    decreases terms.len(),
{
    if terms.len() > 0 {
        lemma_known_tokens_step(doc, terms.drop_last());
    }
}

/// Where every token of a document is a term, and no term stands twice, the
/// known tokens are all its tokens.
pub proof fn lemma_known_tokens_all(doc: Seq<Seq<char>>, terms: Seq<Seq<char>>)
    requires
        terms.no_duplicates(),
        forall|k: int| 0 <= k < doc.len() ==> terms.contains(#[trigger] doc[k]),
    ensures
        known_tokens(doc, terms) == doc.len(),
    decreases doc.len(),
{
    lemma_known_tokens_step(doc, terms);
    if doc.len() > 0 {
        assert(terms.contains(doc[doc.len() - 1]));
        lemma_count_of_distinct_term(terms, doc.last());
        assert forall|k: int| 0 <= k < doc.drop_last().len() implies terms.contains(
            #[trigger] doc.drop_last()[k],
        ) by {
            assert(doc.drop_last()[k] == doc[k]);
        }
        lemma_known_tokens_all(doc.drop_last(), terms);
    }
}

/// A row of counts of the terms in a document sums up to the known tokens.
pub proof fn lemma_row_sum_counts(row: Seq<usize>, doc: Seq<Seq<char>>, terms: Seq<Seq<char>>)
    requires
        row.len() == terms.len(),
        forall|j: int| 0 <= j < row.len() ==> #[trigger] row[j] == count_in(doc, terms[j]),
    ensures
        row_sum(row) == known_tokens(doc, terms),
    decreases row.len(),
{
    if row.len() > 0 {
        assert forall|j: int| 0 <= j < row.drop_last().len() implies #[trigger] row.drop_last()[j]
            == count_in(doc, terms.drop_last()[j]) by {
            assert(row.drop_last()[j] == row[j]);
        }
        lemma_row_sum_counts(row.drop_last(), doc, terms.drop_last());
    }
}

/// In the term-frequency matrix of a corpus over the corpus's own
/// vocabulary, each row sums up to the number of tokens of its document.
pub proof fn lemma_tf_row_sums(corpus: Seq<Seq<Seq<char>>>, tf: Seq<Vec<usize>>, i: int)
    requires
        0 <= i < corpus.len(),
        is_tf_matrix(tf, corpus, distinct_terms(corpus_tokens(corpus))),
    ensures
        row_sum(tf[i]@) == corpus[i].len(),
{
    let terms = distinct_terms(corpus_tokens(corpus));
    let doc = corpus[i];
    assert forall|k: int| 0 <= k < doc.len() implies terms.contains(#[trigger] doc[k]) by {
        lemma_corpus_tokens_contains(corpus, i, k);
        lemma_distinct_terms(corpus_tokens(corpus), doc[k]);
    }
    lemma_distinct_terms(corpus_tokens(corpus), Seq::empty());
    lemma_known_tokens_all(doc, terms);
    assert forall|j: int| 0 <= j < tf[i]@.len() implies #[trigger] tf[i]@[j] == count_in(
        doc,
        terms[j],
    ) by {}
    lemma_row_sum_counts(tf[i]@, doc, terms);
}

/// The two integers of which a term's inverse document frequency is made:
/// the weight is the natural logarithm of `documents / occurrences_plus_one`.
#[derive(Clone, Copy, Debug, PartialEq, Eq)]
pub struct IdfRatio {
    pub documents: usize,
    pub occurrences_plus_one: i64,
}

/// For each term of the vocabulary, in its order, the number of documents
/// and one more than the term's stored occurrence count.
pub fn idf_calculation(documents: usize, all_words: &Vocabulary) -> (ratios: Vec<IdfRatio>)
    ensures
        ratios@.len() == all_words.counts@.len(),
        forall|j: int|
            0 <= j < ratios@.len() ==> (#[trigger] ratios@[j]).documents == documents
                && ratios@[j].occurrences_plus_one == all_words.counts@[j] + 1,
{
    let mut ratios: Vec<IdfRatio> = Vec::new();
    let mut j: usize = 0;
    while j < all_words.counts.len()
        invariant
            j <= all_words.counts@.len(),
            ratios@.len() == j,
            forall|c: int|
                0 <= c < j ==> (#[trigger] ratios@[c]).documents == documents
                    && ratios@[c].occurrences_plus_one == all_words.counts@[c] + 1,
        decreases all_words.counts@.len() - j,
    {
        let count: i64 = all_words.counts[j] as i64;
        ratios.push(IdfRatio { documents, occurrences_plus_one: count + 1 });
        j += 1;
    }
    ratios
}

/// Document `a` is placed before document `b`: the higher score comes first,
/// and of two equal scores the document that was loaded first.
pub open spec fn ranks_before(scores: Seq<i64>, a: int, b: int) -> bool {
    scores[a] > scores[b] || (scores[a] == scores[b] && a < b)
}

/// `ranked` lists exactly the documents below `n` whose score is strictly
/// positive, each once, in the order of `ranks_before`.
pub open spec fn is_ranking_of_first(scores: Seq<i64>, n: int, ranked: Seq<usize>) -> bool {
    &&& forall|k: int|
        0 <= k < ranked.len() ==> (#[trigger] ranked[k]) < n && scores[ranked[k] as int] > 0
    &&& forall|k: int, l: int|
        0 <= k < l < ranked.len() ==> ranks_before(
            scores,
            #[trigger] ranked[k] as int,
            #[trigger] ranked[l] as int,
        )
    &&& forall|i: int|
        0 <= i < n && #[trigger] scores[i] > 0 ==> exists|k: int|
            0 <= k < ranked.len() && #[trigger] ranked[k] == i
}

/// `ranked` is the ranking of all documents that `scores` speaks of.
pub open spec fn is_ranking(scores: Seq<i64>, ranked: Seq<usize>) -> bool {
    is_ranking_of_first(scores, scores.len() as int, ranked)
}

/// Two rankings of the same scores hold the same document at every place
/// that both have.
pub proof fn lemma_rankings_agree(scores: Seq<i64>, first: Seq<usize>, second: Seq<usize>, k: int)
    requires
        is_ranking(scores, first),
        is_ranking(scores, second),
        0 <= k < first.len(),
        k < second.len(),
    ensures
        first[k] == second[k],
    decreases k,
{
    assert forall|m: int| 0 <= m < k implies first[m] == second[m] by {
        lemma_rankings_agree(scores, first, second, m);
    }
    let x = first[k] as int;
    let y = second[k] as int;
    assert(scores[x] > 0);
    assert(scores[y] > 0);
    let m = choose|m: int| 0 <= m < second.len() && second[m] == x;
    let n = choose|n: int| 0 <= n < first.len() && first[n] == y;
    if m < k {
        assert(ranks_before(scores, first[m] as int, first[k] as int));
    } else if m > k {
        assert(ranks_before(scores, second[k] as int, second[m] as int));
        if n < k {
            assert(ranks_before(scores, second[n] as int, second[k] as int));
        } else if n > k {
            assert(ranks_before(scores, first[k] as int, first[n] as int));
        }
    }
}

/// The scores determine the ranking: any two rankings of the same scores are
/// equal. So equal scores never change places from one query to the next.
pub proof fn lemma_ranking_unique(scores: Seq<i64>, first: Seq<usize>, second: Seq<usize>)
    requires
        is_ranking(scores, first),
        is_ranking(scores, second),
    ensures
        first == second,
{
    if first.len() < second.len() {
        let x = second[first.len() as int] as int;
        assert(scores[x] > 0);
        let m = choose|m: int| 0 <= m < first.len() && first[m] == x;
        lemma_rankings_agree(scores, first, second, m);
        assert(ranks_before(scores, second[m] as int, second[first.len() as int] as int));
    } else if second.len() < first.len() {
        let x = first[second.len() as int] as int;
        assert(scores[x] > 0);
        let m = choose|m: int| 0 <= m < second.len() && second[m] == x;
        lemma_rankings_agree(scores, first, second, m);
        assert(ranks_before(scores, first[m] as int, first[second.len() as int] as int));
    } else {
        assert forall|k: int| 0 <= k < first.len() implies first[k] == second[k] by {
            lemma_rankings_agree(scores, first, second, k);
        }
        assert(first =~= second);
    }
}

/// Where no document scores above zero, nothing is ranked.
pub proof fn lemma_no_positive_score_ranks_nothing(scores: Seq<i64>, ranked: Seq<usize>)
    requires
        is_ranking(scores, ranked),
        forall|i: int| 0 <= i < scores.len() ==> scores[i] <= 0,
    ensures
        ranked.len() == 0,
{
    if ranked.len() > 0 {
        assert(scores[ranked[0] as int] > 0);
    }
}

/// The ranking of `scores`. `lemma_ranking_unique` shows that there is only
/// one, and `rank_idx` that there is one.
pub open spec fn ranking_of(scores: Seq<i64>) -> Seq<usize> {
    choose|ranked: Seq<usize>| is_ranking(scores, ranked)
}

/// The length of the first `top_n` entries of a list of `len` entries.
pub open spec fn truncated_len(len: nat, top_n: usize) -> int {
    if len < top_n {
        len as int
    } else {
        top_n as int
    }
}

/// Ranks documents by score: descending, ties in document order, and only
/// documents with a strictly positive score.
pub fn rank_idx(scores: &[i64]) -> (ranked: Vec<usize>)
    ensures
        is_ranking(scores@, ranked@),
        ranked@ == ranking_of(scores@),
{
    let mut ranked: Vec<usize> = Vec::new();
    let mut i: usize = 0;
    while i < scores.len()
        invariant
            i <= scores.len(),
            is_ranking_of_first(scores@, i as int, ranked@),
        decreases scores.len() - i,
    {
        if scores[i] > 0 {
            let mut p: usize = ranked.len();
            while p > 0 && scores[ranked[p - 1]] < scores[i]
                invariant
                    p <= ranked.len(),
                    i < scores.len(),
                    is_ranking_of_first(scores@, i as int, ranked@),
                    forall|k: int|
                        p <= k < ranked.len() ==> scores@[(#[trigger] ranked@[k]) as int]
                            < scores@[i as int],
                decreases p,
            {
                p -= 1;
            }
            let ghost before = ranked@;
            ranked.insert(p, i);
            proof {
                let after = ranked@;
                assert forall|k: int| 0 <= k < p implies scores@[(#[trigger] before[k]) as int]
                    >= scores@[i as int] by {
                    if k < p - 1 {
                        assert(ranks_before(scores@, before[k] as int, before[p - 1] as int));
                    }
                }
                assert forall|k: int, l: int| 0 <= k < l < after.len() implies ranks_before(
                    scores@,
                    #[trigger] after[k] as int,
                    #[trigger] after[l] as int,
                ) by {
                    if k < p && l > p {
                        assert(after[k] == before[k] && after[l] == before[l - 1]);
                    } else if k > p {
                        assert(after[k] == before[k - 1] && after[l] == before[l - 1]);
                    } else if l < p {
                        assert(after[k] == before[k] && after[l] == before[l]);
                    } else if k == p {
                        assert(after[l] == before[l - 1]);
                    } else {
                        assert(after[k] == before[k]);
                    }
                }
                assert forall|j: int| 0 <= j < i + 1 && #[trigger] scores@[j] > 0 implies exists|
                    k: int,
                | 0 <= k < after.len() && #[trigger] after[k] == j by {
                    if j == i {
                        assert(after[p as int] == j);
                    } else {
                        let k0 = choose|k: int| 0 <= k < before.len() && #[trigger] before[k] == j;
                        if k0 < p {
                            assert(after[k0] == j);
                        } else {
                            assert(after[k0 + 1] == j);
                        }
                    }
                }
                assert forall|k: int| 0 <= k < after.len() implies (#[trigger] after[k]) < i + 1
                    && scores@[after[k] as int] > 0 by {
                    if k < p {
                        assert(after[k] == before[k]);
                    } else if k > p {
                        assert(after[k] == before[k - 1]);
                    }
                }
            }
        }
        i += 1;
    }
    proof {
        assert(is_ranking(scores@, ranked@));
        lemma_ranking_unique(scores@, ranked@, ranking_of(scores@));
    }
    ranked
}

/// The best `top_n` documents for a query: the ranking of `scores`, cut off
/// after `top_n` entries.
pub fn score_query(scores: &[i64], top_n: usize) -> (top: Vec<usize>)
    ensures
        top@ == ranking_of(scores@).take(truncated_len(ranking_of(scores@).len(), top_n)),
{
    let mut ranked = rank_idx(scores);
    let ghost full = ranked@;
    if top_n < ranked.len() {
        ranked.truncate(top_n);
    }
    assert(ranked@ =~= full.take(truncated_len(full.len(), top_n)));
    ranked
}

} // verus!
