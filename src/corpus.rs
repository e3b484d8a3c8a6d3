//! The corpus state: documents as sequences of (term id, topic) occurrences,
//! with count tables kept consistent with the assignment, and the Gibbs
//! sweep that resamples every occurrence in turn.
use crate::counts::{
    all_below, corpus_pair_sum, corpus_pair_upto, corpus_topic_sum, corpus_topic_upto,
    lemma_corpus_pair_le_topic, lemma_corpus_pair_sum, lemma_corpus_pair_update, lemma_corpus_push,
    lemma_corpus_topic_bound, lemma_corpus_topic_sum_len, lemma_corpus_topic_update,
    lemma_count_push, lemma_length_same, lemma_length_upto_ge, lemma_length_upto_monotone,
    lemma_pair_count_update, lemma_pair_le_topic, lemma_topic_count_bound, lemma_topic_count_update,
    lemma_topic_sum_len, length_upto, pair_count, topic_count, topic_sum,
};
use crate::sampler::{
    lemma_prefix_monotone, lemma_prefix_zero, lemma_select_interval, prefix_sum, select_spec, select_topic, topic_weight, total_weight, weight_spec, WEIGHT_SCALE,
};
use crate::text::{tokenize, whitespace_tokens};
use crate::random::RandomSource;
use crate::vocab::{encode_tokens, strings_view, Vocabulary};
use vstd::prelude::*;

verus! {

/// Failure to build a corpus.
#[derive(Debug, Clone, Copy, PartialEq, Eq, Structural)]
pub enum CorpusError {
    /// The number of topics is zero.
    InvalidTopicCount,
    /// A given initial assignment does not match the documents' known
    /// occurrences, or names a topic out of range.
    InvalidAssignment,
    /// The number of occurrences does not fit in 64 bits.
    TooManyOccurrences,
}

/// The mathematical state of a corpus: the term id and the topic of every
/// occurrence, per document. The count tables are functions of it.
pub struct CorpusView {
    pub num_topics: nat,
    /// One more than the number of vocabulary terms: term ids lie in
    /// `1..num_terms`.
    pub num_terms: nat,
    pub terms: Seq<Seq<u32>>,
    pub topics: Seq<Seq<u32>>,
}

impl CorpusView {
    /// Shapes agree, every term id is known, every topic lies in `[0, K)`.
    pub open spec fn valid(self) -> bool {
        &&& self.num_topics > 0
        &&& self.terms.len() == self.topics.len()
        &&& forall|d: int|
            0 <= d < self.topics.len() ==> #[trigger] self.terms[d].len() == self.topics[d].len()
        &&& forall|d: int|
            0 <= d < self.topics.len() ==> all_below(#[trigger] self.topics[d], self.num_topics as int)
        &&& forall|d: int, i: int|
            0 <= d < self.terms.len() && 0 <= i < self.terms[d].len() ==> 0 < #[trigger] self.terms[d][i]
                < self.num_terms
    }

    pub open spec fn num_docs(self) -> nat {
        self.topics.len()
    }

    /// Number of occurrences in the corpus.
    pub open spec fn num_occurrences(self) -> nat {
        length_upto(self.topics, self.topics.len() as int)
    }

    /// Occurrences of document `d` assigned topic `z`.
    pub open spec fn doc_topic_count(self, d: int, z: int) -> nat {
        topic_count(self.topics[d], z)
    }

    /// Occurrences of term `w` assigned topic `z`, over the whole corpus.
    pub open spec fn topic_word_count(self, z: int, w: int) -> nat {
        corpus_pair_upto(self.terms, self.topics, self.topics.len() as int, w, z)
    }

    /// Occurrences assigned topic `z`, over the whole corpus.
    pub open spec fn topic_total(self, z: int) -> nat {
        corpus_topic_upto(self.topics, self.topics.len() as int, z)
    }

    /// `sum_z doc_topic_count(d, z)`.
    pub open spec fn doc_topic_sum(self, d: int) -> nat {
        topic_sum(self.topics[d], self.num_topics as int)
    }

    /// `sum_z topic_total(z)`.
    pub open spec fn topic_total_sum(self) -> nat {
        corpus_topic_sum(self.topics, self.topics.len() as int, self.num_topics as int)
    }

    /// `sum_w topic_word_count(z, w)` over every term id.
    pub open spec fn topic_word_sum(self, z: int) -> nat {
        corpus_pair_sum(self.terms, self.topics, self.topics.len() as int, self.num_terms as int, z)
    }

    /// The weight of each topic for an occurrence of term `w` in document `d`.
    pub open spec fn weights(self, d: int, w: int) -> Seq<u128> {
        Seq::new(
            self.num_topics,
            |z: int|
                weight_spec(
                    self.topic_word_count(z, w) as int,
                    self.topic_total(z) as int,
                    self.doc_topic_count(d, z) as int,
                ) as u128,
        )
    }

    /// The state with occurrence `i` of document `d` assigned topic `z`.
    pub open spec fn reassign(self, d: int, i: int, z: u32) -> CorpusView {
        CorpusView { topics: self.topics.update(d, self.topics[d].update(i, z)), ..self }
    }

    /// One sampling step on occurrence `i` of document `d` with draw `u`:
    /// the topic that inverse-CDF selection picks, or no change where every
    /// weight is zero.
    pub open spec fn resample(self, d: int, i: int, u: u32) -> CorpusView {
        match select_spec(self.weights(d, self.terms[d][i] as int), u) {
            Some(z) => self.reassign(d, i, z as u32),
            None => self,
        }
    }

    /// The first `n` occurrences of document `d` resampled in order.
    pub open spec fn resample_upto(self, d: int, draws: Seq<u32>, n: int) -> CorpusView
        decreases n,
    {
        if n <= 0 {
            self
        } else {
            self.resample_upto(d, draws, n - 1).resample(d, n - 1, draws[n - 1])
        }
    }

    /// The first `n` documents swept in order.
    pub open spec fn sweep_upto(self, draws: Seq<Seq<u32>>, n: int) -> CorpusView
        decreases n,
    {
        if n <= 0 {
            self
        } else {
            self.sweep_upto(draws, n - 1).resample_upto(n - 1, draws[n - 1], draws[n - 1].len() as int)
        }
    }

    /// One sweep: every occurrence resampled once, documents and occurrences
    /// in ascending order, occurrence `i` of document `d` with `draws[d][i]`.
    pub open spec fn sweep(self, draws: Seq<Seq<u32>>) -> CorpusView {
        self.sweep_upto(draws, draws.len() as int)
    }

    /// Sweeps run one after another, one draw table per sweep.
    pub open spec fn sweeps(self, rounds: Seq<Seq<Seq<u32>>>) -> CorpusView
        decreases rounds.len(),
    {
        if rounds.len() == 0 {
            self
        } else {
            self.sweeps(rounds.drop_last()).sweep(rounds.last())
        }
    }

    /// A draw table has one draw per occurrence.
    pub open spec fn draws_fit(self, draws: Seq<Seq<u32>>) -> bool {
        &&& draws.len() == self.topics.len()
        &&& forall|d: int| 0 <= d < draws.len() ==> #[trigger] draws[d].len() == self.topics[d].len()
    }

    /// Same documents, same terms, same lengths: only topics may differ.
    pub open spec fn same_shape(self, other: CorpusView) -> bool {
        &&& self.num_topics == other.num_topics
        &&& self.num_terms == other.num_terms
        &&& self.terms == other.terms
        &&& self.topics.len() == other.topics.len()
        &&& forall|d: int|
            0 <= d < self.topics.len() ==> #[trigger] self.topics[d].len() == other.topics[d].len()
    }
}

/// The view of a table of draws.
pub open spec fn table_view(t: Seq<Vec<u32>>) -> Seq<Seq<u32>> {
    t.map_values(|v: Vec<u32>| v@)
}

/// Where the weights are not all zero, selection picks a topic in range.
proof fn lemma_selected_in_range(v: CorpusView, d: int, w: int, u: u32)
    ensures
        select_spec(v.weights(d, w), u) is Some ==> 0 <= select_spec(v.weights(d, w), u)->Some_0
            < v.num_topics,
{
    let ws = v.weights(d, w);
    assert(ws.len() == v.num_topics);
    if total_weight(ws) > 0 {
        lemma_select_interval(ws, u);
        let z = select_spec(ws, u)->Some_0;
        assert(0 <= z < ws.len());
        assert(0 <= z < v.num_topics);
    } else {
        lemma_prefix_monotone(ws, 0, ws.len() as int);
    }
}

/// One resampling step keeps the state valid and its shape unchanged.
pub proof fn lemma_resample_shape(v: CorpusView, d: int, i: int, u: u32)
    requires
        v.valid(),
        0 <= d < v.num_docs(),
        0 <= i < v.topics[d].len(),
    ensures
        v.resample(d, i, u).valid(),
        v.resample(d, i, u).same_shape(v),
{
    lemma_selected_in_range(v, d, v.terms[d][i] as int, u);
    let r = v.resample(d, i, u);
    assert forall|e: int| 0 <= e < r.topics.len() implies all_below(#[trigger] r.topics[e], r.num_topics as int) by {
        if e == d {
            assert forall|j: int| 0 <= j < r.topics[e].len() implies r.topics[e][j] < r.num_topics by {
                if j != i {
                    assert(r.topics[e][j] == v.topics[e][j]);
                }
            }
        }
    }
}

/// Resampling the first `n` occurrences of a document keeps the state valid
/// and its shape unchanged.
pub proof fn lemma_resample_upto_shape(v: CorpusView, d: int, draws: Seq<u32>, n: int)
    requires
        v.valid(),
        0 <= d < v.num_docs(),
        n <= v.topics[d].len(),
        n <= draws.len(),
    ensures
        v.resample_upto(d, draws, n).valid(),
        v.resample_upto(d, draws, n).same_shape(v),
    decreases n,
{
    if n > 0 {
        lemma_resample_upto_shape(v, d, draws, n - 1);
        lemma_resample_shape(v.resample_upto(d, draws, n - 1), d, n - 1, draws[n - 1]);
    }
}

/// Sweeping the first `n` documents keeps the state valid and its shape
/// unchanged.
pub proof fn lemma_sweep_upto_shape(v: CorpusView, draws: Seq<Seq<u32>>, n: int)
    requires
        v.valid(),
        v.draws_fit(draws),
        n <= v.num_docs(),
    ensures
        v.sweep_upto(draws, n).valid(),
        v.sweep_upto(draws, n).same_shape(v),
    decreases n,
{
    if n > 0 {
        lemma_sweep_upto_shape(v, draws, n - 1);
        let p = v.sweep_upto(draws, n - 1);
        lemma_resample_upto_shape(p, n - 1, draws[n - 1], draws[n - 1].len() as int);
    }
}

/// Any number of sweeps keeps the state valid and its shape unchanged.
pub proof fn lemma_sweeps_shape(v: CorpusView, rounds: Seq<Seq<Seq<u32>>>)
    requires
        v.valid(),
        forall|r: int| 0 <= r < rounds.len() ==> v.draws_fit(#[trigger] rounds[r]),
    ensures
        v.sweeps(rounds).valid(),
        v.sweeps(rounds).same_shape(v),
    decreases rounds.len(),
{
    if rounds.len() > 0 {
        let init = rounds.drop_last();
        assert forall|r: int| 0 <= r < init.len() implies v.draws_fit(#[trigger] init[r]) by {
            assert(init[r] == rounds[r]);
        }
        lemma_sweeps_shape(v, init);
        let p = v.sweeps(init);
        assert(v.draws_fit(rounds[rounds.len() - 1]));
        lemma_sweep_upto_shape(p, rounds.last(), rounds.last().len() as int);
    }
}

/// The documents' term ids under vocabulary `vocab`, unknown terms dropped.
pub open spec fn encode_documents(vocab: Seq<Seq<char>>, docs: Seq<Seq<Seq<char>>>) -> Seq<Seq<u32>> {
    Seq::new(docs.len(), |d: int| encode_tokens(vocab, docs[d]))
}

/// The view of tokenised documents.
pub open spec fn token_table(docs: Seq<Vec<String>>) -> Seq<Seq<Seq<char>>> {
    docs.map_values(|v: Vec<String>| strings_view(v@))
}

/// The view of raw documents, each split at white space.
pub open spec fn split_documents(docs: Seq<String>) -> Seq<Seq<Seq<char>>> {
    docs.map_values(|s: String| whitespace_tokens(s@))
}

/// An assignment gives each occurrence of `enc` one topic below `k`.
pub open spec fn assignment_fits(k: int, enc: Seq<Seq<u32>>, init: Seq<Seq<u32>>) -> bool {
    &&& init.len() == enc.len()
    &&& forall|d: int|
        0 <= d < enc.len() ==> #[trigger] init[d].len() == enc[d].len() && all_below(init[d], k)
}

/// Every term id of `e` lies in `1..bound`.
pub open spec fn ids_below(e: Seq<Seq<u32>>, bound: int) -> bool {
    forall|j: int, i: int| 0 <= j < e.len() && 0 <= i < e[j].len() ==> 0 < #[trigger] e[j][i] < bound
}

/// A vector of `n` zeros.
fn zeros(n: usize) -> (r: Vec<u64>)
    ensures
        r@.len() == n,
        forall|j: int| 0 <= j < n ==> #[trigger] r@[j] == 0,
{
    let mut r: Vec<u64> = Vec::new();
    let mut i: usize = 0;
    while i < n
        invariant
            i <= n,
            r@.len() == i,
            forall|j: int| 0 <= j < i ==> #[trigger] r@[j] == 0,
        decreases n - i,
    {
        r.push(0);
        i = i + 1;
    }
    r
}

/// Range and conservation: after any number of sweeps every occurrence's
/// topic lies in `[0, K)`, each document's topic counts add up to its number
/// of occurrences, and the topic totals add up to the number of occurrences
/// in the corpus.
pub proof fn lemma_sweeps_conserve(v: CorpusView, rounds: Seq<Seq<Seq<u32>>>)
    requires
        v.valid(),
        forall|r: int| 0 <= r < rounds.len() ==> v.draws_fit(#[trigger] rounds[r]),
    ensures
        ({
            let s = v.sweeps(rounds);
            &&& s.same_shape(v)
            &&& forall|d: int, i: int|
                0 <= d < s.num_docs() && 0 <= i < s.topics[d].len() ==> #[trigger] s.topics[d][i]
                    < s.num_topics
            &&& forall|d: int| 0 <= d < s.num_docs() ==> #[trigger] s.doc_topic_sum(d) == v.topics[d].len()
            &&& s.topic_total_sum() == v.num_occurrences()
        }),
{
    lemma_sweeps_shape(v, rounds);
    let s = v.sweeps(rounds);
    let k = s.num_topics as int;
    assert forall|d: int| 0 <= d < s.num_docs() implies #[trigger] s.doc_topic_sum(d) == v.topics[d].len() by {
        lemma_topic_sum_len(s.topics[d], k);
    }
    lemma_corpus_topic_sum_len(s.topics, s.topics.len() as int, k);
    lemma_length_same(s.topics, v.topics, s.topics.len() as int);
    assert forall|d: int, i: int|
        0 <= d < s.num_docs() && 0 <= i < s.topics[d].len() implies #[trigger] s.topics[d][i] < s.num_topics by {
        assert(all_below(s.topics[d], k));
    }
}

/// Each topic's total is the sum of that topic's per-term counts.
pub proof fn lemma_topic_total_is_word_sum(v: CorpusView, z: int)
    requires
        v.valid(),
    ensures
        v.topic_total(z) == v.topic_word_sum(z),
{
    assert forall|d: int, i: int| 0 <= d < v.terms.len() && 0 <= i < v.terms[d].len() implies #[trigger] v.terms[d][i]
        < v.num_terms by {}
    lemma_corpus_pair_sum(v.terms, v.topics, v.topics.len() as int, v.num_terms as int, z);
}

/// An occurrence whose term has no occurrence on any topic that holds
/// occurrences at all keeps its topic on its turn.
pub proof fn lemma_degenerate_keeps_topic(v: CorpusView, d: int, i: int, u: u32)
    requires
        v.valid(),
        0 <= d < v.num_docs(),
        0 <= i < v.topics[d].len(),
        forall|z: int|
            0 <= z < v.num_topics && v.topic_total(z) != 0 ==> #[trigger] v.topic_word_count(
                z,
                v.terms[d][i] as int,
            ) == 0,
    ensures
        v.resample(d, i, u) == v,
{
    let w = v.terms[d][i] as int;
    let ws = v.weights(d, w);
    assert forall|z: int| 0 <= z < ws.len() implies #[trigger] ws[z] == 0 by {
        if v.topic_total(z) != 0 {
            assert(v.topic_word_count(z, w) == 0);
        }
    }
    lemma_prefix_zero(ws, ws.len() as int);
}

/// Determinism: the same state and the same draws give the same states,
/// sweep after sweep.
pub proof fn lemma_sweeps_deterministic(a: CorpusView, b: CorpusView, rounds: Seq<Seq<Seq<u32>>>)
    requires
        a == b,
    ensures
        forall|n: int| 0 <= n <= rounds.len() ==> #[trigger] a.sweeps(rounds.take(n)) == b.sweeps(
            rounds.take(n),
        ),
{
}

/// With a single topic every occurrence stays on topic 0, whatever the
/// number of sweeps.
pub proof fn lemma_single_topic(v: CorpusView, rounds: Seq<Seq<Seq<u32>>>)
    requires
        v.valid(),
        v.num_topics == 1,
        forall|r: int| 0 <= r < rounds.len() ==> v.draws_fit(#[trigger] rounds[r]),
    ensures
        forall|d: int, i: int|
            0 <= d < v.num_docs() && 0 <= i < v.topics[d].len() ==> #[trigger] v.sweeps(rounds).topics[d][i]
                == 0,
{
    lemma_sweeps_conserve(v, rounds);
}

/// `(c1, w1)` ranks before `(c2, w2)`: a larger count, or an equal count
/// and a smaller term id.
pub open spec fn ranks_before(c1: int, w1: int, c2: int, w2: int) -> bool {
    c1 > c2 || (c1 == c2 && w1 < w2)
}

/// Term `w` is listed in `r`.
pub open spec fn listed(r: Seq<(u32, u64)>, w: int) -> bool {
    exists|j: int| 0 <= j < r.len() && r[j].0 == w
}

/// `(c, w)` ranks after the last entry of `r`, or `r` is empty.
pub open spec fn after_last(r: Seq<(u32, u64)>, c: int, w: int) -> bool {
    r.len() > 0 ==> ranks_before(r.last().1 as int, r.last().0 as int, c, w)
}

/// A corpus with its topic assignment and count tables.
pub struct Corpus {
    num_topics: u32,
    num_terms: u32,
    terms: Vec<Vec<u32>>,
    topics: Vec<Vec<u32>>,
    doc_topic: Vec<Vec<u64>>,
    topic_word: Vec<Vec<u64>>,
    topic_total: Vec<u64>,
}

impl View for Corpus {
    type V = CorpusView;

    closed spec fn view(&self) -> CorpusView {
        CorpusView {
            num_topics: self.num_topics as nat,
            num_terms: self.num_terms as nat,
            terms: self.terms@.map_values(|v: Vec<u32>| v@),
            topics: self.topics@.map_values(|v: Vec<u32>| v@),
        }
    }
}

impl Corpus {
    /// The state is valid, the number of occurrences fits in 64 bits, and the
    /// three count tables agree with the assignment.
    pub closed spec fn wf(&self) -> bool {
        &&& self@.valid()
        &&& self@.num_terms > 0
        &&& self@.num_occurrences() <= u64::MAX
        &&& self.terms@.len() == self.topics@.len()
        &&& self.doc_topic@.len() == self.topics@.len()
        &&& forall|d: int|
            0 <= d < self.doc_topic@.len() ==> (#[trigger] self.doc_topic@[d])@.len()
                == self.num_topics
        &&& forall|d: int, z: int|
            0 <= d < self.doc_topic@.len() && 0 <= z < self.num_topics ==> (
            #[trigger] self.doc_topic@[d]@[z]) == self@.doc_topic_count(d, z)
        &&& self.topic_word@.len() == self.num_topics
        &&& forall|z: int|
            0 <= z < self.num_topics ==> (#[trigger] self.topic_word@[z])@.len() == self.num_terms
        &&& forall|z: int, w: int|
            0 <= z < self.num_topics && 0 <= w < self.num_terms ==> (
            #[trigger] self.topic_word@[z]@[w]) == self@.topic_word_count(z, w)
        &&& self.topic_total@.len() == self.num_topics
        &&& forall|z: int|
            0 <= z < self.num_topics ==> #[trigger] self.topic_total@[z] == self@.topic_total(z)
    }

    /// Moves occurrence `i` of document `d` from its topic to topic `b`,
    /// updating the three tables.
    fn move_occurrence(&mut self, d: usize, i: usize, b: u32)
        requires
            old(self).wf(),
            d < old(self)@.num_docs(),
            i < old(self)@.topics[d as int].len(),
            b < old(self)@.num_topics,
            b != old(self)@.topics[d as int][i as int],
        ensures
            final(self).wf(),
            final(self)@ == old(self)@.reassign(d as int, i as int, b),
    {
        let ghost v = self@;
        proof {
            assert(v.terms[d as int] == self.terms@[d as int]@);
            assert(v.topics[d as int] == self.topics@[d as int]@);
        }
        let w = self.terms[d][i];
        let a = self.topics[d][i];
        let ghost nv = v.reassign(d as int, i as int, b);
        let ghost ts = v.topics[d as int];
        let ghost nt = ts.update(i as int, b);
        proof {
            let len = v.topics.len() as int;
            assert forall|z: int| #[trigger] nv.doc_topic_count(d as int, z) == v.doc_topic_count(d as int, z)
                + (if b == z { 1int } else { 0int }) - (if a == z { 1int } else { 0int }) by {
                lemma_topic_count_update(ts, ts.len() as int, i as int, b, z);
            }
            assert forall|z: int| #[trigger] nv.topic_total(z) == v.topic_total(z)
                + (if b == z { 1int } else { 0int }) - (if a == z { 1int } else { 0int }) by {
                lemma_topic_count_update(ts, ts.len() as int, i as int, b, z);
                lemma_corpus_topic_update(v.topics, len, d as int, nt, z);
            }
            assert forall|z: int, x: int| #[trigger] nv.topic_word_count(z, x) == v.topic_word_count(z, x)
                + if x == w {
                (if b == z { 1int } else { 0int }) - (if a == z { 1int } else { 0int })
            } else {
                0int
            } by {
                lemma_pair_count_update(v.terms[d as int], ts, ts.len() as int, i as int, b, x, z);
                lemma_corpus_pair_update(v.terms, v.topics, len, d as int, nt, x, z);
            }
            lemma_corpus_topic_bound(nv.topics, len, b as int);
            lemma_corpus_pair_le_topic(nv.terms, nv.topics, len, w as int, b as int);
            lemma_length_upto_ge(nv.topics, len, d as int);
            lemma_topic_count_bound(nt, nt.len() as int, b as int);
            lemma_length_same(nv.topics, v.topics, len);
            assert(nv.doc_topic_count(d as int, a as int) + 1 == v.doc_topic_count(d as int, a as int));
            assert(nv.topic_total(a as int) + 1 == v.topic_total(a as int));
            assert(nv.topic_word_count(a as int, w as int) + 1 == v.topic_word_count(a as int, w as int));
            assert(nv.doc_topic_count(d as int, b as int) == v.doc_topic_count(d as int, b as int) + 1);
            assert(nv.topic_total(b as int) == v.topic_total(b as int) + 1);
            assert(nv.topic_word_count(b as int, w as int) == v.topic_word_count(b as int, w as int) + 1);
            assert(self.doc_topic@[d as int]@[a as int] == v.doc_topic_count(d as int, a as int));
            assert(self.doc_topic@[d as int]@[b as int] == v.doc_topic_count(d as int, b as int));
            assert(self.topic_word@[a as int]@[w as int] == v.topic_word_count(a as int, w as int));
            assert(self.topic_word@[b as int]@[w as int] == v.topic_word_count(b as int, w as int));
        }
        let au = a as usize;
        let bu = b as usize;
        let wu = w as usize;
        self.doc_topic[d][au] = self.doc_topic[d][au] - 1;
        self.doc_topic[d][bu] = self.doc_topic[d][bu] + 1;
        self.topic_word[au][wu] = self.topic_word[au][wu] - 1;
        self.topic_word[bu][wu] = self.topic_word[bu][wu] + 1;
        self.topic_total[au] = self.topic_total[au] - 1;
        self.topic_total[bu] = self.topic_total[bu] + 1;
        self.topics[d][i] = b;
        proof {
            assert(self@.topics =~= nv.topics);
            assert(self@.terms =~= nv.terms);
        }
    }

    /// Resamples occurrence `i` of document `d` with the draw `u / 2^32`:
    /// computes every topic's weight, picks a topic by inverse-CDF
    /// selection, and moves the occurrence there; where every weight is
    /// zero the occurrence keeps its topic.
    ///
    /// Each ratio `topic_word_count / topic_total` is rounded down to a
    /// multiple of `2^-32` before it is multiplied by the document count, so
    /// at the boundary between two cumulative intervals the topic picked can
    /// differ from the one the exact ratios would pick.
    pub fn resample(&mut self, d: usize, i: usize, u: u32)
        requires
            old(self).wf(),
            d < old(self)@.num_docs(),
            i < old(self)@.topics[d as int].len(),
        ensures
            final(self).wf(),
            final(self)@.valid(),
            final(self)@ == old(self)@.resample(d as int, i as int, u),
    {
        let ghost v = self@;
        proof {
            assert(v.terms[d as int] == self.terms@[d as int]@);
            assert(v.topics[d as int] == self.topics@[d as int]@);
        }
        let w = self.terms[d][i];
        let a = self.topics[d][i];
        let k = self.num_topics as usize;
        let ghost full = v.weights(d as int, w as int);
        let ghost ts = v.topics[d as int];
        let ghost len = v.topics.len() as int;
        let mut weights: Vec<u128> = Vec::new();
        let mut z: usize = 0;
        while z < k
            invariant
                self.wf(),
                self@ == v,
                k == v.num_topics,
                d < v.num_docs(),
                0 < w < v.num_terms,
                full == v.weights(d as int, w as int),
                ts == v.topics[d as int],
                len == v.topics.len(),
                z <= k,
                weights@ == full.subrange(0, z as int),
                prefix_sum(full, z as int) <= WEIGHT_SCALE * topic_sum(ts, z as int),
            decreases k - z,
        {
            proof {
                lemma_corpus_pair_le_topic(v.terms, v.topics, len, w as int, z as int);
                assert(self.topic_word@[z as int]@[w as int] == v.topic_word_count(z as int, w as int));
                assert(self.doc_topic@[d as int]@[z as int] == v.doc_topic_count(d as int, z as int));
            }
            let x = topic_weight(self.topic_word[z][w as usize], self.topic_total[z], self.doc_topic[d][z]);
            proof {
                let p = prefix_sum(full, z as int);
                let c = topic_count(ts, z as int);
                let q = topic_sum(ts, z as int);
                assert(full[z as int] == x);
                assert(p + x <= WEIGHT_SCALE * (q + c)) by (nonlinear_arith)
                    requires p <= WEIGHT_SCALE * q, x <= WEIGHT_SCALE * c;
            }
            weights.push(x);
            z = z + 1;
            proof {
                assert(weights@ =~= full.subrange(0, z as int));
            }
        }
        proof {
            assert(weights@ =~= full);
            lemma_topic_sum_len(ts, k as int);
            lemma_length_upto_ge(v.topics, len, d as int);
            assert(WEIGHT_SCALE * topic_sum(ts, k as int) < 0x1_0000_0000_0000_0000_0000_0000)
                by (nonlinear_arith)
                requires topic_sum(ts, k as int) <= u64::MAX;
            lemma_selected_in_range(v, d as int, w as int, u);
        }
        match select_topic(&weights, u) {
            None => {},
            Some(b) => {
                if b as u32 != a {
                    self.move_occurrence(d, i, b as u32);
                } else {
                    proof {
                        assert(ts.update(i as int, a) =~= ts);
                        assert(v.topics.update(d as int, ts) =~= v.topics);
                    }
                }
            },
        }
    }

    /// One sweep: every occurrence resampled once, documents and
    /// occurrences in ascending order, occurrence `i` of document `d` with
    /// the draw `draws[d][i] / 2^32`; each step selects over the fixed-point
    /// weights described at `resample`.
    pub fn sweep_with_draws(&mut self, draws: &Vec<Vec<u32>>)
        requires
            old(self).wf(),
            old(self)@.draws_fit(table_view(draws@)),
        ensures
            final(self).wf(),
            final(self)@.valid(),
            final(self)@ == old(self)@.sweep(table_view(draws@)),
            final(self)@.same_shape(old(self)@),
    {
        let ghost v = self@;
        let ghost dv = table_view(draws@);
        let n = self.topics.len();
        let mut d: usize = 0;
        while d < n
            invariant
                self.wf(),
                v.valid(),
                v.draws_fit(dv),
                dv == table_view(draws@),
                n == v.num_docs(),
                d <= n,
                self@ == v.sweep_upto(dv, d as int),
                self@.same_shape(v),
            decreases n - d,
        {
            let ghost start = self@;
            proof {
                assert(self@.topics[d as int] == self.topics@[d as int]@);
                assert(dv[d as int] == draws@[d as int]@);
            }
            let m = self.topics[d].len();
            let mut i: usize = 0;
            while i < m
                invariant
                    self.wf(),
                    v.valid(),
                    v.draws_fit(dv),
                    dv == table_view(draws@),
                    n == v.num_docs(),
                    d < n,
                    start == v.sweep_upto(dv, d as int),
                    start.same_shape(v),
                    m == v.topics[d as int].len(),
                    m == dv[d as int].len(),
                    i <= m,
                    self@ == start.resample_upto(d as int, dv[d as int], i as int),
                    self@.same_shape(v),
                decreases m - i,
            {
                proof {
                    assert(dv[d as int] == draws@[d as int]@);
                }
                let ghost before = self@;
                self.resample(d, i, draws[d][i]);
                proof {
                    lemma_resample_shape(before, d as int, i as int, dv[d as int][i as int]);
                }
                i = i + 1;
            }
            d = d + 1;
        }
    }

    /// Builds a corpus from tokenised documents and a given initial
    /// assignment: `initial[d][i]` is the topic of the `i`-th known term of
    /// document `d`. Unknown terms are dropped.
    pub fn with_topics(
        num_topics: u32,
        vocab: &Vocabulary,
        documents: &Vec<Vec<String>>,
        initial: &Vec<Vec<u32>>,
    ) -> (r: Result<Corpus, CorpusError>)
        requires
            vocab.wf(),
        ensures
            r == Err::<Corpus, CorpusError>(CorpusError::InvalidTopicCount) <==> num_topics == 0,
            r == Err::<Corpus, CorpusError>(CorpusError::InvalidAssignment) <==> num_topics > 0
                && !assignment_fits(
                num_topics as int,
                encode_documents(vocab@, token_table(documents@)),
                table_view(initial@),
            ),
            r == Err::<Corpus, CorpusError>(CorpusError::TooManyOccurrences) <==> num_topics > 0
                && assignment_fits(
                num_topics as int,
                encode_documents(vocab@, token_table(documents@)),
                table_view(initial@),
            ) && length_upto(table_view(initial@), initial@.len() as int) > u64::MAX,
            r matches Ok(c) ==> c.wf() && c@.valid() && c@ == (CorpusView {
                num_topics: num_topics as nat,
                num_terms: vocab@.len() + 1,
                terms: encode_documents(vocab@, token_table(documents@)),
                topics: table_view(initial@),
            }),
    {
        if num_topics == 0 {
            return Err(CorpusError::InvalidTopicCount);
        }
        let ghost e = encode_documents(vocab@, token_table(documents@));
        let ghost t = table_view(initial@);
        let k = num_topics as usize;
        let nd = documents.len();
        let mut enc: Vec<Vec<u32>> = Vec::new();
        let mut d: usize = 0;
        while d < nd
            invariant
                vocab.wf(),
                nd == documents@.len(),
                e == encode_documents(vocab@, token_table(documents@)),
                d <= nd,
                table_view(enc@) == e.take(d as int),
                ids_below(e.take(d as int), vocab@.len() + 1int),
            decreases nd - d,
        {
            let ids = vocab.encode_all(&documents[d]);
            proof {
                assert(e[d as int] == ids@);
                assert(ids_below(e.take(d + 1), vocab@.len() + 1int)) by {
                    assert forall|j: int, i: int| 0 <= j < d + 1 && 0 <= i < e.take(d + 1)[j].len()
                        implies 0 < #[trigger] e.take(d + 1)[j][i] < vocab@.len() + 1 by {
                        if j < d {
                            assert(e.take(d + 1)[j] == e.take(d as int)[j]);
                        }
                    }
                }
            }
            let ghost ids_v = ids@;
            let ghost before = enc@;
            proof {
                assert(table_view(before).len() == before.len());
                assert(before.len() == d);
            }
            enc.push(ids);
            proof {
                assert(enc@[d as int]@ == ids_v);
                assert forall|j: int| 0 <= j < d implies #[trigger] enc@[j]@ == e[j] by {
                    assert(enc@[j] == before[j]);
                    assert(table_view(before)[j] == e.take(d as int)[j]);
                }
            }
            d = d + 1;
            proof {
                assert(table_view(enc@) =~= e.take(d as int));
            }
        }
        proof {
            assert(table_view(enc@) =~= e);
            assert(e.take(nd as int) =~= e);
        }
        if initial.len() != nd {
            return Err(CorpusError::InvalidAssignment);
        }
        d = 0;
        while d < nd
            invariant
                num_topics > 0,
                k == num_topics,
                e == encode_documents(vocab@, token_table(documents@)),
                ids_below(e, vocab@.len() + 1int),
                nd == e.len(),
                nd == t.len(),
                t == table_view(initial@),
                e == table_view(enc@),
                d <= nd,
                forall|j: int| 0 <= j < d ==> #[trigger] t[j].len() == e[j].len() && all_below(t[j], k as int),
            decreases nd - d,
        {
            proof {
                assert(t[d as int] == initial@[d as int]@);
                assert(e[d as int] == enc@[d as int]@);
            }
            if initial[d].len() != enc[d].len() {
                return Err(CorpusError::InvalidAssignment);
            }
            let m = initial[d].len();
            let mut i: usize = 0;
            while i < m
                invariant
                    num_topics > 0,
                    k == num_topics,
                    e == encode_documents(vocab@, token_table(documents@)),
                    t[d as int] == initial@[d as int]@,
                    d < nd,
                    nd == t.len(),
                    t == table_view(initial@),
                    m == t[d as int].len(),
                    i <= m,
                    forall|j: int| 0 <= j < i ==> #[trigger] t[d as int][j] < k,
                decreases m - i,
            {
                if initial[d][i] >= num_topics {
                    return Err(CorpusError::InvalidAssignment);
                }
                i = i + 1;
            }
            d = d + 1;
        }
        let mut total: u64 = 0;
        d = 0;
        while d < nd
            invariant
                num_topics > 0,
                k == num_topics,
                e == encode_documents(vocab@, token_table(documents@)),
                ids_below(e, vocab@.len() + 1int),
                nd == t.len(),
                t == table_view(initial@),
                assignment_fits(k as int, e, t),
                d <= nd,
                total == length_upto(t, d as int),
            decreases nd - d,
        {
            proof {
                assert(t[d as int] == initial@[d as int]@);
                lemma_length_upto_monotone(t, d + 1, nd as int);
            }
            let m = initial[d].len();
            if total > u64::MAX - m as u64 {
                proof {
                    lemma_length_upto_monotone(t, d + 1, nd as int);
                }
                return Err(CorpusError::TooManyOccurrences);
            }
            total = total + m as u64;
            d = d + 1;
        }
        let nt = vocab.len() + 1;
        let mut terms: Vec<Vec<u32>> = Vec::new();
        let mut topics: Vec<Vec<u32>> = Vec::new();
        let mut doc_topic: Vec<Vec<u64>> = Vec::new();
        let mut topic_word: Vec<Vec<u64>> = Vec::new();
        let topic_total_init = zeros(k);
        let mut topic_total = topic_total_init;
        let mut z: usize = 0;
        while z < k
            invariant
                z <= k,
                topic_word@.len() == z,
                forall|y: int| 0 <= y < z ==> (#[trigger] topic_word@[y])@.len() == nt,
                forall|y: int, x: int|
                    0 <= y < z && 0 <= x < nt ==> #[trigger] topic_word@[y]@[x] == 0,
            decreases k - z,
        {
            topic_word.push(zeros(nt));
            z = z + 1;
        }
        d = 0;
        while d < nd
            invariant
                nd == t.len(),
                nd == e.len(),
                t == table_view(initial@),
                e == table_view(enc@),
                assignment_fits(k as int, e, t),
                length_upto(t, nd as int) <= u64::MAX,
                ids_below(e, vocab@.len() + 1int),
                k == num_topics,
                nt == vocab@.len() + 1,
                d <= nd,
                table_view(terms@) == e.take(d as int),
                table_view(topics@) == t.take(d as int),
                doc_topic@.len() == d,
                forall|j: int| 0 <= j < d ==> (#[trigger] doc_topic@[j])@.len() == k,
                forall|j: int, y: int|
                    0 <= j < d && 0 <= y < k ==> #[trigger] doc_topic@[j]@[y] == topic_count(t[j], y),
                topic_word@.len() == k,
                forall|y: int| 0 <= y < k ==> (#[trigger] topic_word@[y])@.len() == nt,
                forall|y: int, x: int|
                    0 <= y < k && 0 <= x < nt ==> #[trigger] topic_word@[y]@[x] == corpus_pair_upto(
                        e.take(d as int),
                        t.take(d as int),
                        d as int,
                        x,
                        y,
                    ),
                topic_total@.len() == k,
                forall|y: int|
                    0 <= y < k ==> #[trigger] topic_total@[y] == corpus_topic_upto(t.take(d as int), d as int, y),
            decreases nd - d,
        {
            let ghost ed = e.take(d as int);
            let ghost td = t.take(d as int);
            proof {
                assert(t[d as int] == initial@[d as int]@);
                assert(e[d as int] == enc@[d as int]@);
                lemma_length_same(td, t, d as int);
                lemma_length_upto_monotone(t, d + 1, nd as int);
            }
            let m = enc[d].len();
            let mut ws: Vec<u32> = Vec::new();
            let mut ts: Vec<u32> = Vec::new();
            let mut row = zeros(k);
            let mut i: usize = 0;
            while i < m
                invariant
                    nd == t.len(),
                    nd == e.len(),
                    t == table_view(initial@),
                    e == table_view(enc@),
                    assignment_fits(k as int, e, t),
                    k == num_topics,
                    nt == vocab@.len() + 1,
                    ids_below(e, vocab@.len() + 1int),
                    d < nd,
                    ed == e.take(d as int),
                    td == t.take(d as int),
                    length_upto(td, d as int) + m <= u64::MAX,
                    m == e[d as int].len(),
                    m == t[d as int].len(),
                    i <= m,
                    ws@ == e[d as int].take(i as int),
                    ts@ == t[d as int].take(i as int),
                    row@.len() == k,
                    forall|y: int| 0 <= y < k ==> #[trigger] row@[y] == topic_count(ts@, y),
                    topic_word@.len() == k,
                    forall|y: int| 0 <= y < k ==> (#[trigger] topic_word@[y])@.len() == nt,
                    forall|y: int, x: int|
                        0 <= y < k && 0 <= x < nt ==> #[trigger] topic_word@[y]@[x] == corpus_pair_upto(
                            ed,
                            td,
                            d as int,
                            x,
                            y,
                        ) + pair_count(ws@, ts@, x, y),
                    topic_total@.len() == k,
                    forall|y: int|
                        0 <= y < k ==> #[trigger] topic_total@[y] == corpus_topic_upto(td, d as int, y)
                            + topic_count(ts@, y),
                decreases m - i,
            {
                proof {
                    assert(t[d as int] == initial@[d as int]@);
                    assert(e[d as int] == enc@[d as int]@);
                }
                let w = enc[d][i];
                let c = initial[d][i];
                let cu = c as usize;
                let wu = w as usize;
                proof {
                    let nws = ws@.push(w);
                    let nts = ts@.push(c);
                    assert forall|y: int, x: int| true implies #[trigger] pair_count(nws, nts, x, y)
                        == pair_count(ws@, ts@, x, y) + (if w == x && c == y { 1int } else { 0int }) by {
                        lemma_count_push(ws@, ts@, w, c, x, y);
                    }
                    assert forall|y: int| true implies #[trigger] topic_count(nts, y) == topic_count(ts@, y)
                        + (if c == y { 1int } else { 0int }) by {
                        lemma_count_push(ws@, ts@, w, c, 0, y);
                    }
                    assert(nts.len() == i + 1);
                    assert(topic_count(nts, c as int) == topic_count(ts@, c as int) + 1);
                    assert(pair_count(nws, nts, w as int, c as int) == pair_count(ws@, ts@, w as int, c as int) + 1);
                    lemma_topic_count_bound(nts, nts.len() as int, c as int);
                    lemma_pair_le_topic(nws, nts, nts.len() as int, w as int, c as int);
                    lemma_corpus_topic_bound(td, d as int, c as int);
                    lemma_corpus_pair_le_topic(ed, td, d as int, w as int, c as int);
                    assert(topic_count(nts, c as int) <= i + 1);
                    assert(pair_count(nws, nts, w as int, c as int) <= topic_count(nts, c as int));
                    assert(topic_word@[c as int]@[w as int] == corpus_pair_upto(ed, td, d as int, w as int, c as int)
                        + pair_count(ws@, ts@, w as int, c as int));
                    assert(topic_total@[c as int] == corpus_topic_upto(td, d as int, c as int)
                        + topic_count(ts@, c as int));
                    assert(row@[c as int] == topic_count(ts@, c as int));
                }
                row[cu] = row[cu] + 1;
                topic_word[cu][wu] = topic_word[cu][wu] + 1;
                topic_total[cu] = topic_total[cu] + 1;
                ws.push(w);
                ts.push(c);
                i = i + 1;
                proof {
                    assert(ws@ =~= e[d as int].take(i as int));
                    assert(ts@ =~= t[d as int].take(i as int));
                }
            }
            proof {
                assert(ws@ =~= e[d as int]);
                assert(ts@ =~= t[d as int]);
                assert(ed.push(ws@) =~= e.take(d + 1));
                assert(td.push(ts@) =~= t.take(d + 1));
                assert forall|y: int, x: int| true implies #[trigger] corpus_pair_upto(
                    e.take(d + 1),
                    t.take(d + 1),
                    d + 1,
                    x,
                    y,
                ) == corpus_pair_upto(ed, td, d as int, x, y) + pair_count(ws@, ts@, x, y) by {
                    lemma_corpus_push(ed, td, ws@, ts@, x, y);
                }
                assert forall|y: int| true implies #[trigger] corpus_topic_upto(t.take(d + 1), d + 1, y)
                    == corpus_topic_upto(td, d as int, y) + topic_count(ts@, y) by {
                    lemma_corpus_push(ed, td, ws@, ts@, 0, y);
                }
            }
            let ghost terms_before = terms@;
            let ghost topics_before = topics@;
            let ghost ws_v = ws@;
            let ghost ts_v = ts@;
            terms.push(ws);
            topics.push(ts);
            proof {
                assert forall|j: int| 0 <= j < d implies #[trigger] terms@[j]@ == e[j] && topics@[j]@ == t[j] by {
                    assert(terms@[j] == terms_before[j]);
                    assert(topics@[j] == topics_before[j]);
                    assert(table_view(terms_before)[j] == ed[j]);
                    assert(table_view(topics_before)[j] == td[j]);
                }
                assert(terms@[d as int]@ == ws_v);
                assert(topics@[d as int]@ == ts_v);
            }
            doc_topic.push(row);
            d = d + 1;
            proof {
                assert(table_view(terms@) =~= e.take(d as int));
                assert(table_view(topics@) =~= t.take(d as int));
            }
        }
        proof {
            assert(e.take(nd as int) =~= e);
            assert(t.take(nd as int) =~= t);
        }
        let c = Corpus {
            num_topics,
            num_terms: nt as u32,
            terms,
            topics,
            doc_topic,
            topic_word,
            topic_total,
        };
        proof {
            assert(c@.terms == e);
            assert(c@.topics == t);
        }
        Ok(c)
    }

    /// Builds a corpus from tokenised documents, drawing each known
    /// occurrence's initial topic uniformly from `[0, K)`.
    pub fn from_tokens(
        num_topics: u32,
        vocab: &Vocabulary,
        documents: &Vec<Vec<String>>,
        rng: &mut RandomSource,
    ) -> (r: Result<Corpus, CorpusError>)
        requires
            vocab.wf(),
        ensures
            r == Err::<Corpus, CorpusError>(CorpusError::InvalidTopicCount) <==> num_topics == 0,
            r != Err::<Corpus, CorpusError>(CorpusError::InvalidAssignment),
            r == Err::<Corpus, CorpusError>(CorpusError::TooManyOccurrences) <==> num_topics > 0
                && length_upto(
                encode_documents(vocab@, token_table(documents@)),
                documents@.len() as int,
            ) > u64::MAX,
            r is Ok <==> num_topics > 0 && length_upto(
                encode_documents(vocab@, token_table(documents@)),
                documents@.len() as int,
            ) <= u64::MAX,
            r matches Ok(c) ==> c.wf() && c@.valid() && c@.num_topics == num_topics && c@.num_terms
                == vocab@.len() + 1 && c@.terms == encode_documents(vocab@, token_table(documents@)),
            num_topics == 0 ==> *final(rng) == *old(rng),
    {
        if num_topics == 0 {
            return Err(CorpusError::InvalidTopicCount);
        }
        let ghost e = encode_documents(vocab@, token_table(documents@));
        let nd = documents.len();
        let mut initial: Vec<Vec<u32>> = Vec::new();
        let mut d: usize = 0;
        while d < nd
            invariant
                vocab.wf(),
                num_topics > 0,
                nd == documents@.len(),
                e == encode_documents(vocab@, token_table(documents@)),
                d <= nd,
                initial@.len() == d,
                forall|j: int|
                    0 <= j < d ==> (#[trigger] initial@[j])@.len() == e[j].len() && all_below(
                        initial@[j]@,
                        num_topics as int,
                    ),
            decreases nd - d,
        {
            let m = vocab.encode_all(&documents[d]).len();
            let mut ts: Vec<u32> = Vec::new();
            let mut i: usize = 0;
            while i < m
                invariant
                    num_topics > 0,
                    i <= m,
                    ts@.len() == i,
                    all_below(ts@, num_topics as int),
                decreases m - i,
            {
                let z = rng.topic_draw(num_topics);
                ts.push(z);
                i = i + 1;
            }
            initial.push(ts);
            d = d + 1;
        }
        proof {
            assert(table_view(initial@).len() == nd);
            assert(assignment_fits(num_topics as int, e, table_view(initial@)));
        }
        let r = Corpus::with_topics(num_topics, vocab, documents, &initial);
        proof {
            lemma_length_same(table_view(initial@), e, nd as int);
            if r is Err {
                let err = r->Err_0;
                assert(r == Err::<Corpus, CorpusError>(err));
                match err {
                    CorpusError::InvalidTopicCount => {},
                    CorpusError::InvalidAssignment => {},
                    CorpusError::TooManyOccurrences => {},
                }
            }
        }
        r
    }

    /// Builds a corpus from raw documents: each is split at white space,
    /// unknown terms are dropped, and each known occurrence's initial topic
    /// is drawn uniformly from `[0, K)`.
    pub fn new(num_topics: u32, vocab: &Vocabulary, documents: &Vec<String>, rng: &mut RandomSource) -> (r:
        Result<Corpus, CorpusError>)
        requires
            vocab.wf(),
        ensures
            r == Err::<Corpus, CorpusError>(CorpusError::InvalidTopicCount) <==> num_topics == 0,
            r != Err::<Corpus, CorpusError>(CorpusError::InvalidAssignment),
            r == Err::<Corpus, CorpusError>(CorpusError::TooManyOccurrences) <==> num_topics > 0
                && length_upto(
                encode_documents(vocab@, split_documents(documents@)),
                documents@.len() as int,
            ) > u64::MAX,
            r is Ok <==> num_topics > 0 && length_upto(
                encode_documents(vocab@, split_documents(documents@)),
                documents@.len() as int,
            ) <= u64::MAX,
            r matches Ok(c) ==> c.wf() && c@.valid() && c@.num_topics == num_topics && c@.num_terms
                == vocab@.len() + 1 && c@.terms == encode_documents(vocab@, split_documents(documents@)),
            num_topics == 0 ==> *final(rng) == *old(rng),
    {
        let mut tokens: Vec<Vec<String>> = Vec::new();
        let nd = documents.len();
        let mut d: usize = 0;
        while d < nd
            invariant
                nd == documents@.len(),
                d <= nd,
                token_table(tokens@) == split_documents(documents@).take(d as int),
            decreases nd - d,
        {
            let ghost before = tokens@;
            proof {
                assert(token_table(before).len() == before.len());
                assert(before.len() == d);
            }
            let t = tokenize(&documents[d]);
            let ghost tv = strings_view(t@);
            tokens.push(t);
            proof {
                assert(token_table(tokens@)[d as int] == tv);
                assert forall|j: int| 0 <= j < d implies #[trigger] token_table(tokens@)[j]
                    == split_documents(documents@)[j] by {
                    assert(tokens@[j] == before[j]);
                    assert(token_table(before)[j] == split_documents(documents@).take(d as int)[j]);
                }
            }
            d = d + 1;
            proof {
                assert(token_table(tokens@) =~= split_documents(documents@).take(d as int));
            }
        }
        proof {
            assert(split_documents(documents@).take(nd as int) =~= split_documents(documents@));
        }
        Corpus::from_tokens(num_topics, vocab, &tokens, rng)
    }

    /// One sweep with fresh uniform draws from `rng`.
    pub fn sweep(&mut self, rng: &mut RandomSource)
        requires
            old(self).wf(),
        ensures
            final(self).wf(),
            final(self)@.valid(),
            final(self)@.same_shape(old(self)@),
            exists|t: Seq<Seq<u32>>| old(self)@.draws_fit(t) && final(self)@ == old(self)@.sweep(t),
    {
        let ghost v = self@;
        let nd = self.topics.len();
        let mut draws: Vec<Vec<u32>> = Vec::new();
        let mut d: usize = 0;
        while d < nd
            invariant
                self@ == v,
                nd == v.num_docs(),
                d <= nd,
                draws@.len() == d,
                forall|j: int| 0 <= j < d ==> (#[trigger] draws@[j])@.len() == v.topics[j].len(),
            decreases nd - d,
        {
            proof {
                assert(v.topics[d as int] == self.topics@[d as int]@);
            }
            let m = self.topics[d].len();
            let mut row: Vec<u32> = Vec::new();
            let mut i: usize = 0;
            while i < m
                invariant
                    i <= m,
                    row@.len() == i,
                decreases m - i,
            {
                row.push(rng.unit_draw());
                i = i + 1;
            }
            draws.push(row);
            d = d + 1;
        }
        proof {
            assert(v.draws_fit(table_view(draws@)));
        }
        self.sweep_with_draws(&draws);
    }

    /// `n` sweeps with fresh uniform draws from `rng`.
    pub fn run(&mut self, n: usize, rng: &mut RandomSource)
        requires
            old(self).wf(),
        ensures
            final(self).wf(),
            final(self)@.valid(),
            final(self)@.same_shape(old(self)@),
            exists|rounds: Seq<Seq<Seq<u32>>>|
                rounds.len() == n && (forall|j: int|
                    0 <= j < rounds.len() ==> old(self)@.draws_fit(#[trigger] rounds[j]))
                    && final(self)@ == old(self)@.sweeps(rounds),
    {
        let ghost v = self@;
        let ghost rounds: Seq<Seq<Seq<u32>>> = Seq::empty();
        let mut s: usize = 0;
        while s < n
            invariant
                self.wf(),
                v == old(self)@,
                self@.same_shape(v),
                s <= n,
                rounds.len() == s,
                forall|j: int| 0 <= j < rounds.len() ==> v.draws_fit(#[trigger] rounds[j]),
                self@ == v.sweeps(rounds),
            decreases n - s,
        {
            let ghost before = self@;
            self.sweep(rng);
            proof {
                let t = choose|t: Seq<Seq<u32>>| before.draws_fit(t) && self@ == before.sweep(t);
                let next = rounds.push(t);
                assert(next.drop_last() =~= rounds);
                assert forall|j: int| 0 <= j < next.len() implies v.draws_fit(#[trigger] next[j]) by {
                    if j < rounds.len() {
                        assert(next[j] == rounds[j]);
                    }
                }
                rounds = next;
            }
            s = s + 1;
        }
    }

    /// The number of topics `K`.
    pub fn num_topics(&self) -> (r: u32)
        ensures
            r == self@.num_topics,
    {
        self.num_topics
    }

    /// The number of documents.
    pub fn num_documents(&self) -> (r: usize)
        requires
            self.wf(),
        ensures
            r == self@.num_docs(),
    {
        self.topics.len()
    }

    /// The number of known-term occurrences of document `d`.
    pub fn document_len(&self, d: usize) -> (r: usize)
        requires
            self.wf(),
            d < self@.num_docs(),
        ensures
            r == self@.topics[d as int].len(),
    {
        proof {
            assert(self@.topics[d as int] == self.topics@[d as int]@);
        }
        self.topics[d].len()
    }

    /// The topic of occurrence `i` of document `d`.
    pub fn assignment(&self, d: usize, i: usize) -> (r: u32)
        requires
            self.wf(),
            d < self@.num_docs(),
            i < self@.topics[d as int].len(),
        ensures
            r == self@.topics[d as int][i as int],
    {
        proof {
            assert(self@.topics[d as int] == self.topics@[d as int]@);
        }
        self.topics[d][i]
    }

    /// The term id of occurrence `i` of document `d`.
    pub fn term_at(&self, d: usize, i: usize) -> (r: u32)
        requires
            self.wf(),
            d < self@.num_docs(),
            i < self@.topics[d as int].len(),
        ensures
            r == self@.terms[d as int][i as int],
    {
        proof {
            assert(self@.terms[d as int] == self.terms@[d as int]@);
        }
        self.terms[d][i]
    }

    /// The topic histogram of document `d`: entry `z` is the number of its
    /// occurrences assigned topic `z`.
    pub fn topic_distribution(&self, d: usize) -> (r: Vec<u64>)
        requires
            self.wf(),
            d < self@.num_docs(),
        ensures
            r@.len() == self@.num_topics,
            forall|z: int| 0 <= z < self@.num_topics ==> #[trigger] r@[z] == self@.doc_topic_count(d as int, z),
    {
        let k = self.num_topics as usize;
        let mut r: Vec<u64> = Vec::new();
        let mut z: usize = 0;
        while z < k
            invariant
                self.wf(),
                d < self@.num_docs(),
                k == self@.num_topics,
                z <= k,
                r@.len() == z,
                forall|y: int| 0 <= y < z ==> #[trigger] r@[y] == self@.doc_topic_count(d as int, y),
            decreases k - z,
        {
            r.push(self.doc_topic[d][z]);
            z = z + 1;
        }
        r
    }

    /// The number of occurrences assigned topic `z` over the corpus.
    pub fn topic_total(&self, z: u32) -> (r: u64)
        requires
            self.wf(),
            z < self@.num_topics,
        ensures
            r == self@.topic_total(z as int),
    {
        self.topic_total[z as usize]
    }

    /// The number of occurrences of term `w` assigned topic `z`; 0 for an id
    /// outside the vocabulary.
    pub fn topic_word_count(&self, z: u32, w: u32) -> (r: u64)
        requires
            self.wf(),
            z < self@.num_topics,
        ensures
            w < self@.num_terms ==> r == self@.topic_word_count(z as int, w as int),
            w >= self@.num_terms ==> r == 0,
    {
        if w < self.num_terms {
            self.topic_word[z as usize][w as usize]
        } else {
            0
        }
    }

    /// The `n` terms with the most occurrences on topic `z`, as
    /// `(term id, count)` by descending count, ties by ascending id; terms
    /// with no occurrence on the topic are not listed.
    pub fn top_terms(&self, z: u32, n: usize) -> (r: Vec<(u32, u64)>)
        requires
            self.wf(),
            z < self@.num_topics,
        ensures
            r@.len() <= n,
            forall|j: int|
                0 <= j < r@.len() ==> 0 < (#[trigger] r@[j]).0 < self@.num_terms && r@[j].1
                    == self@.topic_word_count(z as int, r@[j].0 as int) && r@[j].1 > 0,
            forall|j: int, l: int|
                0 <= j < l < r@.len() ==> ranks_before(
                    (#[trigger] r@[j]).1 as int,
                    r@[j].0 as int,
                    (#[trigger] r@[l]).1 as int,
                    r@[l].0 as int,
                ),
            forall|w: int|
                0 < w < self@.num_terms && #[trigger] self@.topic_word_count(z as int, w) > 0 && !listed(
                    r@,
                    w,
                ) ==> r@.len() == n && after_last(r@, self@.topic_word_count(z as int, w) as int, w),
    {
        let ghost v = self@;
        let nt = self.num_terms;
        let zu = z as usize;
        let mut r: Vec<(u32, u64)> = Vec::new();
        while r.len() < n
            invariant
                self.wf(),
                v == self@,
                nt == v.num_terms,
                zu == z,
                z < v.num_topics,
                r@.len() <= n,
                forall|j: int|
                    0 <= j < r@.len() ==> 0 < (#[trigger] r@[j]).0 < v.num_terms && r@[j].1
                        == v.topic_word_count(z as int, r@[j].0 as int) && r@[j].1 > 0,
                forall|j: int, l: int|
                    0 <= j < l < r@.len() ==> ranks_before(
                        (#[trigger] r@[j]).1 as int,
                        r@[j].0 as int,
                        (#[trigger] r@[l]).1 as int,
                        r@[l].0 as int,
                    ),
                forall|w: int|
                    0 < w < v.num_terms && #[trigger] v.topic_word_count(z as int, w) > 0 && !after_last(
                        r@,
                        v.topic_word_count(z as int, w) as int,
                        w,
                    ) ==> listed(r@, w),
            decreases n - r@.len(),
        {
            let mut best: Option<(u32, u64)> = None;
            let mut w: u32 = 1;
            while w < nt
                invariant
                    self.wf(),
                    v == self@,
                    nt == v.num_terms,
                    zu == z,
                    z < v.num_topics,
                    1 <= w <= nt,
                    best matches Some(b) ==> 0 < b.0 < w && b.1 == v.topic_word_count(z as int, b.0 as int)
                        && b.1 > 0 && after_last(r@, b.1 as int, b.0 as int),
                    forall|x: int|
                        0 < x < w && #[trigger] v.topic_word_count(z as int, x) > 0 && after_last(
                            r@,
                            v.topic_word_count(z as int, x) as int,
                            x,
                        ) ==> (best matches Some(b) && !ranks_before(
                            v.topic_word_count(z as int, x) as int,
                            x,
                            b.1 as int,
                            b.0 as int,
                        )),
                decreases nt - w,
            {
                let c = self.topic_word[zu][w as usize];
                let fits = if r.len() == 0 {
                    true
                } else {
                    let last = r[r.len() - 1];
                    last.1 > c || (last.1 == c && last.0 < w)
                };
                if c > 0 && fits {
                    let better = match best {
                        None => true,
                        Some(b) => c > b.1 || (c == b.1 && w < b.0),
                    };
                    if better {
                        best = Some((w, c));
                    }
                }
                w = w + 1;
            }
            match best {
                None => {
                    proof {
                        assert forall|x: int|
                            0 < x < v.num_terms && #[trigger] v.topic_word_count(z as int, x) > 0 && !listed(
                                r@,
                                x,
                            ) implies r@.len() == n && after_last(
                            r@,
                            v.topic_word_count(z as int, x) as int,
                            x,
                        ) by {
                            assert(!after_last(r@, v.topic_word_count(z as int, x) as int, x));
                        }
                    }
                    return r;
                },
                Some(b) => {
                    let ghost old_r = r@;
                    r.push(b);
                    proof {
                        assert(r@.last() == b);
                        assert forall|j: int| 0 <= j < old_r.len() implies #[trigger] r@[j] == old_r[j] by {}
                        assert forall|x: int|
                            0 < x < v.num_terms && #[trigger] v.topic_word_count(z as int, x) > 0
                                && !after_last(r@, v.topic_word_count(z as int, x) as int, x) implies listed(
                            r@,
                            x,
                        ) by {
                            let cx = v.topic_word_count(z as int, x) as int;
                            if x == b.0 {
                                assert(r@[old_r.len() as int].0 == x);
                            } else if old_r.len() > 0 && x == old_r.last().0 {
                                assert(r@[old_r.len() - 1].0 == x);
                            } else if !after_last(old_r, cx, x) {
                                let j = choose|j: int| 0 <= j < old_r.len() && old_r[j].0 == x;
                                assert(r@[j].0 == x);
                            } else {
                                assert(false);
                            }
                        }
                    }
                },
            }
        }
        proof {
            assert forall|x: int|
                0 < x < v.num_terms && #[trigger] v.topic_word_count(z as int, x) > 0 && !listed(r@, x) implies r@.len()
                == n && after_last(r@, v.topic_word_count(z as int, x) as int, x) by {
                if r@.len() > 0 && x == r@.last().0 {
                    assert(r@[r@.len() - 1].0 == x);
                }
            }
        }
        r
    }
}

} // verus!
