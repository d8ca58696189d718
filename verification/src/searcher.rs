//! Running queries over an index of either layout.
//!
//! Short queries are evaluated by Block-Max WAND, long ones by MaxScore; both
//! are exact. Query terms that match nothing are corrected toward the
//! vocabulary first.

use crate::block_max_wand;
use crate::block_max_wand::{SearchHit, SearchStats};
use crate::embeddings::EmbeddingStore;
use crate::hybrid::SegmentStores;
use crate::indexer::{Index, SearchableIndex};
use crate::ivf::IvfIndex;
use crate::maxscore;
use crate::pq::PqIndex;
use crate::segments;
use crate::segments::{SegmentHit, SegmentedIndex, MAXSCORE_MIN_TERMS};
use crate::spell;
use crate::spell::SpellCorrector;
use crate::sums;
use crate::text;
use crate::work;
use crate::work::{Pruning, Work};
use vstd::prelude::*;

verus! {

/// One result, as it is shown.
pub struct SearchResult {
    pub id: String,
    pub score: u64,
    pub title: String,
}

/// The results of a query.
pub struct SearchOutcome {
    pub results: Vec<SearchResult>,
    pub stats: SearchStats,
    /// The query that was run instead, if terms were corrected.
    pub corrected: Option<String>,
}

// ---------------------------------------------------------------------------
// Terms
// ---------------------------------------------------------------------------

/// The texts at some positions.
pub open spec fn picked(texts: Seq<Seq<char>>, positions: Seq<int>) -> Seq<Seq<char>> {
    Seq::new(positions.len(), |i: int| texts[positions[i]])
}

/// Each text once, where it stands first.
pub open spec fn distinct(texts: Seq<Seq<char>>) -> Seq<Seq<char>> {
    picked(texts, block_max_wand::firsts(texts))
}

/// The distinct tokens of a query, in the order in which they are seen.
pub fn query_terms(tokens: &[String]) -> (terms: Vec<String>)
    ensures
        block_max_wand::texts(terms@) == distinct(block_max_wand::texts(tokens@)),
        terms@.len() <= tokens@.len(),
{
    let at = block_max_wand::first_positions(tokens);
    let ghost all = block_max_wand::texts(tokens@);
    let mut terms: Vec<String> = Vec::new();
    let mut i: usize = 0;
    proof {
        block_max_wand::lemma_firsts_len(all);
    }
    while i < at.len()
        invariant
            all == block_max_wand::texts(tokens@),
            at@.len() == block_max_wand::firsts(all).len(),
            forall|j: int|
                0 <= j < at@.len() ==> #[trigger] at@[j] == block_max_wand::firsts(all)[j],
            forall|j: int| 0 <= j < at@.len() ==> #[trigger] at@[j] < tokens@.len(),
            i <= at@.len(),
            terms@.len() == i,
            forall|j: int| 0 <= j < i ==> (#[trigger] terms@[j])@ == distinct(all)[j],
        decreases at@.len() - i,
    {
        assert(at@[i as int] == block_max_wand::firsts(all)[i as int]);
        terms.push(tokens[at[i]].clone());
        i += 1;
    }
    assert(block_max_wand::texts(terms@) =~= distinct(all));
    terms
}

proof fn lemma_firsts_valid(texts: Seq<Seq<char>>)
    ensures
        forall|i: int|
            0 <= i < block_max_wand::firsts(texts).len() ==> 0 <= #[trigger] block_max_wand::firsts(
                texts,
            )[i] < texts.len(),
        forall|t: Seq<char>| texts.contains(t) == #[trigger] distinct(texts).contains(t),
        distinct(texts).no_duplicates(),
    decreases texts.len(),
{
    let f = block_max_wand::firsts(texts);
    let d = distinct(texts);
    if texts.len() > 0 {
        let front = texts.drop_last();
        lemma_firsts_valid(front);
        let g = block_max_wand::firsts(front);
        let e = distinct(front);
        if front.contains(texts.last()) {
            assert(d =~= e) by {
                assert forall|i: int| 0 <= i < g.len() implies d[i] == e[i] by {
                    assert(0 <= g[i] < front.len());
                }
            }
        } else {
            assert(d =~= e.push(texts.last())) by {
                assert forall|i: int| 0 <= i < g.len() implies d[i] == e[i] by {
                    assert(0 <= g[i] < front.len());
                }
            }
            assert(!e.contains(texts.last()));
        }
        assert forall|t: Seq<char>| texts.contains(t) == #[trigger] d.contains(t) by {
            assert(texts =~= front.push(texts.last()));
            if texts.contains(t) {
                let i = choose|i: int| 0 <= i < texts.len() && texts[i] == t;
                if i < front.len() {
                    assert(front[i] == t);
                    assert(e.contains(t));
                    let j = choose|j: int| 0 <= j < e.len() && e[j] == t;
                    assert(d[j] == t);
                } else if front.contains(texts.last()) {
                    assert(e.contains(t));
                } else {
                    assert(d[e.len() as int] == t);
                }
            }
            if d.contains(t) {
                let j = choose|j: int| 0 <= j < d.len() && d[j] == t;
                if j < e.len() {
                    assert(e[j] == t);
                    assert(front.contains(t));
                    let i = choose|i: int| 0 <= i < front.len() && front[i] == t;
                    assert(texts[i] == t);
                } else {
                    assert(texts[texts.len() - 1] == t);
                }
            }
        }
    } else {
        assert forall|t: Seq<char>| texts.contains(t) == #[trigger] d.contains(t) by {}
    }
}

/// The positions of first occurrence in texts that differ are all positions.
proof fn lemma_firsts_of_distinct(texts: Seq<Seq<char>>)
    requires
        texts.no_duplicates(),
    ensures
        block_max_wand::firsts(texts) == Seq::new(texts.len(), |i: int| i),
    decreases texts.len(),
{
    let all = Seq::new(texts.len(), |i: int| i);
    if texts.len() > 0 {
        let front = texts.drop_last();
        lemma_firsts_of_distinct(front);
        if front.contains(texts.last()) {
            let i = choose|i: int| 0 <= i < front.len() && front[i] == texts.last();
            assert(texts[i] == texts[texts.len() - 1]);
        }
    }
    assert(block_max_wand::firsts(texts) =~= all);
}

/// Picking texts and then all of them gives the models of the texts picked.
proof fn lemma_models_of_picked<I: SearchableIndex + ?Sized>(
    index: &I,
    texts: Seq<Seq<char>>,
    positions: Seq<int>,
)
    ensures
        block_max_wand::models_at(
            index,
            picked(texts, positions),
            Seq::new(positions.len(), |i: int| i),
        ) == block_max_wand::models_at(index, texts, positions),
    decreases positions.len(),
{
    let n = positions.len();
    let all = Seq::new(n, |i: int| i);
    if n > 0 {
        let front = positions.drop_last();
        lemma_models_of_picked(index, texts, front);
        let shorter = Seq::new(front.len(), |i: int| i);
        assert(all.drop_last() =~= shorter);
        lemma_models_prefix(index, picked(texts, positions), picked(texts, front), shorter);
        assert(all.last() == n - 1);
        assert(picked(texts, positions)[n - 1] == texts[positions.last()]);
    }
}

proof fn lemma_models_prefix<I: SearchableIndex + ?Sized>(
    index: &I,
    a: Seq<Seq<char>>,
    b: Seq<Seq<char>>,
    positions: Seq<int>,
)
    requires
        forall|i: int| 0 <= i < positions.len() ==> a[#[trigger] positions[i]] == b[positions[i]],
    ensures
        block_max_wand::models_at(index, a, positions) == block_max_wand::models_at(
            index,
            b,
            positions,
        ),
    decreases positions.len(),
{
    if positions.len() > 0 {
        let front = positions.drop_last();
        assert forall|i: int| 0 <= i < front.len() implies a[#[trigger] front[i]] == b[front[i]] by {
            assert(front[i] == positions[i]);
        }
        lemma_models_prefix(index, a, b, front);
        assert(a[positions[positions.len() - 1]] == b[positions[positions.len() - 1]]);
    }
}

/// Repeated terms do not count: a query scores as its distinct terms do.
pub proof fn law_repeats_do_not_count<I: SearchableIndex + ?Sized>(
    index: &I,
    texts: Seq<Seq<char>>,
)
    ensures
        block_max_wand::query_models(index, distinct(texts)) == block_max_wand::query_models(
            index,
            texts,
        ),
{
    lemma_firsts_valid(texts);
    lemma_firsts_of_distinct(distinct(texts));
    lemma_models_of_picked(index, texts, block_max_wand::firsts(texts));
}

/// A query that repeats its terms has the answers of its distinct terms.
pub proof fn law_repeats_change_no_answer<I: SearchableIndex + ?Sized>(
    index: &I,
    texts: Seq<Seq<char>>,
    k: nat,
    pruning: Pruning,
    hits: Seq<SearchHit>,
    stats: SearchStats,
)
    ensures
        block_max_wand::answers_search(index, texts, k, pruning, hits, stats)
            == block_max_wand::answers_search(index, distinct(texts), k, pruning, hits, stats),
{
    law_repeats_do_not_count(index, texts);
    lemma_firsts_valid(texts);
    lemma_firsts_of_distinct(distinct(texts));
}

/// A query has one answer: hits and counters are a function of the index, of
/// the distinct terms and of `k`. Asked for no document, a search finds none
/// and does no work.
pub proof fn law_one_answer<I: SearchableIndex + ?Sized>(
    index: &I,
    texts: Seq<Seq<char>>,
    others: Seq<Seq<char>>,
    k: nat,
    pruning: Pruning,
    hits: Seq<SearchHit>,
    stats: SearchStats,
    other_hits: Seq<SearchHit>,
    other_stats: SearchStats,
)
    requires
        distinct(texts) == distinct(others),
        block_max_wand::answers_search(index, texts, k, pruning, hits, stats),
        block_max_wand::answers_search(index, others, k, pruning, other_hits, other_stats),
    ensures
        hits == other_hits,
        stats == other_stats,
        stats.num_query_terms == distinct(texts).len(),
        k == 0 ==> hits.len() == 0 && work::counts(stats, work::idle()),
{
    law_repeats_do_not_count(index, texts);
    law_repeats_do_not_count(index, others);
    block_max_wand::law_top_k_unique(
        hits,
        other_hits,
        block_max_wand::query_models(index, texts),
        index.lens(),
        block_max_wand::dead_of(index),
        k,
    );
}

// ---------------------------------------------------------------------------
// One index
// ---------------------------------------------------------------------------

/// Exact top-k of the documents of an index.
pub fn search_hits<I: SearchableIndex + ?Sized>(index: &I, tokens: &[String], k: usize) -> (r: (
    Vec<SearchHit>,
    SearchStats,
))
    requires
        index.wf(),
    ensures
        block_max_wand::answers_search(
            index,
            block_max_wand::texts(tokens@),
            k as nat,
            segments::pruning_for(distinct(block_max_wand::texts(tokens@)).len()),
            r.0@,
            r.1,
        ),
{
    let terms = query_terms(tokens);
    proof {
        let all = block_max_wand::texts(tokens@);
        law_repeats_do_not_count(index, all);
        lemma_firsts_valid(all);
        lemma_firsts_of_distinct(distinct(all));
    }
    if terms.len() >= MAXSCORE_MIN_TERMS {
        maxscore::search(index, terms.as_slice(), k)
    } else {
        block_max_wand::search(index, terms.as_slice(), k)
    }
}

/// What is found exists.
pub proof fn lemma_found_exists<I: SearchableIndex + ?Sized>(
    index: &I,
    texts: Seq<Seq<char>>,
    positions: Seq<int>,
    d: u32,
)
    requires
        index.wf(),
        exists|j: int|
            0 <= j < block_max_wand::models_at(index, texts, positions).len()
                && #[trigger] block_max_wand::holds(
                block_max_wand::models_at(index, texts, positions)[j],
                d,
            ),
    ensures
        d < index.lens().len(),
    decreases positions.len(),
{
    let models = block_max_wand::models_at(index, texts, positions);
    let j = choose|j: int|
        0 <= j < models.len() && #[trigger] block_max_wand::holds(models[j], d);
    if positions.len() > 0 {
        let front = block_max_wand::models_at(index, texts, positions.drop_last());
        if j < front.len() {
            assert(block_max_wand::holds(front[j], d));
            lemma_found_exists(index, texts, positions.drop_last(), d);
        } else {
            index.lemma_docs_exist(texts[positions.last()]);
            let i = choose|i: int| block_max_wand::stands_at(models[j], i, d);
            assert(models[j].list[i].doc_id == d);
        }
    }
}

/// The work of a query over one index.
pub open spec fn search_work<I: SearchableIndex + ?Sized>(
    index: &I,
    texts: Seq<Seq<char>>,
    k: nat,
) -> Work {
    work::work_of(
        block_max_wand::query_of(
            index,
            texts,
            k,
            segments::pruning_for(distinct(texts).len()),
        ),
    )
}

/// The results are the hits, with id and title.
pub open spec fn shows<I: SearchableIndex + ?Sized>(
    index: &I,
    hits: Seq<SearchHit>,
    results: Seq<SearchResult>,
) -> bool {
    &&& results.len() == hits.len()
    &&& forall|i: int|
        0 <= i < hits.len() ==> {
            let r = #[trigger] results[i];
            &&& r.score == hits[i].score
            &&& r.id@ == index.summary(hits[i].doc_id).0
            &&& r.title@ == index.summary(hits[i].doc_id).1
        }
}

/// The answer to a query over one index.
pub open spec fn answers<I: SearchableIndex + ?Sized>(
    index: &I,
    texts: Seq<Seq<char>>,
    k: nat,
    results: Seq<SearchResult>,
) -> bool {
    exists|hits: Seq<SearchHit>| #[trigger]
        shows(index, hits, results) && block_max_wand::is_top_k(
            hits,
            block_max_wand::query_models(index, texts),
            index.lens(),
            block_max_wand::dead_of(index),
            k,
        )
}

/// Run a query, and show the documents found.
pub fn search<I: SearchableIndex + ?Sized>(index: &I, tokens: &[String], k: usize) -> (o:
    SearchOutcome)
    requires
        index.wf(),
    ensures
        answers(index, block_max_wand::texts(tokens@), k as nat, o.results@),
        o.stats.num_docs_total == index.lens().len(),
        o.stats.num_query_terms == distinct(block_max_wand::texts(tokens@)).len(),
        work::counts(
            o.stats,
            search_work(index, block_max_wand::texts(tokens@), k as nat),
        ),
        block_max_wand::worked_for(o.stats, o.results@.len()),
        o.stats.num_docs_scored <= index.lens().len(),
        block_max_wand::work_bounded(
            o.stats,
            block_max_wand::query_models(index, block_max_wand::texts(tokens@)),
        ),
        o.corrected is None,
{
    let (hits, stats) = search_hits(index, tokens, k);
    let mut results: Vec<SearchResult> = Vec::new();
    let n: usize = hits.len();
    let mut i: usize = 0;
    while i < n
        invariant
            index.wf(),
            i <= n == hits@.len(),
            block_max_wand::is_top_k(
                hits@,
                block_max_wand::query_models(index, block_max_wand::texts(tokens@)),
                index.lens(),
                block_max_wand::dead_of(index),
                k as nat,
            ),
            results@.len() == i,
            forall|j: int|
                0 <= j < i ==> {
                    let r = #[trigger] results@[j];
                    &&& r.score == hits@[j].score
                    &&& r.id@ == index.summary(hits@[j].doc_id).0
                    &&& r.title@ == index.summary(hits@[j].doc_id).1
                },
        decreases n - i,
    {
        let h: SearchHit = hits[i];
        assert(h == hits@[i as int]);
        proof {
            let texts = block_max_wand::texts(tokens@);
            lemma_found_exists(index, texts, block_max_wand::firsts(texts), h.doc_id);
        }
        let s = index.doc_summary(h.doc_id);
        results.push(SearchResult { id: s.id, score: h.score, title: s.title });
        i += 1;
    }
    assert(shows(index, hits@, results@));
    SearchOutcome { results, stats, corrected: None }
}

// ---------------------------------------------------------------------------
// Either layout
// ---------------------------------------------------------------------------

/// The layout of an index: one immutable index, or segments that can be
/// added to.
pub enum IndexKind {
    Single(Box<Index>),
    Segmented(SegmentedIndex),
}

impl IndexKind {
    pub open spec fn wf(&self) -> bool {
        match self {
            IndexKind::Single(index) => index.wf(),
            IndexKind::Segmented(index) => index.wf(),
        }
    }

    /// How many documents are searched.
    pub open spec fn searched(&self) -> nat {
        match self {
            IndexKind::Single(index) => index.docs@.len(),
            IndexKind::Segmented(index) => segments::live_docs(index.segments@),
        }
    }

    /// How many documents hold the term.
    pub open spec fn df(&self, t: Seq<char>) -> nat {
        match self {
            IndexKind::Single(index) => index.postings_of(t).len(),
            IndexKind::Segmented(index) => segments::global_df(index.segments@, t),
        }
    }

    /// The vocabulary can be corrected toward: there are not too many terms,
    /// and no count overflows.
    pub open spec fn correctable(&self) -> bool {
        &&& forall|t: Seq<char>| #[trigger] self.df(t) <= u32::MAX
        &&& match self {
            IndexKind::Single(index) => index.terms@.len() <= u32::MAX,
            IndexKind::Segmented(index) => segments::all_names(
                index.segments@,
                index.segments@.len() as int,
            ).len() <= u32::MAX,
        }
    }
}

/// `fix` is the correction of `word`: a frequent term within its budget, and
/// none is closer, or as close and more frequent.
pub open spec fn is_fix(kind: IndexKind, word: Seq<char>, fix: Seq<char>) -> bool {
    &&& kind.df(fix) >= spell::MIN_DF
    &&& spell::corrects(word, fix)
    &&& forall|t: Seq<char>|
        #[trigger] kind.df(t) >= spell::MIN_DF && spell::corrects(word, t) ==> spell::no_worse(
            word,
            (fix, kind.df(fix) as u32),
            (t, kind.df(t) as u32),
        )
}

/// `word` matches nothing, and there is a correction.
pub open spec fn needs_fix(kind: IndexKind, word: Seq<char>) -> bool {
    kind.df(word) == 0 && exists|t: Seq<char>|
        #[trigger] kind.df(t) >= spell::MIN_DF && spell::corrects(word, t)
}

/// `out` are `terms`, those that need it corrected.
pub open spec fn is_rewriting(
    kind: IndexKind,
    terms: Seq<Seq<char>>,
    out: Seq<Seq<char>>,
) -> bool {
    &&& out.len() == terms.len()
    &&& forall|i: int|
        0 <= i < terms.len() ==> if needs_fix(kind, terms[i]) {
            is_fix(kind, terms[i], #[trigger] out[i])
        } else {
            out[i] == terms[i]
        }
}

/// Some term is corrected.
pub open spec fn rewrites(kind: IndexKind, terms: Seq<Seq<char>>) -> bool {
    exists|i: int| 0 <= i < terms.len() && needs_fix(kind, #[trigger] terms[i])
}

/// The results are the hits in the segments, with id and title.
pub open spec fn shows_in(
    index: SegmentedIndex,
    hits: Seq<SegmentHit>,
    results: Seq<SearchResult>,
) -> bool {
    &&& results.len() == hits.len()
    &&& forall|i: int|
        0 <= i < hits.len() ==> {
            let r = #[trigger] results[i];
            let doc = index.segments@[hits[i].segment as int].index.docs@[hits[i].doc_id as int];
            &&& r.score == hits[i].score
            &&& r.id@ == doc.external_id@
            &&& r.title@ == doc.title@
        }
}

/// The answer to a query over an index of either layout.
pub open spec fn answers_any(
    kind: IndexKind,
    texts: Seq<Seq<char>>,
    k: nat,
    results: Seq<SearchResult>,
) -> bool {
    match kind {
        IndexKind::Single(index) => answers(&*index, texts, k, results),
        IndexKind::Segmented(index) => exists|hits: Seq<SegmentHit>| #[trigger]
            shows_in(index, hits, results) && segments::is_global_top_k(
                hits,
                index.segments@,
                distinct(texts),
                k,
            ),
    }
}

/// The counters of a query over an index of either layout.
pub open spec fn counts_any(
    kind: IndexKind,
    texts: Seq<Seq<char>>,
    k: nat,
    stats: SearchStats,
) -> bool {
    &&& stats.num_docs_total == kind.searched()
    &&& stats.num_query_terms == distinct(texts).len()
    &&& work::counts(
        stats,
        match kind {
            IndexKind::Single(index) => search_work(&*index, texts, k),
            IndexKind::Segmented(index) => segments::segments_work(
                index.segments@,
                distinct(texts),
                k,
                index.segments@.len() as int,
            ),
        },
    )
}

/// The vocabulary of a corrector is that of the index.
pub open spec fn knows(kind: IndexKind, vocabulary: Seq<(Seq<char>, u32)>) -> bool {
    &&& forall|i: int|
        0 <= i < vocabulary.len() ==> {
            &&& (#[trigger] vocabulary[i]).1 == kind.df(vocabulary[i].0)
            &&& vocabulary[i].1 >= spell::MIN_DF
        }
    &&& forall|t: Seq<char>| #[trigger]
        kind.df(t) >= spell::MIN_DF ==> exists|i: int|
            0 <= i < vocabulary.len() && (#[trigger] vocabulary[i]).0 == t
}

/// Some entry of `vocab` is `e`.
spec fn has_entry(vocab: Seq<(String, u32)>, e: (Seq<char>, u32)) -> bool {
    exists|j: int| 0 <= j < vocab.len() && (#[trigger] vocab[j]).0@ == e.0 && vocab[j].1 == e.1
}

/// An entry is a correction target if it is frequent enough.
proof fn lemma_targets(vocab: Seq<(String, u32)>)
    ensures
        forall|i: int|
            0 <= i < spell::targets(vocab).len() ==> has_entry(
                vocab,
                #[trigger] spell::targets(vocab)[i],
            ) && spell::targets(vocab)[i].1 >= spell::MIN_DF,
        forall|j: int|
            0 <= j < vocab.len() && (#[trigger] vocab[j]).1 >= spell::MIN_DF ==> spell::targets(
                vocab,
            ).contains((vocab[j].0@, vocab[j].1)),
    decreases vocab.len(),
{
    let all = spell::targets(vocab);
    if vocab.len() > 0 {
        let front = vocab.drop_last();
        lemma_targets(front);
        let t = spell::targets(front);
        assert forall|i: int| 0 <= i < all.len() implies has_entry(vocab, #[trigger] all[i])
            && all[i].1 >= spell::MIN_DF by {
            if i < t.len() {
                assert(t[i] == all[i]);
                assert(has_entry(front, t[i]));
                let j = choose|j: int|
                    0 <= j < front.len() && (#[trigger] front[j]).0@ == t[i].0 && front[j].1
                        == t[i].1;
                assert(vocab[j] == front[j]);
            } else {
                assert(vocab[vocab.len() - 1].0@ == all[i].0);
            }
        }
        assert forall|j: int|
            0 <= j < vocab.len() && (#[trigger] vocab[j]).1 >= spell::MIN_DF implies all.contains(
            (vocab[j].0@, vocab[j].1),
        ) by {
            if j < front.len() {
                assert(front[j] == vocab[j]);
                let e = (front[j].0@, front[j].1);
                assert(t.contains(e));
                let i = choose|i: int| 0 <= i < t.len() && t[i] == e;
                assert(all[i] == e);
            } else {
                assert(all[t.len() as int] == (vocab[j].0@, vocab[j].1));
            }
        }
    }
}

/// The documents of a query model exist.
pub proof fn lemma_segment_docs(
    segment: segments::Segment,
    idfs: Seq<(Seq<char>, u32)>,
    avg: u32,
    terms: Seq<Seq<char>>,
    positions: Seq<int>,
    d: u32,
)
    requires
        segment.index.wf(),
        exists|j: int|
            0 <= j < segments::seen_models(segment, idfs, avg, terms, positions).len()
                && #[trigger] block_max_wand::holds(
                segments::seen_models(segment, idfs, avg, terms, positions)[j],
                d,
            ),
    ensures
        d < segment.index.docs@.len(),
    decreases positions.len(),
{
    let models = segments::seen_models(segment, idfs, avg, terms, positions);
    let j = choose|j: int|
        0 <= j < models.len() && #[trigger] block_max_wand::holds(models[j], d);
    if positions.len() > 0 {
        let front = segments::seen_models(segment, idfs, avg, terms, positions.drop_last());
        if j < front.len() {
            assert(block_max_wand::holds(front[j], d));
            lemma_segment_docs(segment, idfs, avg, terms, positions.drop_last(), d);
        } else {
            segment.index.lemma_docs_exist(terms[positions.last()]);
            let i = choose|i: int| block_max_wand::stands_at(models[j], i, d);
            assert(models[j].list[i].doc_id == d);
        }
    }
}

/// A search handle over an index of either layout, with its sidecars.
pub struct AnyIndex {
    pub kind: IndexKind,
    pub code_mode: bool,
    pub size: u64,
    pub seg_stores: Option<SegmentStores>,
    pub embeddings: Option<EmbeddingStore>,
    pub ivf: Option<IvfIndex>,
    pub pq: Option<PqIndex>,
    /// Built on the first query with a term that matches nothing.
    pub spell: Option<SpellCorrector>,
}

/// Vectors count only if there is one for each document.
pub open spec fn fresh(store: Option<EmbeddingStore>, num_docs: int) -> Option<EmbeddingStore> {
    match store {
        Some(s) => if s.num_docs == num_docs {
            store
        } else {
            None
        },
        None => None,
    }
}

fn keep_fresh(store: Option<EmbeddingStore>, num_docs: usize) -> (r: Option<EmbeddingStore>)
    ensures
        r == fresh(store, num_docs as int),
{
    match store {
        Some(s) => {
            if s.num_docs as u64 == num_docs as u64 {
                Some(s)
            } else {
                None
            }
        },
        None => None,
    }
}

/// The vectors of the segments that are kept: none if no segment has any.
pub open spec fn is_fresh_stores(
    kind: IndexKind,
    stores: Seq<Option<EmbeddingStore>>,
    r: Option<SegmentStores>,
) -> bool {
    match kind {
        IndexKind::Single(_) => r is None,
        IndexKind::Segmented(index) => {
            let kept = Seq::new(
                stores.len(),
                |i: int| fresh(stores[i], index.segments@[i].index.docs@.len() as int),
            );
            if exists|i: int| 0 <= i < kept.len() && (#[trigger] kept[i]) is Some {
                r matches Some(s) && s.stores@ == kept
            } else {
                r is None
            }
        },
    }
}

impl AnyIndex {
    pub open spec fn wf(&self) -> bool {
        &&& self.kind.wf()
        &&& self.kind.correctable()
        &&& self.spell matches Some(c) ==> c.wf() && knows(self.kind, c.vocabulary())
    }

    /// A handle over an index and the sidecars found beside it. Vectors that
    /// do not match the documents are left behind by an older build, and are
    /// dropped.
    pub fn open(
        kind: IndexKind,
        code_mode: bool,
        size: u64,
        embeddings: Option<EmbeddingStore>,
        ivf: Option<IvfIndex>,
        pq: Option<PqIndex>,
        stores: Vec<Option<EmbeddingStore>>,
    ) -> (a: AnyIndex)
        requires
            kind.wf(),
            kind.correctable(),
            kind matches IndexKind::Segmented(index) ==> stores@.len() == index.segments@.len(),
        ensures
            a.wf(),
            a.kind == kind,
            a.code_mode == code_mode,
            a.size == size,
            a.ivf == ivf,
            a.pq == pq,
            a.spell is None,
            a.embeddings == match kind {
                IndexKind::Single(index) => fresh(embeddings, index.docs@.len() as int),
                IndexKind::Segmented(_) => embeddings,
            },
            is_fresh_stores(kind, stores@, a.seg_stores),
    {
        let (embeddings, seg_stores) = match &kind {
            IndexKind::Single(index) => (keep_fresh(embeddings, index.docs.len()), None),
            IndexKind::Segmented(index) => {
                let ghost kept = Seq::new(
                    stores@.len(),
                    |i: int| fresh(stores@[i], index.segments@[i].index.docs@.len() as int),
                );
                let mut rest: Vec<Option<EmbeddingStore>> = stores;
                let mut back: Vec<Option<EmbeddingStore>> = Vec::new();
                let mut some: bool = false;
                let n: usize = rest.len();
                let ghost all = rest@;
                while rest.len() > 0
                    invariant
                        all.len() == n == index.segments@.len(),
                        rest@.len() + back@.len() == n,
                        rest@ == all.take(rest@.len() as int),
                        kept == Seq::new(
                            n as nat,
                            |i: int| fresh(all[i], index.segments@[i].index.docs@.len() as int),
                        ),
                        forall|j: int|
                            0 <= j < back@.len() ==> #[trigger] back@[j] == kept[n - 1 - j],
                        some == (exists|i: int| rest@.len() <= i < n && (#[trigger] kept[i]) is Some),
                    decreases rest@.len(),
                {
                    if let Some(store) = rest.pop() {
                        let at: usize = rest.len();
                        let kind_of = keep_fresh(store, index.segments[at].index.docs.len());
                        assert(kind_of == kept[at as int]);
                        if kind_of.is_some() {
                            some = true;
                        }
                        back.push(kind_of);
                    }
                }
                let mut out: Vec<Option<EmbeddingStore>> = Vec::new();
                let ghost backs = back@;
                while back.len() > 0
                    invariant
                        backs.len() == n == kept.len(),
                        back@.len() + out@.len() == n,
                        back@ == backs.take(back@.len() as int),
                        forall|j: int| 0 <= j < n ==> #[trigger] backs[j] == kept[n - 1 - j],
                        forall|i: int| 0 <= i < out@.len() ==> #[trigger] out@[i] == kept[i],
                    decreases back@.len(),
                {
                    let ghost at = back@.len() - 1;
                    if let Some(store) = back.pop() {
                        assert(store == backs[at]);
                        out.push(store);
                    }
                }
                assert(out@ =~= kept);
                let seg: Option<SegmentStores> = if some {
                    Some(SegmentStores { stores: out })
                } else {
                    None
                };
                (embeddings, seg)
            },
        };
        AnyIndex { kind, code_mode, size, seg_stores, embeddings, ivf, pq, spell: None }
    }

    pub fn embeddings(&self) -> (r: Option<&EmbeddingStore>)
        ensures
            r is Some == self.embeddings is Some,
            r matches Some(s) ==> self.embeddings == Some(*s),
    {
        self.embeddings.as_ref()
    }

    /// The vectors of the segments.
    pub fn segment_stores(&self) -> (r: Option<&SegmentStores>)
        ensures
            r is Some == self.seg_stores is Some,
            r matches Some(s) ==> self.seg_stores == Some(*s),
    {
        self.seg_stores.as_ref()
    }

    /// Are there vectors of some form?
    pub fn has_vectors(&self) -> (r: bool)
        ensures
            r == (self.embeddings is Some || self.seg_stores is Some),
    {
        self.embeddings.is_some() || self.seg_stores.is_some()
    }

    pub fn ivf(&self) -> (r: Option<&IvfIndex>)
        ensures
            r is Some == self.ivf is Some,
            r matches Some(s) ==> self.ivf == Some(*s),
    {
        self.ivf.as_ref()
    }

    pub fn pq(&self) -> (r: Option<&PqIndex>)
        ensures
            r is Some == self.pq is Some,
            r matches Some(s) ==> self.pq == Some(*s),
    {
        self.pq.as_ref()
    }

    pub fn kind(&self) -> (r: &IndexKind)
        ensures
            *r == self.kind,
    {
        &self.kind
    }

    pub fn remove_stopwords(&self) -> (r: bool)
        ensures
            r == match self.kind {
                IndexKind::Single(index) => index.remove_stopwords,
                IndexKind::Segmented(index) => index.remove_stopwords,
            },
    {
        match &self.kind {
            IndexKind::Single(index) => index.remove_stopwords(),
            IndexKind::Segmented(index) => index.remove_stopwords(),
        }
    }

    pub fn code_mode(&self) -> (r: bool)
        ensures
            r == match self.kind {
                IndexKind::Single(_) => self.code_mode,
                IndexKind::Segmented(index) => index.code_mode,
            },
    {
        match &self.kind {
            IndexKind::Single(_) => self.code_mode,
            IndexKind::Segmented(index) => index.code_mode(),
        }
    }

    /// How many documents hold the term: 0 if it matches nothing.
    pub fn term_df(&self, term: &str) -> (df: u64)
        requires
            self.kind.wf(),
        ensures
            df == self.kind.df(term@),
    {
        match &self.kind {
            IndexKind::Single(index) => match index.posting_list_for(term) {
                Some(list) => list.postings.len() as u64,
                None => 0,
            },
            IndexKind::Segmented(index) => index.term_df(term),
        }
    }

    pub fn num_docs(&self) -> (n: u64)
        requires
            self.kind.wf(),
        ensures
            n == self.kind.searched(),
    {
        match &self.kind {
            IndexKind::Single(index) => index.docs.len() as u64,
            IndexKind::Segmented(index) => index.num_docs_live(),
        }
    }

    pub fn size_bytes(&self) -> (n: u64)
        ensures
            n == self.size,
    {
        self.size
    }

    pub fn as_single(&self) -> (r: Option<&Index>)
        ensures
            match self.kind {
                IndexKind::Single(index) => r == Some(&*index),
                IndexKind::Segmented(_) => r is None,
            },
    {
        match &self.kind {
            IndexKind::Single(index) => Some(index),
            IndexKind::Segmented(_) => None,
        }
    }
}

/// A sum that is not zero has a part that is not.
proof fn lemma_some_part(f: spec_fn(int) -> nat, n: nat) -> (i: int)
    requires
        sums::total(f, n) > 0,
    ensures
        0 <= i < n,
        f(i) > 0,
    decreases n,
{
    if f(n - 1) > 0 {
        n - 1
    } else {
        lemma_some_part(f, (n - 1) as nat)
    }
}

/// Every term that occurs is listed, with the number of its documents.
spec fn lists_terms(kind: IndexKind, vocab: Seq<(String, u32)>) -> bool {
    &&& forall|i: int|
        0 <= i < vocab.len() ==> (#[trigger] vocab[i]).1 == kind.df(vocab[i].0@) && vocab[i].1 > 0
    &&& forall|t: Seq<char>| #[trigger] kind.df(t) > 0 ==> has_entry(vocab, (t, kind.df(t) as u32))
}

/// List the names, with the number of documents of each.
fn list_names(index: &AnyIndex, names: &Vec<String>) -> (vocab: Vec<(String, u32)>)
    requires
        index.kind.wf(),
        index.kind.correctable(),
        names@.len() <= u32::MAX,
        forall|t: Seq<char>| #[trigger]
            index.kind.df(t) > 0 ==> exists|i: int|
                0 <= i < names@.len() && (#[trigger] names@[i])@ == t,
    ensures
        lists_terms(index.kind, vocab@),
        vocab@.len() <= names@.len(),
{
    let n: usize = names.len();
    let mut vocab: Vec<(String, u32)> = Vec::new();
    let mut i: usize = 0;
    while i < n
        invariant
            index.kind.wf(),
            index.kind.correctable(),
            i <= n == names@.len(),
            vocab@.len() <= i,
            forall|j: int|
                0 <= j < vocab@.len() ==> (#[trigger] vocab@[j]).1 == index.kind.df(vocab@[j].0@)
                    && vocab@[j].1 > 0,
            forall|j: int|
                0 <= j < i && index.kind.df((#[trigger] names@[j])@) > 0 ==> has_entry(
                    vocab@,
                    (names@[j]@, index.kind.df(names@[j]@) as u32),
                ),
        decreases n - i,
    {
        let df: u64 = index.term_df(names[i].as_str());
        let ghost before = vocab@;
        assert(index.kind.df(names@[i as int]@) <= u32::MAX);
        if df > 0 {
            vocab.push((names[i].clone(), df as u32));
        }
        proof {
            assert forall|j: int|
                0 <= j < i + 1 && index.kind.df((#[trigger] names@[j])@) > 0 implies has_entry(
                vocab@,
                (names@[j]@, index.kind.df(names@[j]@) as u32),
            ) by {
                if j < i {
                    let e = (names@[j]@, index.kind.df(names@[j]@) as u32);
                    assert(has_entry(before, e));
                    let x = choose|x: int|
                        0 <= x < before.len() && (#[trigger] before[x]).0@ == e.0 && before[x].1
                            == e.1;
                    assert(vocab@[x] == before[x]);
                } else {
                    assert(vocab@[before.len() as int].0@ == names@[j]@);
                }
            }
        }
        i += 1;
    }
    proof {
        assert forall|t: Seq<char>| #[trigger] index.kind.df(t) > 0 implies has_entry(
            vocab@,
            (t, index.kind.df(t) as u32),
        ) by {
            let i = choose|i: int| 0 <= i < names@.len() && (#[trigger] names@[i])@ == t;
            assert(names@[i]@ == t);
        }
    }
    vocab
}

impl AnyIndex {
    /// A spelling corrector over the vocabulary of the index.
    pub fn corrector(&self) -> (c: SpellCorrector)
        requires
            self.kind.wf(),
            self.kind.correctable(),
        ensures
            c.wf(),
            knows(self.kind, c.vocabulary()),
    {
        let vocab: Vec<(String, u32)> = match &self.kind {
            IndexKind::Single(index) => {
                proof {
                    assert forall|t: Seq<char>| #[trigger] self.kind.df(t) > 0 implies exists|i: int|
                        0 <= i < index.terms.names@.len() && (#[trigger] index.terms.names@[i])@
                            == t by {
                        assert(index.terms@.contains(t));
                        let at = index.terms@.index_of(t);
                        assert(index.terms.names@[at]@ == index.terms@[at]);
                    }
                }
                list_names(self, &index.terms.names)
            },
            IndexKind::Segmented(index) => {
                let dict = index.all_terms();
                proof {
                    let segs = index.segments@;
                    assert forall|t: Seq<char>| #[trigger] self.kind.df(t) > 0 implies exists|i: int|
                        0 <= i < dict.names@.len() && (#[trigger] dict.names@[i])@ == t by {
                        let si = lemma_some_part(segments::df_fn(segs, t), segs.len());
                        assert(segs[si].index.terms@.contains(t));
                        assert(dict@.contains(t));
                        let at = dict@.index_of(t);
                        assert(dict.names@[at]@ == dict@[at]);
                    }
                }
                list_names(self, &dict.names)
            },
        };
        proof {
            lemma_targets(vocab@);
            let voc = spell::targets(vocab@);
            assert forall|i: int| 0 <= i < voc.len() implies {
                &&& (#[trigger] voc[i]).1 == self.kind.df(voc[i].0)
                &&& voc[i].1 >= spell::MIN_DF
            } by {
                assert(has_entry(vocab@, voc[i]));
                let j = choose|j: int|
                    0 <= j < vocab@.len() && (#[trigger] vocab@[j]).0@ == voc[i].0 && vocab@[j].1
                        == voc[i].1;
            }
            assert forall|t: Seq<char>| #[trigger] self.kind.df(t) >= spell::MIN_DF implies exists|
                i: int,
            |
                0 <= i < voc.len() && (#[trigger] voc[i]).0 == t by {
                let e = (t, self.kind.df(t) as u32);
                assert(has_entry(vocab@, e));
                let j = choose|j: int|
                    0 <= j < vocab@.len() && (#[trigger] vocab@[j]).0@ == e.0 && vocab@[j].1 == e.1;
                assert(voc.contains((vocab@[j].0@, vocab@[j].1)));
                let i = choose|i: int| 0 <= i < voc.len() && voc[i] == (vocab@[j].0@, vocab@[j].1);
                assert(voc[i].0 == t);
            }
        }
        proof {
            spell::lemma_targets_len(vocab@);
        }
        SpellCorrector::build(vocab)
    }

    /// Run a query as it is.
    fn search_raw(&self, tokens: &[String], k: usize) -> (o: SearchOutcome)
        requires
            self.kind.wf(),
        ensures
            answers_any(self.kind, block_max_wand::texts(tokens@), k as nat, o.results@),
            counts_any(self.kind, block_max_wand::texts(tokens@), k as nat, o.stats),
            block_max_wand::worked_for(o.stats, o.results@.len()),
            o.corrected is None,
    {
        match &self.kind {
            IndexKind::Single(index) => search(&**index, tokens, k),
            IndexKind::Segmented(index) => {
                let terms = query_terms(tokens);
                let (hits, stats) = index.search_core(&terms, k);
                let ghost texts = block_max_wand::texts(tokens@);
                let mut results: Vec<SearchResult> = Vec::new();
                let n: usize = hits.len();
                let mut i: usize = 0;
                while i < n
                    invariant
                        index.wf(),
                        i <= n == hits@.len(),
                        segments::is_global_top_k(
                            hits@,
                            index.segments@,
                            distinct(texts),
                            k as nat,
                        ),
                        results@.len() == i,
                        forall|j: int|
                            0 <= j < i ==> {
                                let r = #[trigger] results@[j];
                                let doc =
                                    index.segments@[hits@[j].segment as int].index.docs@[hits@[j].doc_id as int];
                                &&& r.score == hits@[j].score
                                &&& r.id@ == doc.external_id@
                                &&& r.title@ == doc.title@
                            },
                    decreases n - i,
                {
                    let h: SegmentHit = hits[i];
                    assert(h == hits@[i as int]);
                    proof {
                        let segs = index.segments@;
                        assert(segments::segment_match(
                            segs,
                            distinct(texts),
                            h.segment as int,
                            h.doc_id,
                        ));
                        assert(segs[h.segment as int].wf(index.title_weight as nat));
                        lemma_segment_docs(
                            segs[h.segment as int],
                            segments::query_weights(segs, distinct(texts)),
                            segments::global_avg(segs) as u32,
                            distinct(texts),
                            block_max_wand::firsts(distinct(texts)),
                            h.doc_id,
                        );
                    }
                    let s = index.doc_summary_in(h.segment, h.doc_id);
                    results.push(SearchResult { id: s.id, score: h.score, title: s.title });
                    i += 1;
                }
                assert(shows_in(*index, hits@, results@));
                SearchOutcome { results, stats, corrected: None }
            },
        }
    }

    /// Run a query. Terms that match nothing are corrected toward the
    /// closest term of the vocabulary first.
    pub fn search(&mut self, tokens: &[String], k: usize) -> (o: SearchOutcome)
        requires
            old(self).wf(),
        ensures
            final(self).wf(),
            *final(self) == (AnyIndex { spell: final(self).spell, ..*old(self) }),
            block_max_wand::worked_for(o.stats, o.results@.len()),
            ({
                let kind = old(self).kind;
                let texts = block_max_wand::texts(tokens@);
                let terms = distinct(texts);
                if rewrites(kind, terms) {
                    exists|out: Seq<Seq<char>>| #[trigger]
                        is_rewriting(kind, terms, out) && answers_any(
                            kind,
                            out,
                            k as nat,
                            o.results@,
                        ) && (o.corrected matches Some(q) && q@ == text::joined(out, seq![' ']))
                            && counts_any(kind, out, k as nat, o.stats)
                } else {
                    &&& answers_any(kind, texts, k as nat, o.results@)
                    &&& o.corrected is None
                    &&& counts_any(kind, texts, k as nat, o.stats)
                }
            }),
    {
        let terms = query_terms(tokens);
        let ghost kind = self.kind;
        let ghost texts = block_max_wand::texts(tokens@);
        let ghost all = distinct(texts);
        let n: usize = terms.len();
        let mut rewritten: Vec<String> = Vec::new();
        let mut changed: bool = false;
        let mut i: usize = 0;
        while i < n
            invariant
                self.wf(),
                self.kind == kind,
                *self == (AnyIndex { spell: self.spell, ..*old(self) }),
                i <= n == terms@.len(),
                all == block_max_wand::texts(terms@),
                rewritten@.len() == i,
                forall|j: int|
                    0 <= j < i ==> if needs_fix(kind, all[j]) {
                        is_fix(kind, all[j], (#[trigger] rewritten@[j])@)
                    } else {
                        rewritten@[j]@ == all[j]
                    },
                changed == exists|j: int| 0 <= j < i && needs_fix(kind, #[trigger] all[j]),
            decreases n - i,
        {
            let ghost word = all[i as int];
            assert(word == terms@[i as int]@);
            let mut fixed: Option<String> = None;
            if self.term_df(terms[i].as_str()) == 0 {
                if self.spell.is_none() {
                    let c = self.corrector();
                    self.spell = Some(c);
                }
                if let Some(c) = &self.spell {
                    let ghost voc = c.vocabulary();
                    match c.correct(terms[i].as_str()) {
                        Some(fix) => {
                            proof {
                                let x = choose|x: int|
                                    0 <= x < voc.len() && {
                                        &&& (#[trigger] voc[x]).0 == fix@
                                        &&& spell::corrects(word, fix@)
                                        &&& forall|j: int|
                                            0 <= j < voc.len() && spell::corrects(
                                                word,
                                                (#[trigger] voc[j]).0,
                                            ) ==> spell::no_worse(word, voc[x], voc[j])
                                    };
                                assert(voc[x].1 == kind.df(fix@));
                                assert(kind.df(fix@) >= spell::MIN_DF);
                                assert forall|t: Seq<char>|
                                    #[trigger] kind.df(t) >= spell::MIN_DF && spell::corrects(
                                        word,
                                        t,
                                    ) implies spell::no_worse(
                                    word,
                                    (fix@, kind.df(fix@) as u32),
                                    (t, kind.df(t) as u32),
                                ) by {
                                    let j = choose|j: int|
                                        0 <= j < voc.len() && (#[trigger] voc[j]).0 == t;
                                    assert(voc[j].1 == kind.df(t));
                                    assert(spell::no_worse(word, voc[x], voc[j]));
                                }
                                assert(is_fix(kind, word, fix@));
                                assert(needs_fix(kind, word));
                            }
                            let chars = text::chars_of(fix);
                            fixed = Some(text::string_of(chars.as_slice()));
                        },
                        None => {
                            proof {
                                if needs_fix(kind, word) {
                                    let t = choose|t: Seq<char>|
                                        #[trigger] kind.df(t) >= spell::MIN_DF && spell::corrects(
                                            word,
                                            t,
                                        );
                                    let j = choose|j: int|
                                        0 <= j < voc.len() && (#[trigger] voc[j]).0 == t;
                                    assert(!spell::corrects(word, voc[j].0));
                                }
                            }
                        },
                    }
                }
            }
            match fixed {
                Some(fix) => {
                    rewritten.push(fix);
                    changed = true;
                    assert(needs_fix(kind, all[i as int]));
                },
                None => {
                    rewritten.push(terms[i].clone());
                },
            }
            i += 1;
        }
        if !changed {
            return self.search_raw(tokens, k);
        }
        let ghost out = block_max_wand::texts(rewritten@);
        proof {
            assert(is_rewriting(kind, all, out)) by {
                assert forall|j: int| 0 <= j < all.len() implies if needs_fix(kind, all[j]) {
                    is_fix(kind, all[j], #[trigger] out[j])
                } else {
                    out[j] == all[j]
                } by {
                    assert(out[j] == rewritten@[j]@);
                }
            }
            block_max_wand::lemma_firsts_len(texts);
        }
        let mut parts: Vec<Vec<char>> = Vec::new();
        let mut p: usize = 0;
        while p < n
            invariant
                p <= n == rewritten@.len(),
                parts@.len() == p,
                forall|j: int| 0 <= j < p ==> (#[trigger] parts@[j])@ == rewritten@[j]@,
            decreases n - p,
        {
            parts.push(text::chars_of(rewritten[p].as_str()));
            p += 1;
        }
        let line = text::join_range(&parts, 0, n, ' ');
        proof {
            assert(text::views(parts@).subrange(0, n as int) =~= out);
        }
        let mut outcome = self.search_raw(rewritten.as_slice(), k);
        outcome.corrected = Some(text::string_of(line.as_slice()));
        outcome
    }
}

/// A query is rewritten only where a word occurs nowhere and a frequent word of
/// the index is close to it; it then gets the closest such word, the most
/// frequent among the closest.
pub proof fn law_rewriting(
    kind: IndexKind,
    terms: Seq<Seq<char>>,
    out: Seq<Seq<char>>,
    i: int,
    other: Seq<char>,
)
    requires
        is_rewriting(kind, terms, out),
        0 <= i < terms.len(),
    ensures
        out.len() == terms.len(),
        kind.df(terms[i]) > 0 ==> out[i] == terms[i],
        out[i] != terms[i] ==> kind.df(out[i]) >= 3 && spell::distance(terms[i], out[i])
            <= spell::allowed(terms[i].len()),
        kind.df(terms[i]) == 0 && kind.df(other) >= 3 && kind.df(other) <= u32::MAX && 1
            <= spell::distance(terms[i], other) <= spell::allowed(terms[i].len()) ==> out[i]
            != terms[i] && (spell::distance(terms[i], out[i]) < spell::distance(terms[i], other) || (
        spell::distance(terms[i], out[i]) == spell::distance(terms[i], other) && kind.df(out[i]) as u32
            >= kind.df(other) as u32)),
{
    spell::law_distance_measures(terms[i], out[i]);
    spell::law_distance_measures(terms[i], terms[i]);
}

/// Vectors that were written for another number of documents are not used.
pub proof fn law_stale_vectors_are_left_out(store: EmbeddingStore, num_docs: int)
    ensures
        fresh(Some(store), num_docs) is Some <==> store.num_docs == num_docs,
        fresh(Some(store), num_docs) is Some ==> fresh(Some(store), num_docs) == Some(store),
        fresh(None, num_docs) is None,
{
}

/// What a search shows: at most as many results as asked for, best first, each
/// with the id and the title of a document that is not deleted.
pub proof fn law_results_are_ranked<I: SearchableIndex + ?Sized>(
    index: &I,
    texts: Seq<Seq<char>>,
    k: nat,
    results: Seq<SearchResult>,
    i: int,
)
    requires
        answers(index, texts, k, results),
        0 <= i < results.len(),
    ensures
        results.len() <= k,
        i + 1 < results.len() ==> results[i].score >= results[i + 1].score,
        exists|d: u32|
            {
                &&& !#[trigger] block_max_wand::dead_of(index)(d)
                &&& results[i].id@ == index.summary(d).0
                &&& results[i].title@ == index.summary(d).1
                &&& results[i].score == block_max_wand::score_of(
                    block_max_wand::query_models(index, texts),
                    index.lens(),
                    d,
                )
            },
{
    let hits = choose|hits: Seq<SearchHit>| #[trigger]
        shows(index, hits, results) && block_max_wand::is_top_k(
            hits,
            block_max_wand::query_models(index, texts),
            index.lens(),
            block_max_wand::dead_of(index),
            k,
        );
    assert(results[i].score == hits[i].score);
    assert(block_max_wand::matches_query(
        block_max_wand::query_models(index, texts),
        block_max_wand::dead_of(index),
        hits[i].doc_id,
    ));
    assert(!block_max_wand::dead_of(index)(hits[i].doc_id));
    if i + 1 < results.len() {
        assert(results[i + 1].score == hits[i + 1].score);
        assert(block_max_wand::better(hits[i], hits[i + 1]));
    }
}

} // verus!
