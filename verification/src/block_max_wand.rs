//! Exact top-k Block-Max WAND query execution over BM25.
//!
//! One cursor per query term moves forward through the posting list of the
//! term. A bounded collection keeps the best `k` documents seen; once it is
//! full its worst score is the threshold that a document must strictly beat.
//! Documents are skipped without scoring when the bounds of the lists that
//! can hold them (WAND), or of the blocks that can (block-max), do not beat
//! the threshold. Because every skip rests on a safe bound, the result is
//! what an exhaustive scan would return: [`is_top_k`].

use crate::bm25;
use crate::indexer::SearchableIndex;
use crate::order;
use crate::postings;
use crate::postings::{Posting, TermPostings};
use crate::sums;
use crate::work;
use crate::work::{Pruning, Query, Run, Work};
use vstd::prelude::*;

verus! {

/// Counters of the work that a search did. They saturate.
#[derive(Debug, Clone, Copy)]
pub struct SearchStats {
    pub num_docs_total: usize,
    pub num_query_terms: usize,
    pub num_postings_visited: usize,
    pub num_docs_scored: usize,
    pub num_blocks_visited: usize,
    pub num_blocks_skipped: usize,
}

impl Default for SearchStats {
    fn default() -> (s: Self)
        ensures
            s == (SearchStats {
                num_docs_total: 0,
                num_query_terms: 0,
                num_postings_visited: 0,
                num_docs_scored: 0,
                num_blocks_visited: 0,
                num_blocks_skipped: 0,
            }),
    {
        SearchStats {
            num_docs_total: 0,
            num_query_terms: 0,
            num_postings_visited: 0,
            num_docs_scored: 0,
            num_blocks_visited: 0,
            num_blocks_skipped: 0,
        }
    }
}

/// A scored document.
#[derive(Debug, Clone, Copy, PartialEq, Eq, Structural)]
pub struct SearchHit {
    pub doc_id: u32,
    pub score: u64,
}

/// `a` ranks before `b`: by score, then by smaller document id.
pub open spec fn better(a: SearchHit, b: SearchHit) -> bool {
    a.score > b.score || (a.score == b.score && a.doc_id < b.doc_id)
}

fn is_better(a: SearchHit, b: SearchHit) -> (r: bool)
    ensures
        r == better(a, b),
{
    a.score > b.score || (a.score == b.score && a.doc_id < b.doc_id)
}

/// What a score must strictly beat.
#[derive(Debug, Clone, Copy, PartialEq, Eq, Structural)]
pub enum Threshold {
    /// Anything beats it.
    NegInfinity,
    Score(u64),
    /// Nothing beats it.
    Infinity,
}

/// `score` strictly beats `t`.
pub open spec fn beats(score: nat, t: Threshold) -> bool {
    match t {
        Threshold::NegInfinity => true,
        Threshold::Score(s) => score > s,
        Threshold::Infinity => false,
    }
}

impl Threshold {
    /// Does `score` strictly beat this threshold?
    pub fn beaten_by(&self, score: u64) -> (r: bool)
        ensures
            r == beats(score as nat, *self),
    {
        match self {
            Threshold::NegInfinity => true,
            Threshold::Score(s) => score > *s,
            Threshold::Infinity => false,
        }
    }
}

/// No hit ranks before one that stands before it.
pub open spec fn ranked(s: Seq<SearchHit>) -> bool {
    forall|i: int, j: int| 0 <= i < j < s.len() ==> !better(#[trigger] s[j], #[trigger] s[i])
}

/// `h` put in front of the hits it ranks before.
pub open spec fn insert_ranked(s: Seq<SearchHit>, h: SearchHit) -> Seq<SearchHit>
    decreases s.len(),
{
    if s.len() > 0 && better(h, s.last()) {
        insert_ranked(s.drop_last(), h).push(s.last())
    } else {
        s.push(h)
    }
}

pub proof fn lemma_insert_ranked(s: Seq<SearchHit>, h: SearchHit)
    requires
        ranked(s),
    ensures
        insert_ranked(s, h).len() == s.len() + 1,
        ranked(insert_ranked(s, h)),
        forall|x: SearchHit|
            #[trigger] insert_ranked(s, h).contains(x) <==> s.contains(x) || x == h,
    decreases s.len(),
{
    if s.len() > 0 && better(h, s.last()) {
        let front = s.drop_last();
        lemma_insert_ranked(front, h);
        let r = insert_ranked(front, h);
        let out = r.push(s.last());
        assert forall|i: int, j: int| 0 <= i < j < out.len() implies !better(
            #[trigger] out[j],
            #[trigger] out[i],
        ) by {
            if j == r.len() {
                assert(r.contains(out[i]));
                if out[i] != h {
                    assert(front.contains(out[i]));
                    let k = choose|k: int| 0 <= k < front.len() && front[k] == out[i];
                    assert(!better(s[s.len() - 1], s[k]));
                }
            }
        }
        assert forall|x: SearchHit| #[trigger] out.contains(x) <==> s.contains(x) || x == h by {
            lemma_push_contains(r, s.last(), x);
            lemma_push_contains(front, s.last(), x);
            assert(front.push(s.last()) =~= s);
            assert(r.contains(x) <==> front.contains(x) || x == h);
        }
    } else {
        let out = s.push(h);
        assert forall|i: int, j: int| 0 <= i < j < out.len() implies !better(
            #[trigger] out[j],
            #[trigger] out[i],
        ) by {
            if j == s.len() && i < s.len() - 1 {
                assert(!better(s[s.len() - 1], s[i]));
            }
        }
        assert forall|x: SearchHit| #[trigger] out.contains(x) <==> s.contains(x) || x == h by {
            lemma_push_contains(s, h, x);
        }
    }
}

proof fn lemma_push_contains<T>(s: Seq<T>, v: T, x: T)
    ensures
        s.push(v).contains(x) <==> s.contains(x) || x == v,
{
    if s.contains(x) {
        let k = choose|k: int| 0 <= k < s.len() && s[k] == x;
        assert(s.push(v)[k] == x);
    }
    if x == v {
        assert(s.push(v)[s.len() as int] == x);
    }
    if s.push(v).contains(x) {
        let k = choose|k: int| 0 <= k < s.push(v).len() && s.push(v)[k] == x;
        if k < s.len() {
            assert(s[k] == x);
        }
    }
}

/// The best `k` candidates so far, best first.
pub struct TopK {
    pub k: usize,
    pub hits: Vec<SearchHit>,
}

impl TopK {
    pub open spec fn wf(&self) -> bool {
        &&& self.hits@.len() <= self.k
        &&& ranked(self.hits@)
    }

    /// The score of the k-th best candidate once there are `k` of them.
    pub open spec fn threshold_spec(&self) -> Threshold {
        if self.k == 0 {
            Threshold::Infinity
        } else if self.hits@.len() == self.k {
            Threshold::Score(self.hits@.last().score)
        } else {
            Threshold::NegInfinity
        }
    }

    pub fn new(k: usize) -> (t: Self)
        ensures
            t.wf(),
            t.k == k,
            t.hits@.len() == 0,
    {
        TopK { k, hits: Vec::new() }
    }

    /// Current pruning threshold.
    pub fn threshold(&self) -> (t: Threshold)
        requires
            self.wf(),
        ensures
            t == self.threshold_spec(),
    {
        if self.k == 0 {
            Threshold::Infinity
        } else if self.hits.len() == self.k {
            Threshold::Score(self.hits[self.k - 1].score)
        } else {
            Threshold::NegInfinity
        }
    }

    /// Insert a candidate if it strictly beats the threshold; the worst
    /// candidate leaves when there are more than `k`.
    pub fn insert(&mut self, doc_id: u32, score: u64) -> (inserted: bool)
        requires
            old(self).wf(),
        ensures
            final(self).wf(),
            final(self).k == old(self).k,
            inserted == beats(score as nat, old(self).threshold_spec()),
            !inserted ==> final(self).hits@ == old(self).hits@,
            inserted ==> final(self).hits@ == ({
                let all = insert_ranked(old(self).hits@, SearchHit { doc_id, score });
                if all.len() > old(self).k {
                    all.drop_last()
                } else {
                    all
                }
            }),
            final(self).hits@.len() <= old(self).hits@.len() + 1,
    {
        let threshold = self.threshold();
        if !threshold.beaten_by(score) {
            return false;
        }
        let hit = SearchHit { doc_id, score };
        let ghost before = self.hits@;
        let mut at: usize = self.hits.len();
        proof {
            lemma_insert_ranked(before, hit);
            assert(before.take(at as int) =~= before);
            assert(before.skip(at as int) =~= Seq::<SearchHit>::empty());
            assert(insert_ranked(before, hit) =~= insert_ranked(before, hit) + before.skip(
                at as int,
            ));
        }
        while at > 0 && is_better(hit, self.hits[at - 1])
            invariant
                self.hits@ == before,
                at <= before.len(),
                insert_ranked(before, hit) == insert_ranked(before.take(at as int), hit)
                    + before.skip(at as int),
            decreases at,
        {
            proof {
                let t = before.take(at as int);
                assert(t.drop_last() =~= before.take(at - 1));
                assert(t.last() == before[at - 1]);
                assert(insert_ranked(t, hit) + before.skip(at as int) =~= insert_ranked(
                    before.take(at - 1),
                    hit,
                ) + before.skip(at - 1));
            }
            at -= 1;
        }
        proof {
            let t = before.take(at as int);
            assert(insert_ranked(t, hit) =~= t.push(hit)) by {
                if at > 0 {
                    assert(t.last() == before[at - 1]);
                }
            }
            assert(before.insert(at as int, hit) =~= t.push(hit) + before.skip(at as int));
        }
        self.hits.insert(at, hit);
        if self.hits.len() > self.k {
            let ghost all = self.hits@;
            let _ = self.hits.pop();
            assert(self.hits@ =~= all.drop_last());
        }
        true
    }

    /// The candidates, best first.
    pub fn into_sorted_hits(self) -> (hits: Vec<SearchHit>)
        requires
            self.wf(),
        ensures
            hits@ == self.hits@,
            ranked(hits@),
    {
        self.hits
    }
}

/// What a run of insertions leaves.
pub open spec fn kept(run: Seq<SearchHit>, k: nat) -> Seq<SearchHit>
    decreases run.len(),
{
    if run.len() == 0 {
        Seq::empty()
    } else {
        let s = kept(run.drop_last(), k);
        let h = run.last();
        if k == 0 || (s.len() == k && h.score <= s.last().score) {
            s
        } else {
            let all = insert_ranked(s, h);
            if all.len() > k {
                all.drop_last()
            } else {
                all
            }
        }
    }
}

/// One insertion continues the run.
pub proof fn law_insertions_run(before: TopK, after: TopK, run: Seq<SearchHit>, h: SearchHit)
    requires
        before.hits@ == kept(run, before.k as nat),
        before.hits@.len() <= before.k,
        after.hits@ == (if beats(h.score as nat, before.threshold_spec()) {
            let all = insert_ranked(before.hits@, h);
            if all.len() > before.k {
                all.drop_last()
            } else {
                all
            }
        } else {
            before.hits@
        }),
    ensures
        after.hits@ == kept(run.push(h), before.k as nat),
{
    assert(run.push(h).drop_last() =~= run);
}

/// A run of insertions leaves as many hits as there were, `k` at most, best
/// first, and nothing that was left out has a higher score. If the documents
/// came in their order, nothing that was left out ranks before a hit that is
/// left: these are the `k` best by score, then by smaller document.
pub proof fn law_run_keeps_the_best(run: Seq<SearchHit>, k: nat)
    ensures
        kept(run, k).len() == if run.len() < k {
            run.len()
        } else {
            k
        },
        ranked(kept(run, k)),
        forall|x: SearchHit| #[trigger] kept(run, k).contains(x) ==> run.contains(x),
        forall|x: SearchHit, i: int|
            #![trigger run.contains(x), kept(run, k)[i]]
            run.contains(x) && !kept(run, k).contains(x) && 0 <= i < kept(run, k).len() ==> kept(
                run,
                k,
            )[i].score >= x.score,
        by_document(run) ==> forall|x: SearchHit, i: int|
            #![trigger run.contains(x), kept(run, k)[i]]
            run.contains(x) && !kept(run, k).contains(x) && 0 <= i < kept(run, k).len() ==> better(
                kept(run, k)[i],
                x,
            ),
    decreases run.len(),
{
    if run.len() > 0 {
        let front = run.drop_last();
        let h = run.last();
        let s = kept(front, k);
        let t = kept(run, k);
        law_run_keeps_the_best(front, k);
        lemma_insert_ranked(s, h);
        let all = insert_ranked(s, h);
        let cut = all.len() > k;
        assert(run.contains(h)) by {
            assert(run[run.len() - 1] == h);
        }
        let rejected = k == 0 || (s.len() == k && h.score <= s.last().score);
        assert forall|x: SearchHit| #[trigger] t.contains(x) implies run.contains(x) by {
            let i = choose|i: int| 0 <= i < t.len() && t[i] == x;
            if !rejected {
                assert(all[i] == x);
                assert(all.contains(x));
            }
            if x != h {
                assert(front.contains(x));
                let j = choose|j: int| 0 <= j < front.len() && front[j] == x;
                assert(run[j] == x);
            }
        }
        assert(by_document(run) ==> by_document(front)) by {
            if by_document(run) {
                assert forall|i: int, j: int| 0 <= i < j < front.len() implies (
                #[trigger] front[i]).doc_id < (#[trigger] front[j]).doc_id by {
                    assert(run[i].doc_id < run[j].doc_id);
                }
            }
        }
        assert forall|x: SearchHit, i: int|
            #![trigger run.contains(x), t[i]]
            run.contains(x) && !t.contains(x) && 0 <= i < t.len() implies t[i].score >= x.score && (
        by_document(run) ==> better(t[i], x)) by {
            lemma_left_out(run, k, x, i);
        }
    }
}

/// Documents come in their order.
pub open spec fn by_document(run: Seq<SearchHit>) -> bool {
    forall|i: int, j: int| 0 <= i < j < run.len() ==> (#[trigger] run[i]).doc_id < (#[trigger] run[j]).doc_id
}

proof fn lemma_left_out(run: Seq<SearchHit>, k: nat, x: SearchHit, i: int)
    requires
        run.len() > 0,
        run.contains(x),
        !kept(run, k).contains(x),
        0 <= i < kept(run, k).len(),
    ensures
        kept(run, k)[i].score >= x.score,
        by_document(run) ==> better(kept(run, k)[i], x),
    decreases run.len(), 0nat,
{
    let front = run.drop_last();
    let h = run.last();
    let s = kept(front, k);
    let t = kept(run, k);
    law_run_keeps_the_best(front, k);
    lemma_insert_ranked(s, h);
    let all = insert_ranked(s, h);
    let rejected = k == 0 || (s.len() == k && h.score <= s.last().score);
    let at = choose|j: int| 0 <= j < run.len() && run[j] == x;
    assert(at < front.len() ==> front[at] == x);
    if by_document(run) {
        assert forall|a: int, b: int| 0 <= a < b < front.len() implies (#[trigger] front[a]).doc_id
            < (#[trigger] front[b]).doc_id by {
            assert(run[a].doc_id < run[b].doc_id);
        }
    }
    let y = t[i];
    assert(t.contains(y));
    if rejected {
        // The hits are as they were.
        if at < front.len() {
            assert(front.contains(x));
        } else {
            assert(s[i] == y);
            if i < s.len() - 1 {
                assert(!better(s[s.len() - 1], s[i]));
            }
            if by_document(run) {
                assert(s.contains(y));
                let j = choose|j: int| 0 <= j < front.len() && front[j] == y;
                assert(run[j].doc_id < run[run.len() - 1].doc_id);
            }
        }
    } else {
        assert(all[i] == y);
        assert(all.contains(y));
        if all.contains(x) {
            // It was the last one, and had to go.
            let j = choose|j: int| 0 <= j < all.len() && all[j] == x;
            assert(j == all.len() - 1) by {
                if j < t.len() {
                    assert(t[j] == x);
                }
            }
            assert(!better(all[j], all[i]));
            if by_document(run) {
                assert(run.contains(y)) by {
                    if y != h {
                        assert(front.contains(y));
                        let q = choose|q: int| 0 <= q < front.len() && front[q] == y;
                        assert(run[q] == y);
                    } else {
                        assert(run[run.len() - 1] == y);
                    }
                }
                let q = choose|q: int| 0 <= q < run.len() && run[q] == y;
                if q < at {
                    assert(run[q].doc_id < run[at].doc_id);
                } else if at < q {
                    assert(run[at].doc_id < run[q].doc_id);
                }
            }
        } else {
            assert(x != h);
            assert(front.contains(x));
            assert(!s.contains(x));
            assert(s.len() == k) by {
                if s.len() < k {
                    lemma_nothing_left_out(front, k, x);
                }
            }
            let last = s[s.len() - 1];
            assert(last.score >= x.score);
            if y != h {
                assert(s.contains(y));
                let q = choose|q: int| 0 <= q < s.len() && s[q] == y;
                assert(s[q].score >= x.score);
            }
        }
    }
}

/// While there is room, nothing is left out.
proof fn lemma_nothing_left_out(run: Seq<SearchHit>, k: nat, x: SearchHit)
    requires
        kept(run, k).len() < k,
        run.contains(x),
    ensures
        kept(run, k).contains(x),
    decreases run.len(),
{
    let front = run.drop_last();
    let h = run.last();
    let s = kept(front, k);
    law_run_keeps_the_best(front, k);
    lemma_insert_ranked(s, h);
    let all = insert_ranked(s, h);
    assert(all.contains(h));
    if x != h {
        let at = choose|j: int| 0 <= j < run.len() && run[j] == x;
        assert(front[at] == x);
        assert(front.contains(x));
        lemma_nothing_left_out(front, k, x);
    }
}

/// What a query term contributes to scoring: its postings, its idf and the
/// average document length it is scored with.
pub struct TermModel {
    pub list: Seq<Posting>,
    pub idf: nat,
    pub avg_doc_len: nat,
}

/// The model of a view of posting data.
pub open spec fn model_of(t: TermPostings) -> TermModel {
    TermModel { list: t.list(), idf: t.idf as nat, avg_doc_len: t.avg_doc_len as nat }
}

/// Document `d` stands at position `i` of the list.
pub open spec fn stands_at(m: TermModel, i: int, d: u32) -> bool {
    0 <= i < m.list.len() && m.list[i].doc_id == d
}

/// Document `d` holds the term.
pub open spec fn holds(m: TermModel, d: u32) -> bool {
    exists|i: int| stands_at(m, i, d)
}

/// What the term adds to the score of document `d`.
pub open spec fn term_weight(m: TermModel, lens: Seq<u32>, d: u32) -> nat {
    if holds(m, d) {
        let i = choose|i: int| stands_at(m, i, d);
        bm25::contribution(m.idf, m.list[i].tf as nat, lens[d as int] as nat, m.avg_doc_len)
    } else {
        0
    }
}

/// The weights of document `d`, term by term.
pub open spec fn weights(models: Seq<TermModel>, lens: Seq<u32>, d: u32) -> spec_fn(int) -> nat {
    |j: int| term_weight(models[j], lens, d)
}

/// The BM25 score of document `d`.
pub open spec fn score_of(models: Seq<TermModel>, lens: Seq<u32>, d: u32) -> nat {
    sums::total(weights(models, lens, d), models.len())
}

/// Document `d` is alive and holds at least one of the terms.
pub open spec fn matches_query(
    models: Seq<TermModel>,
    dead: spec_fn(u32) -> bool,
    d: u32,
) -> bool {
    &&& !dead(d)
    &&& exists|j: int| 0 <= j < models.len() && #[trigger] holds(models[j], d)
}

/// `hits` are the best `k` matching documents with their scores, best first,
/// equal scores by document id.
pub open spec fn is_top_k(
    hits: Seq<SearchHit>,
    models: Seq<TermModel>,
    lens: Seq<u32>,
    dead: spec_fn(u32) -> bool,
    k: nat,
) -> bool {
    &&& hits.len() <= k
    &&& forall|i: int, j: int| 0 <= i < j < hits.len() ==> better(#[trigger] hits[i], #[trigger] hits[j])
    &&& forall|i: int|
        0 <= i < hits.len() ==> {
            &&& matches_query(models, dead, (#[trigger] hits[i]).doc_id)
            &&& hits[i].score == score_of(models, lens, hits[i].doc_id)
        }
    &&& forall|d: u32| #[trigger]
        matches_query(models, dead, d) ==> covered(hits, models, lens, k, d)
}

/// Document `d` is among the hits, or there are `k` hits and all of them rank
/// before it.
pub open spec fn covered(
    hits: Seq<SearchHit>,
    models: Seq<TermModel>,
    lens: Seq<u32>,
    k: nat,
    d: u32,
) -> bool {
    ||| exists|i: int| 0 <= i < hits.len() && (#[trigger] hits[i]).doc_id == d
    ||| loses(hits, score_of(models, lens, d), k, d)
}

/// There are `k` hits and all of them rank before `d` with that score.
pub open spec fn loses(hits: Seq<SearchHit>, score: nat, k: nat, d: u32) -> bool {
    &&& hits.len() == k
    &&& forall|i: int|
        0 <= i < hits.len() ==> ((#[trigger] hits[i]).score > score || (hits[i].score == score
            && hits[i].doc_id < d))
}

/// Only one ranking is the top k.
pub proof fn law_top_k_unique(
    a: Seq<SearchHit>,
    b: Seq<SearchHit>,
    models: Seq<TermModel>,
    lens: Seq<u32>,
    dead: spec_fn(u32) -> bool,
    k: nat,
)
    requires
        is_top_k(a, models, lens, dead, k),
        is_top_k(b, models, lens, dead, k),
    ensures
        a == b,
{
    lemma_top_k_prefix(a, b, models, lens, dead, k, a.len());
    lemma_top_k_prefix(b, a, models, lens, dead, k, b.len());
    assert(a =~= b);
}

proof fn lemma_top_k_prefix(
    a: Seq<SearchHit>,
    b: Seq<SearchHit>,
    models: Seq<TermModel>,
    lens: Seq<u32>,
    dead: spec_fn(u32) -> bool,
    k: nat,
    n: nat,
)
    requires
        is_top_k(a, models, lens, dead, k),
        is_top_k(b, models, lens, dead, k),
        n <= a.len(),
    ensures
        n <= b.len(),
        forall|i: int| 0 <= i < n ==> #[trigger] a[i] == b[i],
    decreases n,
{
    if n > 0 {
        let m = (n - 1) as nat;
        lemma_top_k_prefix(a, b, models, lens, dead, k, m);
        let h = a[m as int];
        assert(matches_query(models, dead, h.doc_id));
        assert(covered(b, models, lens, k, h.doc_id));
        if exists|i: int| 0 <= i < b.len() && (#[trigger] b[i]).doc_id == h.doc_id {
            let i = choose|i: int| 0 <= i < b.len() && (#[trigger] b[i]).doc_id == h.doc_id;
            assert(b[i] == h);
            if i < m {
                assert(a[i] == b[i]);
                assert(better(a[i], a[m as int]));
            } else if i > m {
                // The hit of `b` at this rank is missing from `a`, yet it ranks
                // before `h`.
                let g = b[m as int];
                assert(better(g, b[i]));
                assert(matches_query(models, dead, g.doc_id));
                assert(covered(a, models, lens, k, g.doc_id));
                if exists|q: int| 0 <= q < a.len() && (#[trigger] a[q]).doc_id == g.doc_id {
                    let q = choose|q: int| 0 <= q < a.len() && (#[trigger] a[q]).doc_id == g.doc_id;
                    assert(a[q] == g);
                    if q < m {
                        assert(a[q] == b[q]);
                        assert(better(b[q], b[m as int]));
                    } else if q > m {
                        assert(better(a[m as int], a[q]));
                    }
                } else {
                    assert(loses(a, g.score as nat, k, g.doc_id));
                    assert(a[m as int].score >= g.score);
                }
            }
        } else {
            assert(loses(b, h.score as nat, k, h.doc_id));
            // All k hits of `b` rank before `h`; the first of them that `a`
            // does not share would be missing from `a` although it beats `h`.
            let g = b[m as int];
            assert(b.len() == k && a.len() <= k);
            assert(better(g, h));
            assert(matches_query(models, dead, g.doc_id));
            assert(covered(a, models, lens, k, g.doc_id));
            if exists|q: int| 0 <= q < a.len() && (#[trigger] a[q]).doc_id == g.doc_id {
                let q = choose|q: int| 0 <= q < a.len() && (#[trigger] a[q]).doc_id == g.doc_id;
                assert(a[q] == g);
                if q < m {
                    assert(a[q] == b[q]);
                    assert(better(b[q], b[m as int]));
                } else if q > m {
                    assert(better(a[m as int], a[q]));
                }
            } else {
                assert(loses(a, g.score as nat, k, g.doc_id));
                assert(a[m as int].score >= g.score);
            }
        }
    }
}

/// Forward-only cursor over the posting data of one term. A block that is
/// never entered is never decoded.
pub struct Cursor<'a> {
    pub term: TermPostings<'a>,
    /// Bound of the whole list.
    pub list_bound: u64,
    /// Current position in the list.
    pub pos: usize,
    /// Block of `pos`.
    pub block: usize,
    /// Document at `pos`, `u32::MAX` when exhausted.
    pub current_doc: u32,
    /// Document ids of `decoded_block`.
    pub decoded_docs: Vec<u32>,
    pub decoded_block: Option<usize>,
    /// Last position counted in the statistics.
    pub counted_pos: Option<usize>,
}

/// The counters that a cursor leaves alone.
pub open spec fn same_search(a: SearchStats, b: SearchStats) -> bool {
    &&& a.num_docs_total == b.num_docs_total
    &&& a.num_query_terms == b.num_query_terms
    &&& a.num_docs_scored == b.num_docs_scored
}

/// A counter that stops at the largest number.
pub open spec fn counted_up(c: usize, by: int) -> int {
    if c + by > usize::MAX {
        usize::MAX as int
    } else {
        c + by
    }
}

/// What moving a cursor from `a` to `b` adds to the counters: a posting where
/// it stops at a new one, a block where it decodes a new one, and the
/// `skipped` blocks it left out.
pub open spec fn charged(
    a: Cursor,
    b: Cursor,
    skipped: int,
    s: SearchStats,
    t: SearchStats,
) -> bool {
    &&& same_search(s, t)
    &&& t.num_postings_visited == counted_up(
        s.num_postings_visited,
        (if b.counted_pos == a.counted_pos {
            0
        } else {
            1
        }),
    )
    &&& t.num_blocks_visited == counted_up(
        s.num_blocks_visited,
        (if b.decoded_block == a.decoded_block {
            0
        } else {
            1
        }),
    )
    &&& t.num_blocks_skipped == counted_up(s.num_blocks_skipped, skipped)
}

/// The positions up to the last one counted.
pub open spec fn reached(c: Cursor) -> nat {
    match c.counted_pos {
        None => 0,
        Some(p) => p as nat + 1,
    }
}

/// A cursor only moves forward, and stops in each block that it decodes.
pub open spec fn forward(a: Cursor, b: Cursor) -> bool {
    &&& b.term == a.term
    &&& reached(a) <= reached(b)
    &&& a.block <= b.block
    &&& b.decoded_block != a.decoded_block ==> b.counted_pos != a.counted_pos
}

/// Nothing new was visited.
pub open spec fn same_reach(a: Cursor, b: Cursor) -> bool {
    &&& b.decoded_block == a.decoded_block
    &&& b.counted_pos == a.counted_pos
}

/// No posting is visited twice, a block is decoded only where a posting is
/// visited, and no block is skipped twice.
pub open spec fn accounted(stats: SearchStats, cursors: Seq<Cursor>) -> bool {
    &&& stats.num_postings_visited <= sums::total(|j: int| reached(cursors[j]), cursors.len())
    &&& stats.num_blocks_visited <= stats.num_postings_visited
    &&& stats.num_blocks_skipped <= sums::total(
        |j: int| cursors[j].block as nat,
        cursors.len(),
    )
}

/// How many postings the terms have.
pub open spec fn postings_of(models: Seq<TermModel>) -> nat {
    sums::total(|j: int| models[j].list.len(), models.len())
}

/// Every counter of the work done lies within the postings of the terms.
pub open spec fn work_bounded(stats: SearchStats, models: Seq<TermModel>) -> bool {
    &&& stats.num_blocks_visited <= stats.num_postings_visited <= postings_of(models)
    &&& stats.num_blocks_skipped <= postings_of(models)
}

/// The answer to a query: the best `k` documents, and counters of the distinct
/// terms of the query and of the work, none of it done twice.
pub open spec fn answers_search<I: SearchableIndex + ?Sized>(
    index: &I,
    terms: Seq<Seq<char>>,
    k: nat,
    pruning: Pruning,
    hits: Seq<SearchHit>,
    stats: SearchStats,
) -> bool {
    let models = query_models(index, terms);
    &&& is_top_k(hits, models, index.lens(), dead_of(index), k)
    &&& stats.num_docs_total == index.lens().len()
    &&& stats.num_query_terms == firsts(terms).len()
    &&& work::counts(stats, work::work_of(query_of(index, terms, k, pruning)))
    &&& hits.len() <= stats.num_docs_scored <= index.lens().len()
    &&& work_bounded(stats, models)
}

/// Whatever was found was scored, and every decoded block was visited.
pub open spec fn worked_for(stats: SearchStats, found: nat) -> bool {
    &&& found <= stats.num_docs_scored
    &&& stats.num_blocks_visited <= stats.num_postings_visited
}

/// Every hit was scored, and no document was scored twice: documents are
/// scored in their order, and `floor` is the last one.
pub open spec fn scored_once(stats: SearchStats, hits: Seq<SearchHit>, floor: int) -> bool {
    hits.len() <= stats.num_docs_scored <= floor + 1
}

impl<'a> Cursor<'a> {
    /// The document at position `i`, `u32::MAX` past the end.
    pub open spec fn doc_at(&self, i: int) -> u32 {
        if i < self.term.df {
            self.term.list()[i].doc_id
        } else {
            u32::MAX
        }
    }

    pub open spec fn decoded_ok(&self) -> bool {
        match self.decoded_block {
            None => true,
            Some(b) => {
                &&& b < self.term.blocks()
                &&& self.decoded_docs@.len() == self.term.hi(b as int) - self.term.lo(b as int)
                &&& forall|w: int|
                    0 <= w < self.decoded_docs@.len() ==> #[trigger] self.decoded_docs@[w]
                        == self.term.list()[self.term.lo(b as int) + w].doc_id
            },
        }
    }

    /// Everything but the cached document is in order.
    pub open spec fn wf_unloaded(&self, lens: Seq<u32>) -> bool {
        &&& self.term.wf(lens)
        &&& self.list_bound == self.term.list_bound_spec()
        &&& self.list_bound <= 3 * self.term.idf
        &&& self.pos <= self.term.df
        &&& self.block <= self.term.blocks()
        &&& self.pos < self.term.df ==> self.block <= self.pos as int / self.term.block_size as int
        &&& self.decoded_ok()
        &&& self.decoded_block matches Some(b) ==> b <= self.block
        &&& self.counted_pos matches Some(p) ==> p <= self.pos && p < self.term.df
    }

    pub open spec fn wf(&self, lens: Seq<u32>) -> bool {
        &&& self.wf_unloaded(lens)
        &&& self.current_doc == self.doc_at(self.pos as int)
        &&& self.pos < self.term.df ==> {
            &&& self.block == self.pos as int / self.term.block_size as int
            &&& self.decoded_block == Some(self.block)
            &&& self.counted_pos == Some(self.pos)
        }
    }

    /// Start at the first posting.
    pub fn new(term: TermPostings<'a>, stats: &mut SearchStats, Ghost(lens): Ghost<Seq<u32>>) -> (c:
        Self)
        requires
            term.wf(lens),
        ensures
            c.wf(lens),
            c.term == term,
            c.pos == 0,
            c.block == 0,
            same_search(*old(stats), *final(stats)),
            final(stats).num_postings_visited == counted_up(
                old(stats).num_postings_visited,
                reached(c) as int,
            ),
            final(stats).num_blocks_visited == counted_up(
                old(stats).num_blocks_visited,
                reached(c) as int,
            ),
            final(stats).num_blocks_skipped == old(stats).num_blocks_skipped,
    {
        let list_bound: u64 = term.list_bound();
        let mut cursor = Cursor {
            term,
            list_bound,
            pos: 0,
            block: 0,
            current_doc: u32::MAX,
            decoded_docs: Vec::new(),
            decoded_block: None,
            counted_pos: None,
        };
        proof {
            if cursor.pos < cursor.term.df {
                vstd::arithmetic::div_mod::lemma_div_pos_is_pos(
                    0,
                    cursor.term.block_size as int,
                );
            }
            vstd::arithmetic::div_mod::lemma_div_pos_is_pos(
                cursor.term.df + cursor.term.block_size - 1,
                cursor.term.block_size as int,
            );
        }
        cursor.load_current(stats, Ghost(lens));
        cursor
    }

    pub fn is_exhausted(&self) -> (r: bool)
        ensures
            r == (self.pos >= self.term.df),
    {
        self.pos >= self.term.df
    }

    /// Current document, `u32::MAX` when exhausted.
    pub fn doc_id(&self) -> (d: u32)
        ensures
            d == self.current_doc,
    {
        self.current_doc
    }

    pub fn list_max_score(&self) -> (s: u64)
        ensures
            s == self.list_bound,
    {
        self.list_bound
    }

    /// Bring `block` forward so that it holds `pos`.
    fn align_block(&mut self, Ghost(lens): Ghost<Seq<u32>>)
        requires
            old(self).wf_unloaded(lens),
            old(self).pos < old(self).term.df,
        ensures
            final(self).wf_unloaded(lens),
            final(self).block == final(self).pos as int / final(self).term.block_size as int,
            *final(self) == (Cursor { block: final(self).block, ..*old(self) }),
    {
        let ghost q = self.pos as int / self.term.block_size as int;
        proof {
            postings::lemma_block_of(
                self.pos as int,
                self.term.block_size as int,
                self.term.df as int,
            );
        }
        let mut b: usize = self.block;
        while b < self.term.num_blocks() && self.term.block_end(b) <= self.pos
            invariant
                self.wf_unloaded(lens),
                self.pos < self.term.df,
                q == self.pos as int / self.term.block_size as int,
                0 <= q < self.term.blocks(),
                self.term.lo(q) <= self.pos < self.term.hi(q),
                b <= q,
            decreases q - b,
        {
            b += 1;
        }
        proof {
            if b < q {
                postings::lemma_block_range(
                    b as int,
                    self.term.block_size as int,
                    self.term.df as int,
                );
                lemma_lo_monotone(b + 1, q, self.term.block_size as int);
            }
        }
        self.block = b;
    }

    /// Decode the current block unless it is decoded already.
    fn ensure_decoded(&mut self, stats: &mut SearchStats)
        requires
            old(self).term.block_size > 0,
            old(self).term.source_ok(),
            old(self).block < old(self).term.blocks(),
            old(self).decoded_ok(),
        ensures
            final(self).decoded_ok(),
            final(self).decoded_block == Some(final(self).block),
            final(self).term == old(self).term,
            final(self).list_bound == old(self).list_bound,
            final(self).pos == old(self).pos,
            final(self).block == old(self).block,
            final(self).current_doc == old(self).current_doc,
            final(self).counted_pos == old(self).counted_pos,
            charged(*old(self), *final(self), 0, *old(stats), *final(stats)),
    {
        let known: bool = match self.decoded_block {
            None => false,
            Some(b) => b == self.block,
        };
        if !known {
            let mut docs: Vec<u32> = Vec::new();
            self.term.decode_docs(self.block, &mut docs);
            self.decoded_docs = docs;
            self.decoded_block = Some(self.block);
            stats.num_blocks_visited = stats.num_blocks_visited.saturating_add(1);
        }
    }

    /// Refresh the cached document at `pos`, decoding its block if needed.
    fn load_current(&mut self, stats: &mut SearchStats, Ghost(lens): Ghost<Seq<u32>>)
        requires
            old(self).wf_unloaded(lens),
        ensures
            final(self).wf(lens),
            final(self).term == old(self).term,
            final(self).pos == old(self).pos,
            final(self).pos >= final(self).term.df ==> *final(self) == (Cursor {
                current_doc: u32::MAX,
                ..*old(self)
            }),
            final(self).block >= old(self).block,
            charged(*old(self), *final(self), 0, *old(stats), *final(stats)),
    {
        if self.is_exhausted() {
            self.current_doc = u32::MAX;
            return;
        }
        self.align_block(Ghost(lens));
        proof {
            postings::lemma_block_of(
                self.pos as int,
                self.term.block_size as int,
                self.term.df as int,
            );
        }
        self.ensure_decoded(stats);
        let start: usize = self.term.block_start(self.block);
        self.current_doc = self.decoded_docs[self.pos - start];
        let counted: bool = match self.counted_pos {
            None => false,
            Some(p) => p == self.pos,
        };
        if !counted {
            self.counted_pos = Some(self.pos);
            stats.num_postings_visited = stats.num_postings_visited.saturating_add(1);
        }
    }

    /// Term frequency of the current posting.
    pub fn current_tf(&self, Ghost(lens): Ghost<Seq<u32>>) -> (tf: u32)
        requires
            self.wf(lens),
            self.pos < self.term.df,
        ensures
            tf == self.term.list()[self.pos as int].tf,
    {
        proof {
            postings::lemma_block_of(
                self.pos as int,
                self.term.block_size as int,
                self.term.df as int,
            );
        }
        let start: usize = self.term.block_start(self.block);
        self.term.tf_at(self.block, self.pos - start)
    }

    /// Move to the next posting.
    pub fn next(&mut self, stats: &mut SearchStats, Ghost(lens): Ghost<Seq<u32>>)
        requires
            old(self).wf(lens),
            old(self).pos < old(self).term.df,
        ensures
            final(self).wf(lens),
            final(self).term == old(self).term,
            final(self).pos == old(self).pos + 1,
            final(self).pos >= final(self).term.df ==> same_reach(*old(self), *final(self)),
            forward(*old(self), *final(self)),
            charged(*old(self), *final(self), 0, *old(stats), *final(stats)),
    {
        proof {
            postings::lemma_block_of(
                self.pos as int,
                self.term.block_size as int,
                self.term.df as int,
            );
            vstd::arithmetic::div_mod::lemma_div_is_ordered(
                self.pos as int,
                self.pos + 1,
                self.term.block_size as int,
            );
        }
        self.pos = self.pos + 1;
        self.load_current(stats, Ghost(lens));
    }

    /// Advance to the first posting whose document is at least `target`,
    /// skipping whole blocks by their metadata.
    pub fn seek(&mut self, target: u32, stats: &mut SearchStats, Ghost(lens): Ghost<Seq<u32>>)
        requires
            old(self).wf(lens),
        ensures
            final(self).wf(lens),
            final(self).term == old(self).term,
            old(self).pos <= final(self).pos,
            forall|i: int|
                old(self).pos <= i < final(self).pos ==> (#[trigger] old(self).term.list()[i]).doc_id
                    < target,
            final(self).current_doc >= target,
            old(self).current_doc >= target ==> *final(self) == *old(self),
            old(self).current_doc < target && final(self).pos >= final(self).term.df ==> {
                &&& same_reach(*old(self), *final(self))
                &&& final(self).block == final(self).term.blocks()
            },
            forward(*old(self), *final(self)),
            charged(
                *old(self),
                *final(self),
                final(self).block - old(self).block,
                *old(stats),
                *final(stats),
            ),
    {
        if self.current_doc >= target {
            return;
        }
        let ghost p = self.term.list();
        let ghost bs = self.term.block_size as int;
        let ghost df = self.term.df as int;
        let ghost from_pos = self.pos as int;
        proof {
            postings::lemma_block_of(from_pos, bs, df);
        }
        let nb: usize = self.term.num_blocks();
        let mut b: usize = self.block;
        while b < nb && self.term.block_max_doc_ids[b] < target
            invariant
                self.wf(lens),
                nb == self.term.blocks(),
                p == self.term.list(),
                bs == self.term.block_size,
                df == self.term.df,
                from_pos == self.pos < df,
                self.block <= b <= nb,
                self.current_doc < target,
                *self == *old(self),
                charged(*old(self), *self, b - self.block, *old(stats), *stats),
                forall|i: int|
                    from_pos <= i < (if b < nb {
                        postings::block_lo(b as int, bs)
                    } else {
                        df
                    }) ==> (#[trigger] p[i]).doc_id < target,
                b == self.block ==> postings::block_lo(b as int, bs) <= from_pos,
                b > self.block && b < nb ==> from_pos < postings::block_lo(b as int, bs),
            decreases nb - b,
        {
            proof {
                postings::lemma_block_range(b as int, bs, df);
                postings::lemma_block_of(from_pos, bs, df);
                let hi = postings::block_hi(b as int, bs, df);
                assert(p[hi - 1].doc_id < target);
                assert forall|i: int| from_pos <= i < hi implies (#[trigger] p[i]).doc_id < target by {
                    if i < hi - 1 {
                        assert(p[i].doc_id < p[hi - 1].doc_id);
                    }
                }
            }
            b += 1;
            stats.num_blocks_skipped = stats.num_blocks_skipped.saturating_add(1);
        }
        if b >= nb {
            self.block = b;
            self.pos = self.term.df;
            self.current_doc = u32::MAX;
            return;
        }
        proof {
            postings::lemma_block_range(b as int, bs, df);
            lemma_lo_monotone(self.block as int, b as int, bs);
        }
        self.block = b;
        let start: usize = self.term.block_start(b);
        let end: usize = self.term.block_end(b);
        self.ensure_decoded(stats);
        let mut lo: usize = if self.pos > start { self.pos - start } else { 0 };
        let mut hi: usize = end - start - 1;
        proof {
            assert(p[end - 1].doc_id >= target);
            if lo > 0 {
                assert(from_pos < end);
            }
        }
        // The last document of the block reaches the target, so the landing
        // position is at most `hi`.
        while lo < hi
            invariant
                self.decoded_ok(),
                self.decoded_block == Some(b),
                self.term.wf(lens),
                p == self.term.list(),
                bs == self.term.block_size,
                df == self.term.df,
                start == self.term.lo(b as int),
                end == self.term.hi(b as int),
                0 <= start < end <= df,
                b < self.term.blocks(),
                lo <= hi < end - start,
                0 <= from_pos <= start + lo,
                p[start + hi].doc_id >= target,
                forall|i: int| from_pos <= i < start + lo ==> (#[trigger] p[i]).doc_id < target,
            decreases hi - lo,
        {
            let mid: usize = lo + (hi - lo) / 2;
            let d: u32 = self.decoded_docs[mid];
            assert(d == p[start + mid].doc_id);
            if d < target {
                proof {
                    assert forall|i: int| from_pos <= i < start + mid + 1 implies (
                    #[trigger] p[i]).doc_id < target by {
                        if i < start + mid {
                            assert(p[i].doc_id < p[start + mid].doc_id);
                        }
                    }
                }
                lo = mid + 1;
            } else {
                hi = mid;
            }
        }
        self.pos = start + lo;
        proof {
            postings::lemma_block_unique(self.pos as int, b as int, bs, df);
        }
        self.load_current(stats, Ghost(lens));
    }

    /// Bound and last document of the block that would hold the first posting
    /// whose document is at least `target`, from metadata alone. `None` when
    /// no remaining document reaches `target`.
    pub fn shallow_block_for(&self, target: u32, Ghost(lens): Ghost<Seq<u32>>) -> (r: Option<
        (u64, u32),
    >)
        requires
            self.wf(lens),
            self.pos < self.term.df,
            self.current_doc <= target,
        ensures
            r matches Some((bound, boundary)) ==> {
                &&& bound <= 3 * self.term.idf
                &&& target <= boundary < u32::MAX
                &&& forall|i: int|
                    self.pos <= i < self.term.df && target <= (
                    #[trigger] self.term.list()[i]).doc_id <= boundary ==> self.term.weight(lens, i)
                        <= bound
            },
            r is None ==> forall|i: int|
                self.pos <= i < self.term.df ==> (#[trigger] self.term.list()[i]).doc_id < target,
            ({
                let to = work::landing(self.term.list(), self.pos as int, target);
                let b = to / self.term.block_size as int;
                match r {
                    Some((bound, boundary)) => {
                        &&& to < self.term.df
                        &&& 0 <= b < self.term.blocks()
                        &&& bound == self.term.block_bound_spec(b)
                        &&& boundary == self.term.list()[self.term.hi(b) - 1].doc_id
                    },
                    None => to >= self.term.df,
                }
            }),
    {
        let ghost p = self.term.list();
        let ghost bs = self.term.block_size as int;
        let ghost df = self.term.df as int;
        let ghost from_pos = self.pos as int;
        proof {
            postings::lemma_block_of(from_pos, bs, df);
        }
        let nb: usize = self.term.num_blocks();
        let mut b: usize = self.block;
        while b < nb && self.term.block_max_doc_ids[b] < target
            invariant
                self.wf(lens),
                nb == self.term.blocks(),
                p == self.term.list(),
                bs == self.term.block_size,
                df == self.term.df,
                from_pos == self.pos < df,
                self.block <= b <= nb,
                forall|i: int|
                    from_pos <= i < (if b < nb {
                        postings::block_lo(b as int, bs)
                    } else {
                        df
                    }) ==> (#[trigger] p[i]).doc_id < target,
                b == self.block ==> postings::block_lo(b as int, bs) <= from_pos,
                b == self.block ==> b < nb,
            decreases nb - b,
        {
            proof {
                postings::lemma_block_range(b as int, bs, df);
                let hi = postings::block_hi(b as int, bs, df);
                assert(p[hi - 1].doc_id < target);
                assert forall|i: int| from_pos <= i < hi implies (#[trigger] p[i]).doc_id < target by {
                    if i < hi - 1 {
                        assert(p[i].doc_id < p[hi - 1].doc_id);
                    }
                }
            }
            b += 1;
        }
        if b < nb {
            proof {
                postings::lemma_block_range(b as int, bs, df);
                let hi = postings::block_hi(b as int, bs, df);
                let boundary = p[hi - 1].doc_id;
                assert(boundary < lens.len());
                assert forall|i: int|
                    from_pos <= i < df && target <= (#[trigger] p[i]).doc_id <= boundary implies self.term.weight(
                    lens,
                    i,
                ) <= self.term.block_bound_spec(b as int) by {
                    if i >= hi {
                        assert(p[hi - 1].doc_id < p[i].doc_id);
                    }
                    assert(postings::block_lo(b as int, bs) <= i);
                    postings::lemma_block_unique(i, b as int, bs, df);
                    self.term.law_bounds_are_safe(lens, i);
                }
                work::lemma_lands(p, from_pos, target);
                let to = work::landing(p, from_pos, target);
                if to >= hi {
                    assert(p[hi - 1].doc_id < target);
                }
                if to < postings::block_lo(b as int, bs) {
                    assert(p[to].doc_id < target);
                }
                postings::lemma_block_unique(to, b as int, bs, df);
            }
            Some((self.term.block_bound(b), self.term.block_max_doc_ids[b]))
        } else {
            proof {
                work::lemma_landing(p, from_pos, target, df);
            }
            None
        }
    }
}

/// What moving a cursor adds to the work.
pub(crate) proof fn lemma_moved(
    a: Cursor,
    b: Cursor,
    jump: bool,
    s: SearchStats,
    t: SearchStats,
    lens: Seq<u32>,
    w: Work,
)
    requires
        a.wf(lens),
        b.wf(lens),
        b.term == a.term,
        a.pos < a.term.df,
        a.pos < b.pos,
        charged(
            a,
            b,
            (if jump {
                b.block - a.block
            } else {
                0
            }),
            s,
            t,
        ),
        b.pos >= b.term.df ==> same_reach(a, b) && (jump ==> b.block == b.term.blocks()),
        work::counts(s, w),
    ensures
        work::counts(
            t,
            work::moved(
                w,
                a.term.df as int,
                a.term.block_size as int,
                a.pos as int,
                b.pos as int,
                jump,
            ),
        ),
{
    if b.pos < b.term.df {
        vstd::arithmetic::div_mod::lemma_div_is_ordered(
            a.pos as int,
            b.pos as int,
            a.term.block_size as int,
        );
    }
}

proof fn lemma_lo_monotone(a: int, b: int, bs: int)
    requires
        a <= b,
        bs > 0,
    ensures
        postings::block_lo(a, bs) <= postings::block_lo(b, bs),
{
    assert(a * bs <= b * bs) by (nonlinear_arith)
        requires
            a <= b,
            bs > 0,
    ;
}

/// The texts of a list of strings.
pub open spec fn texts(terms: Seq<String>) -> Seq<Seq<char>> {
    Seq::new(terms.len(), |i: int| terms[i]@)
}

/// The positions of `terms` at which a text occurs for the first time.
pub open spec fn firsts(terms: Seq<Seq<char>>) -> Seq<int>
    decreases terms.len(),
{
    if terms.len() == 0 {
        Seq::empty()
    } else {
        let front = terms.drop_last();
        if front.contains(terms.last()) {
            firsts(front)
        } else {
            firsts(front).push(terms.len() - 1)
        }
    }
}

/// The models of the terms at `positions` that occur in the index.
pub open spec fn models_at<I: SearchableIndex + ?Sized>(
    index: &I,
    terms: Seq<Seq<char>>,
    positions: Seq<int>,
) -> Seq<TermModel>
    decreases positions.len(),
{
    if positions.len() == 0 {
        Seq::empty()
    } else {
        let front = models_at(index, terms, positions.drop_last());
        match index.model(terms[positions.last()]) {
            Some(m) => front.push(m),
            None => front,
        }
    }
}

/// The models of a query: each distinct term that occurs, once.
pub open spec fn query_models<I: SearchableIndex + ?Sized>(
    index: &I,
    terms: Seq<Seq<char>>,
) -> Seq<TermModel> {
    models_at(index, terms, firsts(terms))
}

/// The tombstones of an index as a predicate.
pub open spec fn dead_of<I: SearchableIndex + ?Sized>(index: &I) -> spec_fn(u32) -> bool {
    |d: u32| index.dead(d)
}

/// The positions at which a term occurs for the first time.
pub fn first_positions(terms: &[String]) -> (out: Vec<usize>)
    ensures
        out@.len() == firsts(texts(terms@)).len(),
        forall|i: int| 0 <= i < out@.len() ==> #[trigger] out@[i] == firsts(texts(terms@))[i],
        forall|i: int| 0 <= i < out@.len() ==> #[trigger] out@[i] < terms@.len(),
{
    let ghost all = texts(terms@);
    let mut out: Vec<usize> = Vec::new();
    let mut i: usize = 0;
    assert(all.take(0) =~= Seq::<Seq<char>>::empty());
    while i < terms.len()
        invariant
            all == texts(terms@),
            i <= terms@.len(),
            out@.len() == firsts(all.take(i as int)).len(),
            forall|k: int| 0 <= k < out@.len() ==> #[trigger] out@[k] == firsts(all.take(i as int))[k],
            forall|k: int| 0 <= k < out@.len() ==> #[trigger] out@[k] < i,
        decreases terms@.len() - i,
    {
        let mut seen: bool = false;
        let mut j: usize = 0;
        while j < i
            invariant
                all == texts(terms@),
                i < terms@.len(),
                j <= i,
                seen == (exists|k: int| 0 <= k < j && #[trigger] all[k] == all[i as int]),
            decreases i - j,
        {
            assert(all[j as int] == terms@[j as int]@);
            if terms[j] == terms[i] {
                seen = true;
            }
            j += 1;
        }
        proof {
            let t = all.take(i + 1);
            assert(t.drop_last() =~= all.take(i as int));
            assert(t.last() == all[i as int]);
            if seen {
                let k = choose|k: int| 0 <= k < i && #[trigger] all[k] == all[i as int];
                assert(all.take(i as int)[k] == all[i as int]);
            }
            if all.take(i as int).contains(all[i as int]) {
                let k = choose|k: int|
                    0 <= k < all.take(i as int).len() && all.take(i as int)[k] == all[i as int];
                assert(all[k] == all[i as int]);
            }
        }
        if !seen {
            out.push(i);
        }
        i += 1;
    }
    assert(all.take(i as int) =~= all);
    out
}

/// The cursors stand for the models.
pub open spec fn cursors_ok(
    cursors: Seq<Cursor>,
    models: Seq<TermModel>,
    lens: Seq<u32>,
) -> bool {
    &&& cursors.len() == models.len()
    &&& forall|j: int|
        0 <= j < cursors.len() ==> (#[trigger] cursors[j]).wf(lens) && model_of(cursors[j].term)
            == models[j]
}

/// The posting data is that of term `j` of the query.
pub open spec fn fits(q: Query, t: TermPostings, j: int) -> bool {
    &&& model_of(t) == q.models[j]
    &&& t.block_size == q.block_size
    &&& t.list_bound_spec() == q.list_bound(j)
    &&& forall|b: int|
        0 <= b < t.blocks() ==> #[trigger] t.block_bound_spec(b) == q.block_bound(j, b)
}

/// The cursors stand where the run has them.
#[verifier::opaque]
pub open spec fn follows(q: Query, r: Run, cursors: Seq<Cursor>) -> bool {
    &&& cursors.len() == q.models.len()
    &&& r.at.len() == cursors.len()
    &&& forall|j: int|
        0 <= j < cursors.len() ==> fits(q, (#[trigger] cursors[j]).term, j) && r.at[j]
            == cursors[j].pos
}

/// Bounds read from tight metadata are those of the postings.
proof fn lemma_fits(q: Query, t: TermPostings, j: int)
    requires
        t.tight(q.lens),
        model_of(t) == q.models[j],
        t.block_size == q.block_size,
        t.list().len() == t.df,
    ensures
        fits(q, t, j),
{
    let p = t.list();
    work::lemma_max_tf(p, 0, p.len() as int, t.term_max_tf);
    work::lemma_min_len(p, q.lens, 0, p.len() as int, t.term_min_len);
    assert forall|b: int| 0 <= b < t.blocks() implies #[trigger] t.block_bound_spec(b)
        == q.block_bound(j, b) by {
        work::lemma_max_tf(p, t.lo(b), t.hi(b), t.block_max_tfs@[b]);
        work::lemma_min_len(p, q.lens, t.lo(b), t.hi(b), t.block_min_lens@[b]);
    }
}

/// The query of `terms` against an index.
pub open spec fn query_of<I: SearchableIndex + ?Sized>(
    index: &I,
    terms: Seq<Seq<char>>,
    k: nat,
    pruning: Pruning,
) -> Query {
    Query {
        models: query_models(index, terms),
        lens: index.lens(),
        dead: dead_of(index),
        block_size: index.block_len(),
        k,
        pruning,
    }
}

/// One cursor on the first posting of each term that occurs.
pub(crate) fn open_cursors<'a, I: SearchableIndex + ?Sized>(
    index: &'a I,
    terms: &[String],
    positions: &Vec<usize>,
    stats: &mut SearchStats,
) -> (cursors: Vec<Cursor<'a>>)
    requires
        index.wf(),
        positions@.len() == firsts(texts(terms@)).len(),
        forall|i: int|
            0 <= i < positions@.len() ==> #[trigger] positions@[i] == firsts(texts(terms@))[i],
        forall|i: int| 0 <= i < positions@.len() ==> #[trigger] positions@[i] < terms@.len(),
        accounted(*old(stats), Seq::empty()),
        work::counts(*old(stats), work::idle()),
    ensures
        forall|k: nat, pruning: Pruning|
            {
                let q = #[trigger] query_of(index, texts(terms@), k, pruning);
                &&& follows(q, work::started(q), cursors@)
                &&& work::counts(*final(stats), work::started(q).work)
            },
        cursors_ok(cursors@, query_models(index, texts(terms@)), index.lens()),
        forall|j: int| 0 <= j < cursors@.len() ==> (#[trigger] cursors@[j]).pos == 0,
        cursors@.len() <= MAX_TERMS,
        same_search(*old(stats), *final(stats)),
        accounted(*final(stats), cursors@),
{
    let ghost all = texts(terms@);
    let ghost fs = firsts(all);
    let mut cursors: Vec<Cursor<'a>> = Vec::new();
    let mut i: usize = 0;
    assert(fs.take(0) =~= Seq::<int>::empty());
    while i < positions.len()
        invariant
            index.wf(),
            all == texts(terms@),
            fs == firsts(all),
            positions@.len() == fs.len(),
            forall|i: int| 0 <= i < positions@.len() ==> #[trigger] positions@[i] == fs[i],
            forall|i: int| 0 <= i < positions@.len() ==> #[trigger] positions@[i] < terms@.len(),
            i <= positions@.len(),
            cursors@.len() <= i,
            cursors_ok(cursors@, models_at(index, all, fs.take(i as int)), index.lens()),
            forall|j: int| 0 <= j < cursors@.len() ==> (#[trigger] cursors@[j]).pos == 0,
            forall|j: int|
                0 <= j < cursors@.len() ==> (#[trigger] cursors@[j]).term.tight(index.lens())
                    && cursors@[j].term.block_size == index.block_len(),
            work::counts(
                *stats,
                Work { postings: cursors@.len(), blocks: cursors@.len(), ..work::idle() },
            ),
            same_search(*old(stats), *stats),
            accounted(*stats, cursors@),
        decreases positions@.len() - i,
    {
        let at: usize = positions[i];
        proof {
            let t = fs.take(i + 1);
            assert(t.drop_last() =~= fs.take(i as int));
            assert(t.last() == at);
            assert(all[at as int] == terms@[at as int]@);
        }
        match index.term_postings(terms[at].as_str()) {
            Some(found) => {
                let cursor = Cursor::new(found, stats, Ghost(index.lens()));
                let ghost before = cursors@;
                cursors.push(cursor);
                proof {
                    let n = before.len();
                    sums::lemma_total_eq(
                        |j: int| reached(before[j]),
                        |j: int| reached(cursors@[j]),
                        n,
                    );
                    sums::lemma_total_eq(
                        |j: int| before[j].block as nat,
                        |j: int| cursors@[j].block as nat,
                        n,
                    );
                    assert(cursors@[n as int] == cursor);
                }
            },
            None => {},
        }
        i += 1;
    }
    assert(fs.take(i as int) =~= fs);
    proof {
        lemma_models_bounded(index, all);
        reveal(follows);
        assert forall|k: nat, pruning: Pruning|
            {
                let q = #[trigger] query_of(index, all, k, pruning);
                &&& follows(q, work::started(q), cursors@)
                &&& work::counts(*stats, work::started(q).work)
            } by {
            let q = query_of(index, all, k, pruning);
            assert forall|j: int| 0 <= j < cursors@.len() implies fits(
                q,
                (#[trigger] cursors@[j]).term,
                j,
            ) by {
                assert(cursors@[j].wf(index.lens()) && model_of(cursors@[j].term) == q.models[j]);
                lemma_fits(q, cursors@[j].term, j);
            }
        }
    }
    cursors
}

/// The terms at `positions` that occur in the index.
spec fn found_at<I: SearchableIndex + ?Sized>(
    index: &I,
    terms: Seq<Seq<char>>,
    positions: Seq<int>,
) -> Seq<Seq<char>>
    decreases positions.len(),
{
    if positions.len() == 0 {
        Seq::empty()
    } else {
        let front = found_at(index, terms, positions.drop_last());
        let t = terms[positions.last()];
        if index.model(t) is Some {
            front.push(t)
        } else {
            front
        }
    }
}

proof fn lemma_found_at<I: SearchableIndex + ?Sized>(index: &I, terms: Seq<Seq<char>>)
    ensures
        ({
            let f = firsts(terms);
            let found = found_at(index, terms, f);
            &&& found.len() == models_at(index, terms, f).len()
            &&& found.no_duplicates()
            &&& forall|t: Seq<char>| #[trigger]
                found.contains(t) ==> terms.contains(t) && index.model(t) is Some
        }),
    decreases terms.len(),
{
    let f = firsts(terms);
    let found = found_at(index, terms, f);
    if terms.len() > 0 {
        let front = terms.drop_last();
        let last = terms.last();
        lemma_found_at(index, front);
        let g = firsts(front);
        let before = found_at(index, front, g);
        lemma_firsts_below(front);
        lemma_found_same(index, front, terms, g);
        assert forall|t: Seq<char>| front.contains(t) implies terms.contains(t) by {
            let i = choose|i: int| 0 <= i < front.len() && front[i] == t;
            assert(terms[i] == t);
        }
        if !front.contains(last) {
            assert(f.drop_last() =~= g);
            assert(f.last() == terms.len() - 1);
            if index.model(last) is Some {
                assert(!before.contains(last));
                assert forall|i: int, j: int|
                    0 <= i < found.len() && 0 <= j < found.len() && i != j implies found[i]
                    != found[j] by {
                    if i == before.len() {
                        assert(before.contains(before[j]));
                    } else if j == before.len() {
                        assert(before.contains(before[i]));
                    }
                }
                assert forall|t: Seq<char>| #[trigger] found.contains(t) implies terms.contains(t)
                    && index.model(t) is Some by {
                    let i = choose|i: int| 0 <= i < found.len() && found[i] == t;
                    if i < before.len() {
                        assert(before[i] == t);
                        assert(before.contains(t));
                    } else {
                        assert(terms[terms.len() - 1] == t);
                    }
                }
            }
        }
    }
}

pub proof fn lemma_firsts_below(terms: Seq<Seq<char>>)
    ensures
        forall|i: int| 0 <= i < firsts(terms).len() ==> 0 <= #[trigger] firsts(terms)[i] < terms.len(),
    decreases terms.len(),
{
    if terms.len() > 0 {
        let front = terms.drop_last();
        lemma_firsts_below(front);
        assert forall|i: int| 0 <= i < firsts(terms).len() implies 0 <= #[trigger] firsts(terms)[i]
            < terms.len() by {
            if i < firsts(front).len() {
                assert(firsts(terms)[i] == firsts(front)[i]);
            }
        }
    }
}

proof fn lemma_found_same<I: SearchableIndex + ?Sized>(
    index: &I,
    a: Seq<Seq<char>>,
    b: Seq<Seq<char>>,
    positions: Seq<int>,
)
    requires
        forall|i: int|
            0 <= i < positions.len() ==> 0 <= #[trigger] positions[i] < a.len()
                && a[positions[i]] == b[positions[i]],
    ensures
        found_at(index, a, positions) == found_at(index, b, positions),
        models_at(index, a, positions) == models_at(index, b, positions),
    decreases positions.len(),
{
    if positions.len() > 0 {
        let front = positions.drop_last();
        assert forall|i: int| 0 <= i < front.len() implies 0 <= #[trigger] front[i] < a.len()
            && a[front[i]] == b[front[i]] by {
            assert(front[i] == positions[i]);
        }
        lemma_found_same(index, a, b, front);
        assert(positions[positions.len() - 1] == positions.last());
    }
}

/// A query finds no more terms than there are ids.
proof fn lemma_models_bounded<I: SearchableIndex + ?Sized>(index: &I, terms: Seq<Seq<char>>)
    requires
        index.wf(),
    ensures
        query_models(index, terms).len() <= u32::MAX,
{
    lemma_found_at(index, terms);
    let found = found_at(index, terms, firsts(terms));
    assert forall|i: int| 0 <= i < found.len() implies index.model(#[trigger] found[i]) is Some by {
        assert(found.contains(found[i]));
    }
    index.lemma_terms_bounded(found);
}

/// Document `d` lies behind the cursor.
pub open spec fn passed(c: Cursor, d: u32) -> bool {
    exists|i: int| 0 <= i < c.pos && (#[trigger] c.term.list()[i]).doc_id == d
}

/// A held document that the cursor has not passed is at or ahead of it.
pub proof fn lemma_ahead(c: Cursor, lens: Seq<u32>, d: u32)
    requires
        c.wf(lens),
        holds(model_of(c.term), d),
        !passed(c, d),
    ensures
        c.current_doc <= d,
        c.pos < c.term.df,
        exists|i: int| c.pos <= i < c.term.df && (#[trigger] c.term.list()[i]).doc_id == d,
{
    let m = model_of(c.term);
    let i = choose|i: int| stands_at(m, i, d);
    assert(c.term.list()[i].doc_id == d);
    if c.pos < i {
        assert(c.term.list()[c.pos as int].doc_id < c.term.list()[i].doc_id);
    }
}

/// The weight of a document is that of the position where it stands.
pub proof fn lemma_weight_at(t: TermPostings, lens: Seq<u32>, i: int)
    requires
        t.wf(lens),
        0 <= i < t.df,
    ensures
        holds(model_of(t), t.list()[i].doc_id),
        term_weight(model_of(t), lens, t.list()[i].doc_id) == t.weight(lens, i),
{
    let m = model_of(t);
    let d = t.list()[i].doc_id;
    assert(stands_at(m, i, d));
    let k = choose|k: int| stands_at(m, k, d);
    assert(stands_at(m, k, d));
    let p = t.list();
    if k < i {
        assert(p[k].doc_id < p[i].doc_id);
    } else if i < k {
        assert(p[i].doc_id < p[k].doc_id);
    }
}

/// What the collection holds is right, and what the cursors have passed is
/// accounted for.
pub open spec fn search_ok(
    cursors: Seq<Cursor>,
    top: TopK,
    models: Seq<TermModel>,
    lens: Seq<u32>,
    dead: spec_fn(u32) -> bool,
) -> bool {
    &&& cursors_ok(cursors, models, lens)
    &&& top.wf()
    &&& top.k > 0
    &&& hits_ok(top.hits@, models, lens, dead)
    &&& forall|i: int, j: int|
        0 <= i < top.hits@.len() && 0 <= j < cursors.len() ==> (#[trigger] top.hits@[i]).doc_id < (
        #[trigger] cursors[j]).current_doc
    &&& forall|d: u32, j: int|
        #![trigger matches_query(models, dead, d), cursors[j]]
        0 <= j < cursors.len() && matches_query(models, dead, d) && passed(cursors[j], d)
            ==> covered(top.hits@, models, lens, top.k as nat, d)
}

/// The hits are distinct matching documents with their scores.
pub open spec fn hits_ok(
    hits: Seq<SearchHit>,
    models: Seq<TermModel>,
    lens: Seq<u32>,
    dead: spec_fn(u32) -> bool,
) -> bool {
    &&& forall|i: int|
        0 <= i < hits.len() ==> {
            &&& matches_query(models, dead, (#[trigger] hits[i]).doc_id)
            &&& hits[i].score == score_of(models, lens, hits[i].doc_id)
        }
    &&& forall|i: int, j: int|
        0 <= i < j < hits.len() ==> (#[trigger] hits[i]).doc_id != (#[trigger] hits[j]).doc_id
}

/// A document whose score is bounded by the threshold, and which lies after
/// every hit, loses.
pub proof fn lemma_bounded_loses(
    top: TopK,
    models: Seq<TermModel>,
    lens: Seq<u32>,
    d: u32,
    bound: nat,
)
    requires
        top.wf(),
        top.k > 0,
        score_of(models, lens, d) <= bound,
        !beats(bound, top.threshold_spec()),
        forall|i: int| 0 <= i < top.hits@.len() ==> (#[trigger] top.hits@[i]).doc_id < d,
    ensures
        covered(top.hits@, models, lens, top.k as nat, d),
{
    let hits = top.hits@;
    assert(hits.len() == top.k);
    assert forall|i: int| 0 <= i < hits.len() implies ((#[trigger] hits[i]).score > score_of(
        models,
        lens,
        d,
    ) || (hits[i].score == score_of(models, lens, d) && hits[i].doc_id < d)) by {
        if i < hits.len() - 1 {
            assert(!better(hits[hits.len() - 1], hits[i]));
        }
    }
    assert(loses(hits, score_of(models, lens, d), top.k as nat, d));
}

/// The score of a document is bounded by the sum of the bounds of the terms
/// that can hold it.
pub proof fn lemma_score_bounded(
    models: Seq<TermModel>,
    lens: Seq<u32>,
    d: u32,
    g: spec_fn(int) -> nat,
    order: Seq<usize>,
    m: nat,
)
    requires
        m <= order.len(),
        forall|i: int| 0 <= i < m ==> #[trigger] order[i] < models.len(),
        forall|i: int, j: int| 0 <= i < j < m ==> #[trigger] order[i] != #[trigger] order[j],
        forall|j: int|
            0 <= j < models.len() && holds(#[trigger] models[j], d) ==> exists|i: int|
                0 <= i < m && order[i] == j,
        forall|j: int| 0 <= j < models.len() ==> term_weight(#[trigger] models[j], lens, d) <= g(j),
    ensures
        score_of(models, lens, d) <= sums::total(sums::along(g, order), m),
{
    let w = weights(models, lens, d);
    assert forall|j: int| 0 <= j < models.len() && #[trigger] w(j) > 0 implies exists|i: int|
        0 <= i < m && order[i] == j by {
        assert(holds(models[j], d));
    }
    sums::lemma_total_support(w, models.len(), order, m);
    assert forall|i: int| 0 <= i < m implies #[trigger] sums::along(w, order)(i) <= sums::along(
        g,
        order,
    )(i) by {
        let j = order[i] as int;
        assert(term_weight(models[j], lens, d) <= g(j));
    }
    sums::lemma_total_le(sums::along(w, order), sums::along(g, order), m);
}

/// Inserting a hit keeps every covered document covered.
pub proof fn lemma_insert_keeps_covered(
    before: TopK,
    after: TopK,
    h: SearchHit,
    models: Seq<TermModel>,
    lens: Seq<u32>,
    dead: spec_fn(u32) -> bool,
    d: u32,
)
    requires
        before.wf(),
        before.k > 0,
        after.k == before.k,
        hits_ok(before.hits@, models, lens, dead),
        beats(h.score as nat, before.threshold_spec()),
        h.score == score_of(models, lens, h.doc_id),
        after.hits@ == ({
            let all = insert_ranked(before.hits@, h);
            if all.len() > before.k {
                all.drop_last()
            } else {
                all
            }
        }),
        forall|i: int| 0 <= i < before.hits@.len() ==> (#[trigger] before.hits@[i]).doc_id != h.doc_id,
        covered(before.hits@, models, lens, before.k as nat, d) || d == h.doc_id,
    ensures
        covered(after.hits@, models, lens, after.k as nat, d),
{
    let s = before.hits@;
    let all = insert_ranked(s, h);
    lemma_insert_ranked(s, h);
    let out = after.hits@;
    let k = before.k as nat;
    if d == h.doc_id || exists|i: int| 0 <= i < s.len() && (#[trigger] s[i]).doc_id == d {
        // The document is in the enlarged ranking.
        let x = if d == h.doc_id {
            h
        } else {
            let i = choose|i: int| 0 <= i < s.len() && (#[trigger] s[i]).doc_id == d;
            s[i]
        };
        if d != h.doc_id {
            let i = choose|i: int| 0 <= i < s.len() && (#[trigger] s[i]).doc_id == d;
            assert(s.contains(s[i]));
        }
        assert(all.contains(x));
        let at = choose|at: int| 0 <= at < all.len() && all[at] == x;
        if at < out.len() {
            assert(out[at].doc_id == d);
        } else {
            // It is the one that left: everybody else ranks before it.
            assert(at == all.len() - 1 && out.len() == k);
            assert forall|i: int| 0 <= i < out.len() implies ((#[trigger] out[i]).score > score_of(
                models,
                lens,
                d,
            ) || (out[i].score == score_of(models, lens, d) && out[i].doc_id < d)) by {
                assert(!better(all[at], all[i]));
                lemma_distinct_in_insert(s, h, i, at);
            }
            assert(loses(out, score_of(models, lens, d), k, d));
        }
    } else {
        assert(loses(s, score_of(models, lens, d), k, d));
        let last = s[s.len() - 1];
        assert(h.score > last.score >= score_of(models, lens, d));
        assert forall|i: int| 0 <= i < out.len() implies ((#[trigger] out[i]).score > score_of(
            models,
            lens,
            d,
        ) || (out[i].score == score_of(models, lens, d) && out[i].doc_id < d)) by {
            assert(all[i] == out[i]);
            assert(all.contains(out[i]));
            if out[i] != h {
                assert(s.contains(out[i]));
                let q = choose|q: int| 0 <= q < s.len() && s[q] == out[i];
                assert(s[q].score >= score_of(models, lens, d));
            }
        }
        assert(loses(out, score_of(models, lens, d), k, d));
    }
}

/// Two places of an enlarged ranking hold different documents.
pub proof fn lemma_distinct_in_insert(s: Seq<SearchHit>, h: SearchHit, i: int, j: int)
    requires
        forall|a: int, b: int| 0 <= a < b < s.len() ==> (#[trigger] s[a]).doc_id != (#[trigger] s[b]).doc_id,
        forall|a: int| 0 <= a < s.len() ==> (#[trigger] s[a]).doc_id != h.doc_id,
        0 <= i < j < insert_ranked(s, h).len(),
    ensures
        insert_ranked(s, h)[i].doc_id != insert_ranked(s, h)[j].doc_id,
    decreases s.len(),
{
    if s.len() > 0 && better(h, s.last()) {
        let front = s.drop_last();
        let r = insert_ranked(front, h);
        if j == r.len() {
            lemma_insert_len(front, h);
            lemma_insert_member(front, h, i);
            if r[i] != h {
                let q = choose|q: int| 0 <= q < front.len() && front[q] == r[i];
                assert(s[q].doc_id != s[s.len() - 1].doc_id);
            }
        } else {
            lemma_distinct_in_insert(front, h, i, j);
        }
    }
}

proof fn lemma_insert_len(s: Seq<SearchHit>, h: SearchHit)
    ensures
        insert_ranked(s, h).len() == s.len() + 1,
    decreases s.len(),
{
    if s.len() > 0 && better(h, s.last()) {
        lemma_insert_len(s.drop_last(), h);
    }
}

proof fn lemma_insert_member(s: Seq<SearchHit>, h: SearchHit, i: int)
    requires
        0 <= i < insert_ranked(s, h).len(),
    ensures
        insert_ranked(s, h)[i] == h || exists|q: int| 0 <= q < s.len() && s[q] == insert_ranked(s, h)[i],
    decreases s.len(),
{
    if s.len() > 0 && better(h, s.last()) {
        let front = s.drop_last();
        lemma_insert_len(front, h);
        if i < insert_ranked(front, h).len() {
            lemma_insert_member(front, h, i);
            if insert_ranked(front, h)[i] != h {
                let q = choose|q: int| 0 <= q < front.len() && front[q] == insert_ranked(front, h)[i];
                assert(s[q] == insert_ranked(s, h)[i]);
            }
        } else {
            assert(s[s.len() - 1] == insert_ranked(s, h)[i]);
        }
    } else if i < s.len() {
        assert(s[i] == insert_ranked(s, h)[i]);
    }
}

/// The hits stay right when a new document is inserted.
pub proof fn lemma_insert_keeps_hits(
    before: TopK,
    after: TopK,
    h: SearchHit,
    models: Seq<TermModel>,
    lens: Seq<u32>,
    dead: spec_fn(u32) -> bool,
)
    requires
        before.wf(),
        hits_ok(before.hits@, models, lens, dead),
        matches_query(models, dead, h.doc_id),
        h.score == score_of(models, lens, h.doc_id),
        after.hits@ == ({
            let all = insert_ranked(before.hits@, h);
            if all.len() > before.k {
                all.drop_last()
            } else {
                all
            }
        }),
        forall|i: int| 0 <= i < before.hits@.len() ==> (#[trigger] before.hits@[i]).doc_id != h.doc_id,
    ensures
        hits_ok(after.hits@, models, lens, dead),
        forall|i: int|
            0 <= i < after.hits@.len() ==> (#[trigger] after.hits@[i] == h || before.hits@.contains(
                after.hits@[i],
            )),
{
    let s = before.hits@;
    let all = insert_ranked(s, h);
    let out = after.hits@;
    lemma_insert_ranked(s, h);
    assert forall|i: int| 0 <= i < out.len() implies (#[trigger] out[i] == h || s.contains(out[i])) by {
        assert(all[i] == out[i]);
        assert(all.contains(out[i]));
    }
    assert forall|i: int| 0 <= i < out.len() implies {
        &&& matches_query(models, dead, (#[trigger] out[i]).doc_id)
        &&& out[i].score == score_of(models, lens, out[i].doc_id)
    } by {
        if out[i] != h {
            assert(s.contains(out[i]));
            let q = choose|q: int| 0 <= q < s.len() && s[q] == out[i];
            assert(matches_query(models, dead, s[q].doc_id));
        }
    }
    assert forall|i: int, j: int| 0 <= i < j < out.len() implies (#[trigger] out[i]).doc_id != (
    #[trigger] out[j]).doc_id by {
        lemma_distinct_in_insert(s, h, i, j);
    }
}

/// Once every matching document is covered the collection is the top k.
pub proof fn lemma_finished(
    top: TopK,
    models: Seq<TermModel>,
    lens: Seq<u32>,
    dead: spec_fn(u32) -> bool,
)
    requires
        top.wf(),
        hits_ok(top.hits@, models, lens, dead),
        forall|d: u32| #[trigger]
            matches_query(models, dead, d) ==> covered(top.hits@, models, lens, top.k as nat, d),
    ensures
        is_top_k(top.hits@, models, lens, dead, top.k as nat),
{
    let hits = top.hits@;
    assert forall|i: int, j: int| 0 <= i < j < hits.len() implies better(
        #[trigger] hits[i],
        #[trigger] hits[j],
    ) by {
        assert(!better(hits[j], hits[i]));
        assert(hits[i].doc_id != hits[j].doc_id);
    }
}

/// No query has more terms that occur.
pub const MAX_TERMS: usize = 0xffff_ffff;

/// No term adds more to a score.
pub const MAX_BOUND: u64 = 0x6000_0000;

/// The list bounds, cursor by cursor.
pub open spec fn bounds(cursors: Seq<Cursor>) -> spec_fn(int) -> nat {
    |j: int| cursors[j].list_bound as nat
}

/// How many postings are still ahead of each cursor.
pub open spec fn ahead(cursors: Seq<Cursor>) -> spec_fn(int) -> nat {
    |j: int| (cursors[j].term.df - cursors[j].pos) as nat
}

/// `order` lists the cursors by current document.
pub open spec fn by_doc(cursors: Seq<Cursor>, order: Seq<usize>) -> bool {
    &&& order::covers(order, 0, cursors.len() as int)
    &&& order.no_duplicates()
    &&& forall|a: int, b: int|
        0 <= a < b < order.len() ==> cursors[#[trigger] order[a] as int].current_doc
            <= cursors[#[trigger] order[b] as int].current_doc
}

fn order_by_doc(cursors: &Vec<Cursor>, Ghost(q): Ghost<Query>, Ghost(r): Ghost<Run>) -> (order: Vec<
    usize,
>)
    requires
        follows(q, r, cursors@),
        forall|j: int| 0 <= j < cursors@.len() ==> (#[trigger] cursors@[j]).wf(q.lens),
    ensures
        by_doc(cursors@, order@),
        order@ == work::by_document(q, r.at),
{
    let n: usize = cursors.len();
    let mut keys: Vec<u64> = Vec::new();
    let mut i: usize = 0;
    while i < n
        invariant
            i <= n == cursors@.len(),
            keys@.len() == i,
            forall|j: int| 0 <= j < i ==> #[trigger] keys@[j] == cursors@[j].current_doc,
        decreases n - i,
    {
        keys.push(cursors[i].doc_id() as u64);
        i += 1;
    }
    let order = order::order_by_key(&keys);
    proof {
        order::lemma_increasing_distinct(order@, n as int, order::key_less(keys@));
        assert forall|a: int, b: int| 0 <= a < b < order@.len() implies cursors@[
        #[trigger] order@[a] as int].current_doc <= cursors@[
        #[trigger] order@[b] as int].current_doc by {
            assert(order::key_less(keys@)(order@[a] as int, order@[b] as int));
        }
        reveal(follows);
        assert(keys@ =~= work::doc_keys(q, r.at)) by {
            assert forall|j: int| 0 <= j < n implies keys@[j] == q.doc(r.at, j) by {
                lemma_doc(q, r, cursors@, j);
            }
        }
        order::lemma_key_less_total(keys@);
        order::lemma_sorted_unique(
            order@,
            work::by_document(q, r.at),
            n as int,
            order::key_less(keys@),
        );
    }
    order
}

/// The document that a cursor stands on.
pub(crate) proof fn lemma_doc(q: Query, r: Run, cursors: Seq<Cursor>, j: int)
    requires
        follows(q, r, cursors),
        0 <= j < cursors.len(),
        cursors[j].wf(q.lens),
    ensures
        q.doc(r.at, j) == cursors[j].current_doc,
        cursors[j].list_bound == q.list_bound(j),
        cursors[j].term.df == q.models[j].list.len(),
{
    reveal(follows);
    assert(fits(q, cursors[j].term, j));
}

/// The bounds of the cursors are those of the terms.
pub(crate) proof fn lemma_bounds_along(
    q: Query,
    r: Run,
    cursors: Seq<Cursor>,
    order: Seq<usize>,
    m: nat,
)
    requires
        follows(q, r, cursors),
        forall|j: int| 0 <= j < cursors.len() ==> (#[trigger] cursors[j]).wf(q.lens),
        m <= order.len(),
        forall|i: int| 0 <= i < order.len() ==> #[trigger] order[i] < cursors.len(),
    ensures
        sums::total(sums::along(bounds(cursors), order), m) == q.bounds_along(order, m),
{
    let f = sums::along(bounds(cursors), order);
    let g = sums::along(|j: int| q.list_bound(j), order);
    assert forall|i: int| 0 <= i < m implies #[trigger] f(i) == g(i) by {
        lemma_doc(q, r, cursors, order[i] as int);
    }
    sums::lemma_total_eq(f, g, m);
}

/// The first prefix of `order` whose summed list bounds beat the threshold,
/// as the index of its last cursor; `None` if there is none before the
/// exhausted cursors. The second part is the length of the longest prefix
/// known not to beat it.
fn find_pivot(
    cursors: &Vec<Cursor>,
    order: &Vec<usize>,
    threshold: Threshold,
    Ghost(lens): Ghost<Seq<u32>>,
    Ghost(q): Ghost<Query>,
    Ghost(run): Ghost<Run>,
) -> (r: (Option<usize>, usize))
    requires
        cursors@.len() <= MAX_TERMS,
        forall|j: int| 0 <= j < cursors@.len() ==> (#[trigger] cursors@[j]).wf(lens),
        by_doc(cursors@, order@),
        follows(q, run, cursors@),
        q.lens == lens,
    ensures
        work::pivot(q, run.at, order@, threshold, 0) == (match r.0 {
            Some(p) => Some(p as int),
            None => None,
        }),
        r.1 <= order@.len(),
        r.1 > 0 ==> !beats(
            sums::total(sums::along(bounds(cursors@), order@), r.1 as nat),
            threshold,
        ),
        r.0 matches Some(p) ==> p == r.1 && p < order@.len() && cursors@[order@[p as int] as int].pos
            < cursors@[order@[p as int] as int].term.df,
        r.0 is None ==> forall|i: int|
            r.1 <= i < order@.len() ==> cursors@[#[trigger] order@[i] as int].current_doc
                == u32::MAX,
{
    let ghost f = sums::along(bounds(cursors@), order@);
    let mut acc: u64 = 0;
    let mut i: usize = 0;
    while i < order.len()
        invariant
            cursors@.len() <= MAX_TERMS,
            forall|j: int| 0 <= j < cursors@.len() ==> (#[trigger] cursors@[j]).wf(lens),
            by_doc(cursors@, order@),
            f == sums::along(bounds(cursors@), order@),
            i <= order@.len(),
            acc == sums::total(f, i as nat),
            acc <= i * MAX_BOUND,
            i > 0 ==> !beats(acc as nat, threshold),
            follows(q, run, cursors@),
            q.lens == lens,
            work::pivot(q, run.at, order@, threshold, 0) == work::pivot(
                q,
                run.at,
                order@,
                threshold,
                i as int,
            ),
        decreases order@.len() - i,
    {
        let j: usize = order[i];
        proof {
            reveal(follows);
            lemma_doc(q, run, cursors@, j as int);
            lemma_bounds_along(q, run, cursors@, order@, (i + 1) as nat);
        }
        if cursors[j].is_exhausted() {
            proof {
                assert forall|q: int| i <= q < order@.len() implies cursors@[
                #[trigger] order@[q] as int].current_doc == u32::MAX by {
                    if q > i {
                        assert(cursors@[order@[i as int] as int].current_doc
                            <= cursors@[order@[q] as int].current_doc);
                    }
                }
            }
            return (None, i);
        }
        proof {
            assert(cursors@[j as int].wf(lens));
            assert(cursors@[j as int].list_bound <= MAX_BOUND);
            assert((i + 1) * MAX_BOUND == i * MAX_BOUND + MAX_BOUND);
        }
        let next: u64 = acc + cursors[j].list_max_score();
        assert(next == sums::total(f, (i + 1) as nat));
        if threshold.beaten_by(next) {
            return (Some(i), i);
        }
        acc = next;
        i += 1;
    }
    (None, i)
}

/// The last cursor of `order` that stands on the document of cursor `p0`: all
/// of them belong to the pivot.
fn extend_pivot(
    cursors: &Vec<Cursor>,
    order: &Vec<usize>,
    p0: usize,
    Ghost(q): Ghost<Query>,
    Ghost(run): Ghost<Run>,
) -> (p: usize)
    requires
        by_doc(cursors@, order@),
        p0 < order@.len(),
        follows(q, run, cursors@),
        forall|j: int| 0 <= j < cursors@.len() ==> (#[trigger] cursors@[j]).wf(q.lens),
    ensures
        p0 <= p < order@.len(),
        p == work::pivot_end(q, run.at, order@, p0 as int),
        cursors@[order@[p as int] as int].current_doc
            == cursors@[order@[p0 as int] as int].current_doc,
        p + 1 < order@.len() ==> cursors@[order@[p + 1] as int].current_doc
            != cursors@[order@[p0 as int] as int].current_doc,
{
    let pivot_doc: u32 = cursors[order[p0]].doc_id();
    let mut p: usize = p0;
    let all: usize = order.len();
    proof {
        lemma_doc(q, run, cursors@, order@[p0 as int] as int);
        if p0 + 1 < all {
            lemma_doc(q, run, cursors@, order@[p0 + 1] as int);
        }
    }
    while p + 1 < all && cursors[order[p + 1]].doc_id() == pivot_doc
        invariant
            all == order@.len(),
            by_doc(cursors@, order@),
            p0 <= p < order@.len(),
            follows(q, run, cursors@),
            forall|j: int| 0 <= j < cursors@.len() ==> (#[trigger] cursors@[j]).wf(q.lens),
            cursors@[order@[p as int] as int].current_doc == pivot_doc,
            q.doc(run.at, order@[p as int] as int) == pivot_doc,
            p + 1 < order@.len() ==> q.doc(run.at, order@[p + 1] as int)
                == cursors@[order@[p + 1] as int].current_doc,
            work::pivot_end(q, run.at, order@, p0 as int) == work::pivot_end(
                q,
                run.at,
                order@,
                p as int,
            ),
        decreases order@.len() - p,
    {
        p += 1;
        proof {
            if p + 1 < all {
                lemma_doc(q, run, cursors@, order@[p + 1] as int);
            }
        }
    }
    p
}

/// What a round of the search has found out: the pivot, the bound of its
/// blocks and the nearest of their ends.
pub open spec fn at_pivot(
    q: Query,
    r: Run,
    n: nat,
    cursors: Seq<Cursor>,
    order: Seq<usize>,
    t: Threshold,
    p0: int,
    p: int,
    d: u32,
    bound: nat,
    last: u32,
) -> bool {
    &&& q.pruning is Wand
    &&& r == work::after(q, n)
    &&& follows(q, r, cursors)
    &&& by_doc(cursors, order)
    &&& order == work::by_document(q, r.at)
    &&& t == q.bar(r.hits)
    &&& work::pivot(q, r.at, order, t, 0) == Some(p0)
    &&& 0 <= p0 <= p < order.len()
    &&& p == work::pivot_end(q, r.at, order, p0)
    &&& d == cursors[order[p0] as int].current_doc
    &&& work::blocks_at(q, r.at, order, d, (p + 1) as nat) == (bound, last)
}

/// Nothing is left.
proof fn lemma_round_over(q: Query, r: Run, n: nat, t: Threshold)
    requires
        q.pruning is Wand,
        r == work::after(q, n),
        t == q.bar(r.hits),
        work::pivot(q, r.at, work::by_document(q, r.at), t, 0) is None,
    ensures
        work::over(q, n),
{
    reveal(work::wand_step);
}

/// The pivot document is scored.
proof fn lemma_round_scores(
    q: Query,
    r: Run,
    n: nat,
    cursors: Seq<Cursor>,
    order: Seq<usize>,
    t: Threshold,
    p0: int,
    p: int,
    d: u32,
    bound: nat,
    last: u32,
    score: u64,
    after: Seq<Cursor>,
    top: TopK,
    new_top: TopK,
    s: SearchStats,
)
    requires
        at_pivot(q, r, n, cursors, order, t, p0, p, d, bound, last),
        forall|j: int| 0 <= j < cursors.len() ==> (#[trigger] cursors[j]).wf(q.lens),
        beats(bound, t),
        cursors[order[0] as int].current_doc == d,
        score == q.standing(r.at, d, q.models.len()),
        follows(q, q.stepped(r, d, q.models.len()), after),
        q.stepped(r, d, q.models.len()).hits == r.hits,
        work::counts(s, q.stepped(r, d, q.models.len()).work),
        top.k == q.k,
        r.hits == top.hits@,
        t == top.threshold_spec(),
        ((q.dead)(d) || !beats(score as nat, t)) ==> new_top.hits@ == top.hits@,
        !(q.dead)(d) && beats(score as nat, t) ==> new_top.hits@ == ({
            let all = insert_ranked(top.hits@, SearchHit { doc_id: d, score });
            if all.len() > top.k {
                all.drop_last()
            } else {
                all
            }
        }),
    ensures
        follows(q, work::after(q, n + 1), after),
        work::after(q, n + 1).hits == new_top.hits@,
        work::counts(
            SearchStats {
                num_docs_scored: (if s.num_docs_scored < usize::MAX {
                    (s.num_docs_scored + 1) as usize
                } else {
                    usize::MAX
                }),
                ..s
            },
            work::after(q, n + 1).work,
        ),
{
    reveal(follows);
    lemma_doc(q, r, cursors, order[p0] as int);
    lemma_doc(q, r, cursors, order[0] as int);
    let next = q.judged(q.stepped(r, d, q.models.len()), d, score as nat);
    reveal(work::wand_step);
    assert(work::wand_step(q, r) == Some(next));
    assert(work::after(q, n + 1) == next);
}

/// A cursor before the pivot is moved up to it.
proof fn lemma_round_aligns(
    q: Query,
    r: Run,
    n: nat,
    cursors: Seq<Cursor>,
    order: Seq<usize>,
    t: Threshold,
    p0: int,
    p: int,
    d: u32,
    bound: nat,
    last: u32,
)
    requires
        at_pivot(q, r, n, cursors, order, t, p0, p, d, bound, last),
        forall|j: int| 0 <= j < cursors.len() ==> (#[trigger] cursors[j]).wf(q.lens),
        beats(bound, t),
        cursors[order[0] as int].current_doc != d,
    ensures
        work::after(q, n + 1) == q.sought(r, work::heaviest(q, r.at, order, p as nat, d), d),
{
    lemma_doc(q, r, cursors, order[p0] as int);
    lemma_doc(q, r, cursors, order[0] as int);
    let next = q.sought(r, work::heaviest(q, r.at, order, p as nat, d), d);
    reveal(work::wand_step);
    assert(work::wand_step(q, r) == Some(next));
}

/// A cursor of the pivot is moved beyond the blocks that cannot win.
proof fn lemma_round_skips(
    q: Query,
    r: Run,
    n: nat,
    cursors: Seq<Cursor>,
    order: Seq<usize>,
    t: Threshold,
    p0: int,
    p: int,
    d: u32,
    bound: nat,
    last: u32,
    next_doc: u32,
)
    requires
        at_pivot(q, r, n, cursors, order, t, p0, p, d, bound, last),
        forall|j: int| 0 <= j < cursors.len() ==> (#[trigger] cursors[j]).wf(q.lens),
        !beats(bound, t),
        last < u32::MAX,
        next_doc == (if p + 1 < order.len() && cursors[order[p + 1] as int].current_doc <= last {
            cursors[order[p + 1] as int].current_doc as int
        } else {
            last + 1
        }),
    ensures
        work::after(q, n + 1) == q.sought(
            r,
            work::heaviest(q, r.at, order, (p + 1) as nat, next_doc),
            next_doc,
        ),
{
    lemma_doc(q, r, cursors, order[p0] as int);
    if p + 1 < order.len() {
        lemma_doc(q, r, cursors, order[p + 1] as int);
    }
    let next = q.sought(
        r,
        work::heaviest(q, r.at, order, (p + 1) as nat, next_doc),
        next_doc,
    );
    reveal(work::wand_step);
    assert(work::wand_step(q, r) == Some(next));
}

/// A matching document that no cursor has passed, and that only the first `m`
/// cursors can hold, loses when their list bounds do not beat the threshold.
proof fn lemma_prefix_loses(
    cursors: Seq<Cursor>,
    top: TopK,
    models: Seq<TermModel>,
    lens: Seq<u32>,
    dead: spec_fn(u32) -> bool,
    order: Seq<usize>,
    m: nat,
    d: u32,
)
    requires
        search_ok(cursors, top, models, lens, dead),
        by_doc(cursors, order),
        m <= order.len(),
        m > 0 ==> !beats(sums::total(sums::along(bounds(cursors), order), m), top.threshold_spec()),
        matches_query(models, dead, d),
        forall|j: int| 0 <= j < cursors.len() ==> !passed(#[trigger] cursors[j], d),
        forall|j: int|
            0 <= j < models.len() && holds(#[trigger] models[j], d) ==> exists|i: int|
                0 <= i < m && order[i] == j,
    ensures
        covered(top.hits@, models, lens, top.k as nat, d),
{
    let j0 = choose|j: int| 0 <= j < models.len() && #[trigger] holds(models[j], d);
    assert(holds(models[j0], d));
    lemma_ahead(cursors[j0], lens, d);
    let g = bounds(cursors);
    assert forall|j: int| 0 <= j < models.len() implies term_weight(#[trigger] models[j], lens, d)
        <= g(j) by {
        if holds(models[j], d) {
            lemma_held_bounded(cursors[j], lens, d);
        }
    }
    assert forall|i: int| 0 <= i < m implies #[trigger] order[i] < models.len() by {}
    assert forall|a: int, b: int| 0 <= a < b < m implies #[trigger] order[a] != #[trigger] order[b] by {}
    lemma_score_bounded(models, lens, d, g, order, m);
    assert forall|i: int| 0 <= i < top.hits@.len() implies (#[trigger] top.hits@[i]).doc_id < d by {
        assert(top.hits@[i].doc_id < cursors[j0].current_doc);
    }
    lemma_bounded_loses(top, models, lens, d, sums::total(sums::along(g, order), m));
}

/// The weight of a held document is within the bound of the list.
pub proof fn lemma_held_bounded(c: Cursor, lens: Seq<u32>, d: u32)
    requires
        c.wf(lens),
        holds(model_of(c.term), d),
    ensures
        term_weight(model_of(c.term), lens, d) <= c.list_bound,
{
    let i = choose|i: int| stands_at(model_of(c.term), i, d);
    lemma_weight_at(c.term, lens, i);
    c.term.law_bounds_are_safe(lens, i);
}

/// Moving one cursor forward keeps the search right if every matching
/// document it passes is covered.
proof fn lemma_move(
    before: Seq<Cursor>,
    after: Seq<Cursor>,
    at: int,
    top: TopK,
    models: Seq<TermModel>,
    lens: Seq<u32>,
    dead: spec_fn(u32) -> bool,
)
    requires
        search_ok(before, top, models, lens, dead),
        0 <= at < before.len(),
        after == before.update(at, after[at]),
        after[at].wf(lens),
        after[at].term == before[at].term,
        before[at].pos <= after[at].pos,
        forall|i: int|
            before[at].pos <= i < after[at].pos && matches_query(
                models,
                dead,
                (#[trigger] before[at].term.list()[i]).doc_id,
            ) ==> covered(
                top.hits@,
                models,
                lens,
                top.k as nat,
                before[at].term.list()[i].doc_id,
            ),
    ensures
        search_ok(after, top, models, lens, dead),
{
    let p = before[at].term.list();
    assert(before[at].current_doc <= after[at].current_doc) by {
        if before[at].pos < after[at].pos && after[at].pos < after[at].term.df {
            assert(p[before[at].pos as int].doc_id < p[after[at].pos as int].doc_id);
        }
    }
    assert forall|j: int| 0 <= j < after.len() implies (#[trigger] after[j]).wf(lens) && model_of(
        after[j].term,
    ) == models[j] by {
        assert(before[j].wf(lens));
    }
    assert forall|i: int, j: int| 0 <= i < top.hits@.len() && 0 <= j < after.len() implies (
    #[trigger] top.hits@[i]).doc_id < (#[trigger] after[j]).current_doc by {
        assert(top.hits@[i].doc_id < before[j].current_doc);
    }
    assert forall|d: u32, j: int|
        #![trigger matches_query(models, dead, d), after[j]]
        0 <= j < after.len() && matches_query(models, dead, d) && passed(after[j], d) implies covered(
        top.hits@,
        models,
        lens,
        top.k as nat,
        d,
    ) by {
        let i = choose|i: int| 0 <= i < after[j].pos && (#[trigger] after[j].term.list()[i]).doc_id == d;
        if j != at || i < before[at].pos {
            assert(before[j].term.list()[i].doc_id == d);
            assert(passed(before[j], d));
        } else {
            assert(p[i].doc_id == d);
        }
    }
}

/// Moving one cursor leaves fewer postings ahead.
proof fn lemma_move_shrinks(before: Seq<Cursor>, after: Seq<Cursor>, at: int)
    requires
        0 <= at < before.len(),
        after == before.update(at, after[at]),
        after[at].term == before[at].term,
        before[at].pos < after[at].pos <= after[at].term.df,
    ensures
        sums::total(ahead(after), after.len()) < sums::total(ahead(before), before.len()),
{
    sums::lemma_total_lt(ahead(after), ahead(before), before.len(), at);
}

/// Sum of the block bounds of the first `p + 1` cursors at `pivot_doc`, and
/// the nearest block boundary. The ghost part gives the summed bounds cursor
/// by cursor.
fn block_bounds(
    cursors: &Vec<Cursor>,
    order: &Vec<usize>,
    p: usize,
    pivot_doc: u32,
    Ghost(lens): Ghost<Seq<u32>>,
    Ghost(q): Ghost<Query>,
    Ghost(run): Ghost<Run>,
) -> (r: (u64, u32, Ghost<Seq<nat>>))
    requires
        follows(q, run, cursors@),
        q.lens == lens,
        cursors@.len() <= MAX_TERMS,
        forall|j: int| 0 <= j < cursors@.len() ==> (#[trigger] cursors@[j]).wf(lens),
        by_doc(cursors@, order@),
        p < order@.len(),
        pivot_doc < u32::MAX,
        cursors@[order@[p as int] as int].current_doc == pivot_doc,
    ensures
        work::blocks_at(q, run.at, order@, pivot_doc, (p + 1) as nat) == (r.0 as nat, r.1),
        r.2@.len() == cursors@.len(),
        r.0 == sums::total(sums::along(sums::of_seq(r.2@), order@), (p + 1) as nat),
        pivot_doc <= r.1 < u32::MAX,
        forall|i: int, d: u32|
            #![trigger order@[i], holds(model_of(cursors@[order@[i] as int].term), d)]
            0 <= i <= p && pivot_doc <= d <= r.1 && !passed(cursors@[order@[i] as int], d) && holds(
                model_of(cursors@[order@[i] as int].term),
                d,
            ) ==> term_weight(model_of(cursors@[order@[i] as int].term), lens, d)
                <= r.2@[order@[i] as int],
{
    let ghost mut gb: Seq<nat> = Seq::new(cursors@.len(), |j: int| 0nat);
    let mut acc: u64 = 0;
    let mut boundary: u32 = u32::MAX;
    let mut i: usize = 0;
    while i <= p
        invariant
            cursors@.len() <= MAX_TERMS,
            forall|j: int| 0 <= j < cursors@.len() ==> (#[trigger] cursors@[j]).wf(lens),
            by_doc(cursors@, order@),
            p < order@.len(),
            pivot_doc < u32::MAX,
            cursors@[order@[p as int] as int].current_doc == pivot_doc,
            gb.len() == cursors@.len(),
            follows(q, run, cursors@),
            q.lens == lens,
            work::blocks_at(q, run.at, order@, pivot_doc, i as nat) == (acc as nat, boundary),
            i <= p + 1,
            acc == sums::total(sums::along(sums::of_seq(gb), order@), i as nat),
            acc <= i * MAX_BOUND,
            pivot_doc <= boundary,
            i > p ==> boundary < u32::MAX,
            forall|q: int, d: u32|
                #![trigger order@[q], holds(model_of(cursors@[order@[q] as int].term), d)]
                0 <= q < i && pivot_doc <= d <= boundary && !passed(cursors@[order@[q] as int], d)
                    && holds(model_of(cursors@[order@[q] as int].term), d) ==> term_weight(
                    model_of(cursors@[order@[q] as int].term),
                    lens,
                    d,
                ) <= gb[order@[q] as int],
        decreases p + 1 - i,
    {
        let j: usize = order[i];
        let ghost c = cursors@[j as int];
        let ghost before = gb;
        let ghost prev_boundary = boundary;
        proof {
            assert(c.wf(lens));
            if i < p {
                assert(cursors@[order@[i as int] as int].current_doc
                    <= cursors@[order@[p as int] as int].current_doc);
            }
            assert(c.pos < c.term.df);
            reveal(follows);
            assert(fits(q, c.term, j as int));
        }
        let found = cursors[j].shallow_block_for(pivot_doc, Ghost(lens));
        proof {
            let add = match found {
                Some((b, _)) => b as nat,
                None => 0nat,
            };
            gb = before.update(j as int, add);
            assert forall|q: int| 0 <= q < i implies #[trigger] sums::along(
                sums::of_seq(gb),
                order@,
            )(q) == sums::along(sums::of_seq(before), order@)(q) by {
                assert(order@[q] != order@[i as int]);
            }
            sums::lemma_total_eq(
                sums::along(sums::of_seq(gb), order@),
                sums::along(sums::of_seq(before), order@),
                i as nat,
            );
        }
        match found {
            Some((bound, last)) => {
                acc = acc + bound;
                if last < boundary {
                    boundary = last;
                }
            },
            None => {},
        }
        proof {
            if i == p && found is None {
                assert(c.term.list()[c.pos as int].doc_id < pivot_doc);
            }
            assert forall|q: int, d: u32|
                #![trigger order@[q], holds(model_of(cursors@[order@[q] as int].term), d)]
                0 <= q < i + 1 && pivot_doc <= d <= boundary && !passed(
                    cursors@[order@[q] as int],
                    d,
                ) && holds(model_of(cursors@[order@[q] as int].term), d) implies term_weight(
                model_of(cursors@[order@[q] as int].term),
                lens,
                d,
            ) <= gb[order@[q] as int] by {
                if q < i {
                    assert(order@[q] != order@[i as int]);
                } else {
                    lemma_ahead(c, lens, d);
                    let w = choose|w: int|
                        c.pos <= w < c.term.df && (#[trigger] c.term.list()[w]).doc_id == d;
                    lemma_weight_at(c.term, lens, w);
                }
            }
        }
        i += 1;
    }
    (acc, boundary, Ghost(gb))
}

/// The cursor with the largest list bound among the first `m` of `order`
/// whose document is below `limit`.
fn heaviest(
    cursors: &Vec<Cursor>,
    order: &Vec<usize>,
    m: usize,
    limit: u32,
    Ghost(q): Ghost<Query>,
    Ghost(run): Ghost<Run>,
) -> (at: usize)
    requires
        by_doc(cursors@, order@),
        0 < m <= order@.len(),
        cursors@[order@[0] as int].current_doc < limit,
        follows(q, run, cursors@),
        forall|j: int| 0 <= j < cursors@.len() ==> (#[trigger] cursors@[j]).wf(q.lens),
    ensures
        at == work::heaviest(q, run.at, order@, m as nat, limit),
        at < cursors@.len(),
        cursors@[at as int].current_doc < limit,
{
    let mut chosen: usize = order[0];
    let mut i: usize = 1;
    while i < m
        invariant
            by_doc(cursors@, order@),
            0 < i <= m <= order@.len(),
            chosen < cursors@.len(),
            cursors@[chosen as int].current_doc < limit,
            follows(q, run, cursors@),
            forall|j: int| 0 <= j < cursors@.len() ==> (#[trigger] cursors@[j]).wf(q.lens),
            chosen == work::heaviest(q, run.at, order@, i as nat, limit),
        decreases m - i,
    {
        let j: usize = order[i];
        proof {
            lemma_doc(q, run, cursors@, j as int);
            lemma_doc(q, run, cursors@, chosen as int);
        }
        if cursors[j].doc_id() < limit && cursors[j].list_max_score()
            > cursors[chosen].list_max_score() {
            chosen = j;
        }
        i += 1;
    }
    chosen
}

/// What the cursors that stand on `d` add to its score.
pub open spec fn standing_weights(cursors: Seq<Cursor>, lens: Seq<u32>, d: u32) -> spec_fn(
    int,
) -> nat {
    |j: int|
        if cursors[j].current_doc == d {
            term_weight(model_of(cursors[j].term), lens, d)
        } else {
            0
        }
}

/// Cursor `a` became `b`: one step forward if it stood on `d`, else as it was.
pub open spec fn stepped(a: Cursor, b: Cursor, d: u32) -> bool {
    &&& b.term == a.term
    &&& b.pos == (if a.current_doc == d {
        a.pos + 1
    } else {
        a.pos as int
    })
}

/// Moving one cursor keeps the counters in line with the cursors.
pub(crate) proof fn lemma_charge(
    before: Seq<Cursor>,
    after: Seq<Cursor>,
    at: int,
    skipped: int,
    s: SearchStats,
    t: SearchStats,
)
    requires
        accounted(s, before),
        0 <= at < before.len(),
        after == before.update(at, after[at]),
        forward(before[at], after[at]),
        0 <= skipped <= after[at].block - before[at].block,
        charged(before[at], after[at], skipped, s, t),
    ensures
        accounted(t, after),
{
    let n = before.len();
    lemma_total_step(
        |j: int| reached(before[j]),
        |j: int| reached(after[j]),
        n,
        at,
    );
    lemma_total_step(
        |j: int| before[j].block as nat,
        |j: int| after[j].block as nat,
        n,
        at,
    );
}

/// Two sums that differ in one term differ by that term.
proof fn lemma_total_step(f: spec_fn(int) -> nat, g: spec_fn(int) -> nat, n: nat, at: int)
    requires
        0 <= at < n,
        forall|i: int| 0 <= i < n && i != at ==> #[trigger] f(i) == g(i),
    ensures
        sums::total(g, n) == sums::total(f, n) - f(at) + g(at),
    decreases n,
{
    if at == n - 1 {
        sums::lemma_total_eq(f, g, (n - 1) as nat);
    } else {
        lemma_total_step(f, g, (n - 1) as nat, at);
        assert(f(n - 1) == g(n - 1));
    }
}

/// The counters lie within the postings of the terms.
pub(crate) proof fn lemma_work_bounded(
    stats: SearchStats,
    cursors: Seq<Cursor>,
    models: Seq<TermModel>,
    lens: Seq<u32>,
)
    requires
        accounted(stats, cursors),
        cursors_ok(cursors, models, lens),
    ensures
        work_bounded(stats, models),
{
    let g = |j: int| models[j].list.len();
    assert forall|j: int| 0 <= j < cursors.len() implies reached(#[trigger] cursors[j]) <= g(j)
        && cursors[j].block <= g(j) by {
        let c = cursors[j];
        assert(c.wf(lens) && model_of(c.term) == models[j]);
        let (df, bs) = (c.term.df as int, c.term.block_size as int);
        if df > 0 {
            assert((df - 1) * (bs - 1) >= 0) by (nonlinear_arith)
                requires
                    df >= 1,
                    bs >= 1,
            ;
            assert(df + bs - 1 <= df * bs) by (nonlinear_arith)
                requires
                    (df - 1) * (bs - 1) >= 0,
            ;
            vstd::arithmetic::div_mod::lemma_div_is_ordered(df + bs - 1, df * bs, bs);
            vstd::arithmetic::div_mod::lemma_div_by_multiple(df, bs);
        } else {
            vstd::arithmetic::div_mod::lemma_basic_div(bs - 1, bs);
        }
    }
    let reach = |j: int| reached(cursors[j]);
    let skip = |j: int| cursors[j].block as nat;
    assert forall|j: int| 0 <= j < cursors.len() implies #[trigger] reach(j) <= g(j) by {
        assert(reached(cursors[j]) <= g(j));
    }
    assert forall|j: int| 0 <= j < cursors.len() implies #[trigger] skip(j) <= g(j) by {
        assert(reached(cursors[j]) <= g(j));
    }
    sums::lemma_total_le(reach, g, cursors.len());
    sums::lemma_total_le(skip, g, cursors.len());
}

/// Sum what every cursor that stands on `d` adds, and move those cursors on.
pub(crate) fn score_and_step(
    cursors: &mut Vec<Cursor>,
    d: u32,
    doc_len: u32,
    stats: &mut SearchStats,
    Ghost(lens): Ghost<Seq<u32>>,
    Ghost(q): Ghost<Query>,
    Ghost(run): Ghost<Run>,
) -> (score: u64)
    requires
        follows(q, run, old(cursors)@),
        q.lens == lens,
        work::counts(*old(stats), run.work),
        old(cursors)@.len() <= MAX_TERMS,
        forall|j: int| 0 <= j < old(cursors)@.len() ==> (#[trigger] old(cursors)@[j]).wf(lens),
        d < lens.len() <= u32::MAX,
        doc_len == lens[d as int],
        accounted(*old(stats), old(cursors)@),
    ensures
        follows(q, q.stepped(run, d, q.models.len()), final(cursors)@),
        q.stepped(run, d, q.models.len()).hits == run.hits,
        work::counts(*final(stats), q.stepped(run, d, q.models.len()).work),
        score == q.standing(run.at, d, q.models.len()),
        final(cursors)@.len() == old(cursors)@.len(),
        forall|j: int|
            0 <= j < final(cursors)@.len() ==> (#[trigger] final(cursors)@[j]).wf(lens) && stepped(
                old(cursors)@[j],
                final(cursors)@[j],
                d,
            ),
        score == sums::total(
            standing_weights(old(cursors)@, lens, d),
            old(cursors)@.len(),
        ),
        score <= old(cursors)@.len() * MAX_BOUND,
        same_search(*old(stats), *final(stats)),
        accounted(*final(stats), final(cursors)@),
{
    let ghost before = cursors@;
    let ghost f = standing_weights(before, lens, d);
    let mut score: u64 = 0;
    let mut j: usize = 0;
    while j < cursors.len()
        invariant
            before == old(cursors)@,
            before.len() <= MAX_TERMS,
            cursors@.len() == before.len(),
            j <= before.len(),
            d < lens.len() <= u32::MAX,
            doc_len == lens[d as int],
            f == standing_weights(before, lens, d),
            forall|q: int| 0 <= q < before.len() ==> (#[trigger] before[q]).wf(lens),
            forall|q: int|
                0 <= q < j ==> (#[trigger] cursors@[q]).wf(lens) && stepped(
                    before[q],
                    cursors@[q],
                    d,
                ),
            forall|q: int| j <= q < before.len() ==> #[trigger] cursors@[q] == before[q],
            score == sums::total(f, j as nat),
            score <= j * MAX_BOUND,
            same_search(*old(stats), *stats),
            accounted(*stats, cursors@),
            q.lens == lens,
            follows(q, run, before),
            follows(q, q.stepped(run, d, j as nat), cursors@),
            q.stepped(run, d, j as nat).hits == run.hits,
            work::counts(*stats, q.stepped(run, d, j as nat).work),
            score == q.standing(run.at, d, j as nat),
        decreases before.len() - j,
    {
        proof {
            assert(cursors@[j as int] == before[j as int]);
            assert(before[j as int].wf(lens));
            reveal(follows);
            lemma_doc(q, run, before, j as int);
            assert(fits(q, before[j as int].term, j as int));
        }
        let ghost sofar_run = q.stepped(run, d, j as nat);
        if cursors[j].doc_id() == d {
            let ghost c = before[j as int];
            let tf: u32 = cursors[j].current_tf(Ghost(lens));
            let add: u64 = bm25::term_contribution(
                cursors[j].term.idf,
                tf,
                doc_len,
                cursors[j].term.avg_doc_len,
            );
            proof {
                lemma_weight_at(c.term, lens, c.pos as int);
                assert(add == f(j as int));
            }
            score = score + add;
            let ghost (mid, sofar) = (cursors@, *stats);
            cursors[j].next(stats, Ghost(lens));
            proof {
                assert(cursors@ =~= mid.update(j as int, cursors@[j as int]));
                lemma_charge(mid, cursors@, j as int, 0, sofar, *stats);
                lemma_moved(
                    mid[j as int],
                    cursors@[j as int],
                    false,
                    sofar,
                    *stats,
                    lens,
                    sofar_run.work,
                );
                lemma_follows_move(q, sofar_run, mid, cursors@, j as int, false);
            }
        }
        j += 1;
    }
    proof {
        reveal(follows);
    }
    score
}

/// The run moves as the cursor does.
pub(crate) proof fn lemma_follows_move(
    q: Query,
    r: Run,
    before: Seq<Cursor>,
    after: Seq<Cursor>,
    j: int,
    jump: bool,
)
    requires
        follows(q, r, before),
        0 <= j < before.len(),
        after == before.update(j, after[j]),
        after[j].term == before[j].term,
    ensures
        follows(q, q.moved_to(r, j, after[j].pos as int, jump), after),
{
    reveal(follows);
    let s = q.moved_to(r, j, after[j].pos as int, jump);
    assert forall|x: int| 0 <= x < after.len() implies fits(q, (#[trigger] after[x]).term, x)
        && s.at[x] == after[x].pos by {
        assert(fits(q, before[x].term, x) && r.at[x] == before[x].pos);
    }
}

/// The run seeks as the cursor does.
pub(crate) proof fn lemma_follows_seek(
    q: Query,
    r: Run,
    before: Seq<Cursor>,
    after: Seq<Cursor>,
    j: int,
    target: u32,
    s: SearchStats,
    t: SearchStats,
)
    requires
        follows(q, r, before),
        work::counts(s, r.work),
        0 <= j < before.len(),
        after == before.update(j, after[j]),
        after[j].term == before[j].term,
        before[j].wf(q.lens),
        after[j].wf(q.lens),
        before[j].current_doc < target,
        before[j].pos <= after[j].pos,
        forall|i: int|
            before[j].pos <= i < after[j].pos ==> (#[trigger] before[j].term.list()[i]).doc_id
                < target,
        after[j].current_doc >= target,
        after[j].pos >= after[j].term.df ==> same_reach(before[j], after[j]) && after[j].block
            == after[j].term.blocks(),
        charged(before[j], after[j], after[j].block - before[j].block, s, t),
    ensures
        follows(q, q.sought(r, j, target), after),
        work::counts(t, q.sought(r, j, target).work),
        q.sought(r, j, target).hits == r.hits,
{
    reveal(follows);
    let (a, b) = (before[j], after[j]);
    assert(fits(q, a.term, j) && r.at[j] == a.pos);
    work::lemma_landing(a.term.list(), a.pos as int, target, b.pos as int);
    lemma_moved(a, b, true, s, t, q.lens, r.work);
    lemma_follows_move(q, r, before, after, j, true);
}

/// Scoring a document that no cursor lies before keeps the search right.
proof fn lemma_scored(
    before: Seq<Cursor>,
    after: Seq<Cursor>,
    top: TopK,
    new_top: TopK,
    models: Seq<TermModel>,
    lens: Seq<u32>,
    dead: spec_fn(u32) -> bool,
    d: u32,
    score: u64,
)
    requires
        search_ok(before, top, models, lens, dead),
        after.len() == before.len(),
        forall|j: int|
            0 <= j < after.len() ==> (#[trigger] after[j]).wf(lens) && stepped(
                before[j],
                after[j],
                d,
            ),
        forall|j: int| 0 <= j < before.len() ==> d <= (#[trigger] before[j]).current_doc,
        exists|j: int| 0 <= j < before.len() && (#[trigger] before[j]).current_doc == d,
        d < u32::MAX,
        score == sums::total(standing_weights(before, lens, d), before.len()),
        new_top.wf(),
        new_top.k == top.k,
        (dead(d) || !beats(score as nat, top.threshold_spec())) ==> new_top.hits@ == top.hits@,
        !dead(d) && beats(score as nat, top.threshold_spec()) ==> new_top.hits@ == ({
            let all = insert_ranked(top.hits@, SearchHit { doc_id: d, score });
            if all.len() > top.k {
                all.drop_last()
            } else {
                all
            }
        }),
    ensures
        search_ok(after, new_top, models, lens, dead),
        forall|j: int| 0 <= j < after.len() ==> d < (#[trigger] after[j]).current_doc,
        sums::total(ahead(after), after.len()) < sums::total(ahead(before), before.len()),
{
    let n = before.len();
    let h = SearchHit { doc_id: d, score };
    let w = weights(models, lens, d);
    let f = standing_weights(before, lens, d);
    let js = choose|j: int| 0 <= j < before.len() && (#[trigger] before[j]).current_doc == d;
    // The sum over the standing cursors is at most the score, and is the
    // score when no cursor has passed the document.
    assert forall|j: int| 0 <= j < n implies #[trigger] f(j) <= w(j) by {
        assert(model_of(before[j].term) == models[j]);
    }
    sums::lemma_total_le(f, w, n);
    let fresh = forall|j: int| 0 <= j < n ==> !passed(#[trigger] before[j], d);
    if fresh {
        assert forall|j: int| 0 <= j < n implies #[trigger] f(j) == w(j) by {
            assert(before[j].wf(lens));
            if holds(models[j], d) {
                lemma_ahead(before[j], lens, d);
            }
        }
        sums::lemma_total_eq(f, w, n);
    }
    let c = before[js];
    assert(c.wf(lens));
    assert(c.pos < c.term.df);
    lemma_weight_at(c.term, lens, c.pos as int);
    assert(holds(models[js], d));
    assert(!dead(d) ==> matches_query(models, dead, d));
    assert forall|i: int| 0 <= i < top.hits@.len() implies (#[trigger] top.hits@[i]).doc_id < d by {
        assert(top.hits@[i].doc_id < before[js].current_doc);
    }
    // Every cursor is now past the document.
    assert forall|j: int| 0 <= j < n implies d < (#[trigger] after[j]).current_doc by {
        let a = before[j];
        let b = after[j];
        assert(a.wf(lens));
        assert(b.term == a.term);
        if a.current_doc == d {
            if b.pos < b.term.df {
                assert(a.term.list()[a.pos as int].doc_id < a.term.list()[b.pos as int].doc_id);
            }
        }
    }
    // Coverage of the document itself and of everything covered before.
    if !dead(d) {
        if !fresh {
            let jp = choose|j: int| 0 <= j < n && passed(#[trigger] before[j], d);
            assert(covered(top.hits@, models, lens, top.k as nat, d));
            assert(loses(top.hits@, score_of(models, lens, d), top.k as nat, d));
            assert(top.hits@[top.hits@.len() - 1].score >= score_of(models, lens, d));
            assert(!beats(score as nat, top.threshold_spec()));
        } else if !beats(score as nat, top.threshold_spec()) {
            lemma_bounded_loses(top, models, lens, d, score as nat);
        }
    }
    let inserted = !dead(d) && beats(score as nat, top.threshold_spec());
    if inserted {
        lemma_insert_keeps_hits(top, new_top, h, models, lens, dead);
    }
    assert forall|i: int, j: int| 0 <= i < new_top.hits@.len() && 0 <= j < after.len() implies (
    #[trigger] new_top.hits@[i]).doc_id < (#[trigger] after[j]).current_doc by {
        assert(d < after[j].current_doc);
        if inserted && new_top.hits@[i] != h {
            assert(top.hits@.contains(new_top.hits@[i]));
            let q = choose|q: int| 0 <= q < top.hits@.len() && top.hits@[q] == new_top.hits@[i];
            assert(top.hits@[q].doc_id < d);
        }
        if !inserted {
            assert(top.hits@[i].doc_id < d);
        }
    }
    assert forall|x: u32, j: int|
        #![trigger matches_query(models, dead, x), after[j]]
        0 <= j < after.len() && matches_query(models, dead, x) && passed(after[j], x) implies covered(
        new_top.hits@,
        models,
        lens,
        new_top.k as nat,
        x,
    ) by {
        let i = choose|i: int| 0 <= i < after[j].pos && (#[trigger] after[j].term.list()[i]).doc_id == x;
        assert(before[j].wf(lens));
        if i < before[j].pos {
            assert(before[j].term.list()[i].doc_id == x);
            assert(passed(before[j], x));
            assert(covered(top.hits@, models, lens, top.k as nat, x));
        } else {
            assert(i == before[j].pos);
            assert(x == d);
        }
        if inserted {
            lemma_insert_keeps_covered(top, new_top, h, models, lens, dead, x);
        }
    }
    assert forall|j: int| 0 <= j < after.len() implies (#[trigger] after[j]).wf(lens) && model_of(
        after[j].term,
    ) == models[j] by {
        assert(model_of(before[j].term) == models[j]);
    }
    assert forall|j: int| 0 <= j < n implies #[trigger] ahead(after)(j) <= ahead(before)(j) by {
        assert(stepped(before[j], after[j], d));
        assert(after[j].wf(lens));
    }
    assert(stepped(before[js], after[js], d));
    assert(after[js].wf(lens));
    sums::lemma_total_lt(ahead(after), ahead(before), n, js);
}

/// Run the cursors to the end.
#[verifier::spinoff_prover]
#[verifier::rlimit(30)]
fn evaluate<'a, I: SearchableIndex + ?Sized>(
    index: &'a I,
    cursors_in: Vec<Cursor<'a>>,
    k: usize,
    stats: &mut SearchStats,
    Ghost(models): Ghost<Seq<TermModel>>,
    Ghost(q): Ghost<Query>,
) -> (hits: Vec<SearchHit>)
    requires
        index.wf(),
        k > 0,
        q.models == models,
        q.lens == index.lens(),
        q.dead == dead_of(index),
        q.k == k,
        q.pruning is Wand,
        follows(q, work::started(q), cursors_in@),
        work::counts(*old(stats), work::started(q).work),
        cursors_in@.len() <= MAX_TERMS,
        cursors_ok(cursors_in@, models, index.lens()),
        forall|j: int| 0 <= j < cursors_in@.len() ==> (#[trigger] cursors_in@[j]).pos == 0,
        old(stats).num_docs_scored == 0,
        accounted(*old(stats), cursors_in@),
    ensures
        is_top_k(hits@, models, index.lens(), dead_of(index), k as nat),
        final(stats).num_docs_total == old(stats).num_docs_total,
        final(stats).num_query_terms == old(stats).num_query_terms,
        hits@.len() <= final(stats).num_docs_scored <= index.lens().len(),
        work_bounded(*final(stats), models),
        work::counts(*final(stats), work::work_of(q)),
{
    let ghost mut rounds: nat = 0;
    let ghost mut run = work::started(q);
    let ghost lens = index.lens();
    let ghost dead = dead_of(index);
    let mut cursors = cursors_in;
    let mut top_k = TopK::new(k);
    let ghost mut floor: int = -1;
    let mut done: bool = false;
    while !done
        invariant
            index.wf(),
            lens == index.lens(),
            dead == dead_of(index),
            top_k.k == k,
            cursors@.len() <= MAX_TERMS,
            search_ok(cursors@, top_k, models, lens, dead),
            q.models == models,
            q.lens == lens,
            q.dead == dead,
            q.k == k,
            q.pruning is Wand,
            run == work::after(q, rounds),
            follows(q, run, cursors@),
            run.hits == top_k.hits@,
            work::counts(*stats, run.work),
            done ==> work::over(q, rounds),
            done ==> forall|d: u32| #[trigger]
                matches_query(models, dead, d) ==> covered(top_k.hits@, models, lens, k as nat, d),
            stats.num_docs_total == old(stats).num_docs_total,
            stats.num_query_terms == old(stats).num_query_terms,
            scored_once(*stats, top_k.hits@, floor),
            accounted(*stats, cursors@),
            -1 <= floor < lens.len(),
            forall|j: int| 0 <= j < cursors@.len() ==> floor < (#[trigger] cursors@[j]).current_doc,
        decreases (if done { 0nat } else { 1nat }), sums::total(ahead(cursors@), cursors@.len()),
    {
        let ghost start = cursors@;
        let order = order_by_doc(&cursors, Ghost(q), Ghost(run));
        let threshold = top_k.threshold();
        let (pivot, known) = find_pivot(
            &cursors,
            &order,
            threshold,
            Ghost(lens),
            Ghost(q),
            Ghost(run),
        );

        match pivot {
            None => {
                proof {
                    lemma_round_over(q, run, rounds, threshold);
                    assert forall|d: u32| #[trigger] matches_query(models, dead, d) implies covered(
                        top_k.hits@,
                        models,
                        lens,
                        k as nat,
                        d,
                    ) by {
                        if exists|j: int| 0 <= j < start.len() && passed(#[trigger] start[j], d) {
                        } else {
                            assert forall|j: int|
                                0 <= j < models.len() && holds(#[trigger] models[j], d) implies exists|
                                i: int,
                            |
                                0 <= i < known && order@[i] == j by {
                                lemma_ahead(start[j], lens, d);
                                assert(order@.contains(j as usize));
                                let i = choose|i: int| 0 <= i < order@.len() && order@[i] == j as usize;
                                assert(start[j].current_doc < u32::MAX) by {
                                    assert(start[j].wf(lens));
                                }
                            }
                            lemma_prefix_loses(
                                start,
                                top_k,
                                models,
                                lens,
                                dead,
                                order@,
                                known as nat,
                                d,
                            );
                        }
                    }
                }
                done = true;
            },
            Some(p0) => {
                let pivot_doc: u32 = cursors[order[p0]].doc_id();
                proof {
                    let c = start[order@[p0 as int] as int];
                    assert(c.wf(lens));
                    assert(c.term.list()[c.pos as int].doc_id < lens.len());
                }
                let p: usize = extend_pivot(&cursors, &order, p0, Ghost(q), Ghost(run));
                let all: usize = order.len();
                let (bound, boundary, gb) = block_bounds(
                    &cursors,
                    &order,
                    p,
                    pivot_doc,
                    Ghost(lens),
                    Ghost(q),
                    Ghost(run),
                );
                if threshold.beaten_by(bound) {
                    if cursors[order[0]].doc_id() == pivot_doc {
                        let doc_len: u32 = index.doc_len(pivot_doc);
                        proof {
                            assert forall|j: int| 0 <= j < start.len() implies pivot_doc <= (
                            #[trigger] start[j]).current_doc by {
                                assert(order@.contains(j as usize));
                                let i = choose|i: int| 0 <= i < order@.len() && order@[i] == j as usize;
                                if i > 0 {
                                    assert(start[order@[0] as int].current_doc
                                        <= start[order@[i] as int].current_doc);
                                }
                            }
                        }
                        let score: u64 = score_and_step(
                            &mut cursors,
                            pivot_doc,
                            doc_len,
                            stats,
                            Ghost(lens),
                            Ghost(q),
                            Ghost(run),
                        );
                        let ghost worked = *stats;
                        stats.num_docs_scored = stats.num_docs_scored.saturating_add(1);
                        let ghost before = top_k;
                        if !index.is_deleted(pivot_doc) {
                            let _ = top_k.insert(pivot_doc, score);
                        }
                        proof {
                            assert(start[order@[0] as int].current_doc == pivot_doc);
                            lemma_scored(
                                start,
                                cursors@,
                                before,
                                top_k,
                                models,
                                lens,
                                dead,
                                pivot_doc,
                                score,
                            );
                            floor = pivot_doc as int;
                            lemma_round_scores(
                                q,
                                run,
                                rounds,
                                start,
                                order@,
                                threshold,
                                p0 as int,
                                p as int,
                                pivot_doc,
                                bound as nat,
                                boundary,
                                score,
                                cursors@,
                                before,
                                top_k,
                                worked,
                            );
                            rounds = rounds + 1;
                            run = work::after(q, rounds);
                        }
                    } else {
                        proof {
                            assert(start[order@[0] as int].current_doc < pivot_doc) by {
                                if p0 > 0 {
                                    assert(start[order@[0] as int].current_doc
                                        <= start[order@[p0 as int] as int].current_doc);
                                }
                            }
                        }
                        let at: usize = heaviest(
                            &cursors,
                            &order,
                            p,
                            pivot_doc,
                            Ghost(q),
                            Ghost(run),
                        );
                        let ghost sofar = *stats;
                        cursors[at].seek(pivot_doc, stats, Ghost(lens));
                        proof {
                            lemma_charge(
                                start,
                                cursors@,
                                at as int,
                                cursors@[at as int].block - start[at as int].block,
                                sofar,
                                *stats,
                            );
                            let c = start[at as int];
                            assert(c.wf(lens));
                            assert forall|i: int|
                                c.pos <= i < cursors@[at as int].pos && matches_query(
                                    models,
                                    dead,
                                    (#[trigger] c.term.list()[i]).doc_id,
                                ) implies covered(
                                top_k.hits@,
                                models,
                                lens,
                                k as nat,
                                c.term.list()[i].doc_id,
                            ) by {
                                lemma_before_pivot(
                                    start,
                                    top_k,
                                    models,
                                    lens,
                                    dead,
                                    order@,
                                    p0 as int,
                                    c.term.list()[i].doc_id,
                                );
                            }
                            lemma_move(start, cursors@, at as int, top_k, models, lens, dead);
                            lemma_move_shrinks(start, cursors@, at as int);
                            lemma_follows_seek(
                                q,
                                run,
                                start,
                                cursors@,
                                at as int,
                                pivot_doc,
                                sofar,
                                *stats,
                            );
                            lemma_round_aligns(
                                q,
                                run,
                                rounds,
                                start,
                                order@,
                                threshold,
                                p0 as int,
                                p as int,
                                pivot_doc,
                                bound as nat,
                                boundary,
                            );
                            rounds = rounds + 1;
                            run = work::after(q, rounds);
                        }
                    }
                } else {
                    let mut next_doc: u32 = boundary + 1;
                    if p + 1 < all {
                        let other: u32 = cursors[order[p + 1]].doc_id();
                        if other < next_doc {
                            next_doc = other;
                        }
                    }
                    proof {
                        if p + 1 < order@.len() {
                            assert(start[order@[p as int] as int].current_doc
                                <= start[order@[p + 1] as int].current_doc);
                        }
                        assert(pivot_doc < next_doc);
                        if p > 0 {
                            assert(start[order@[0] as int].current_doc
                                <= start[order@[p as int] as int].current_doc);
                        }
                    }
                    let at: usize = heaviest(
                        &cursors,
                        &order,
                        p + 1,
                        next_doc,
                        Ghost(q),
                        Ghost(run),
                    );
                    let ghost sofar = *stats;
                    cursors[at].seek(next_doc, stats, Ghost(lens));
                    proof {
                        lemma_charge(
                            start,
                            cursors@,
                            at as int,
                            cursors@[at as int].block - start[at as int].block,
                            sofar,
                            *stats,
                        );
                        let c = start[at as int];
                        assert(c.wf(lens));
                        assert forall|i: int|
                            c.pos <= i < cursors@[at as int].pos && matches_query(
                                models,
                                dead,
                                (#[trigger] c.term.list()[i]).doc_id,
                            ) implies covered(
                            top_k.hits@,
                            models,
                            lens,
                            k as nat,
                            c.term.list()[i].doc_id,
                        ) by {
                            let d = c.term.list()[i].doc_id;
                            if d < pivot_doc {
                                lemma_before_pivot(
                                    start,
                                    top_k,
                                    models,
                                    lens,
                                    dead,
                                    order@,
                                    p0 as int,
                                    d,
                                );
                            } else {
                                lemma_in_blocks(
                                    start,
                                    top_k,
                                    models,
                                    lens,
                                    dead,
                                    order@,
                                    p as int,
                                    pivot_doc,
                                    next_doc,
                                    boundary,
                                    gb@,
                                    d,
                                );
                            }
                        }
                        lemma_move(start, cursors@, at as int, top_k, models, lens, dead);
                        lemma_move_shrinks(start, cursors@, at as int);
                        lemma_follows_seek(
                            q,
                            run,
                            start,
                            cursors@,
                            at as int,
                            next_doc,
                            sofar,
                            *stats,
                        );
                        lemma_round_skips(
                            q,
                            run,
                            rounds,
                            start,
                            order@,
                            threshold,
                            p0 as int,
                            p as int,
                            pivot_doc,
                            bound as nat,
                            boundary,
                            next_doc,
                        );
                        rounds = rounds + 1;
                        run = work::after(q, rounds);
                    }
                }
            },
        }
    }
    proof {
        work::lemma_work(q, rounds);
        lemma_work_bounded(*stats, cursors@, models, lens);
        lemma_finished(top_k, models, lens, dead);
    }
    top_k.into_sorted_hits()
}

/// A matching document before the pivot document is covered.
proof fn lemma_before_pivot(
    cursors: Seq<Cursor>,
    top: TopK,
    models: Seq<TermModel>,
    lens: Seq<u32>,
    dead: spec_fn(u32) -> bool,
    order: Seq<usize>,
    p0: int,
    d: u32,
)
    requires
        cursors.len() <= MAX_TERMS,
        search_ok(cursors, top, models, lens, dead),
        by_doc(cursors, order),
        0 <= p0 < order.len(),
        p0 > 0 ==> !beats(
            sums::total(sums::along(bounds(cursors), order), p0 as nat),
            top.threshold_spec(),
        ),
        matches_query(models, dead, d),
        d < cursors[order[p0] as int].current_doc,
    ensures
        covered(top.hits@, models, lens, top.k as nat, d),
{
    if exists|j: int| 0 <= j < cursors.len() && passed(#[trigger] cursors[j], d) {
    } else {
        assert forall|j: int| 0 <= j < models.len() && holds(#[trigger] models[j], d) implies exists|
            i: int,
        |
            0 <= i < p0 && order[i] == j by {
            lemma_ahead(cursors[j], lens, d);
            assert(order.contains(j as usize));
            let i = choose|i: int| 0 <= i < order.len() && order[i] == j as usize;
            if i > p0 {
                assert(cursors[order[p0] as int].current_doc <= cursors[order[i] as int].current_doc);
            }
        }
        lemma_prefix_loses(cursors, top, models, lens, dead, order, p0 as nat, d);
    }
}

/// A matching document from the pivot document on, inside the current blocks
/// and before every later cursor, is covered when the block bounds do not
/// beat the threshold.
proof fn lemma_in_blocks(
    cursors: Seq<Cursor>,
    top: TopK,
    models: Seq<TermModel>,
    lens: Seq<u32>,
    dead: spec_fn(u32) -> bool,
    order: Seq<usize>,
    p: int,
    pivot_doc: u32,
    next_doc: u32,
    boundary: u32,
    gb: Seq<nat>,
    d: u32,
)
    requires
        cursors.len() <= MAX_TERMS,
        search_ok(cursors, top, models, lens, dead),
        by_doc(cursors, order),
        0 <= p < order.len(),
        gb.len() == cursors.len(),
        !beats(
            sums::total(sums::along(sums::of_seq(gb), order), (p + 1) as nat),
            top.threshold_spec(),
        ),
        forall|i: int, d: u32|
            #![trigger order[i], holds(model_of(cursors[order[i] as int].term), d)]
            0 <= i <= p && pivot_doc <= d <= boundary && !passed(cursors[order[i] as int], d)
                && holds(model_of(cursors[order[i] as int].term), d) ==> term_weight(
                model_of(cursors[order[i] as int].term),
                lens,
                d,
            ) <= gb[order[i] as int],
        matches_query(models, dead, d),
        pivot_doc <= d < next_doc,
        next_doc <= boundary + 1,
        p + 1 < order.len() ==> next_doc <= cursors[order[p + 1] as int].current_doc,
    ensures
        covered(top.hits@, models, lens, top.k as nat, d),
{
    if exists|j: int| 0 <= j < cursors.len() && passed(#[trigger] cursors[j], d) {
    } else {
        let m = (p + 1) as nat;
        let g = sums::of_seq(gb);
        let j0 = choose|j: int| 0 <= j < models.len() && #[trigger] holds(models[j], d);
        assert(holds(models[j0], d));
        lemma_ahead(cursors[j0], lens, d);
        assert forall|j: int| 0 <= j < models.len() && holds(#[trigger] models[j], d) implies exists|
            i: int,
        |
            0 <= i < m && order[i] == j by {
            lemma_ahead(cursors[j], lens, d);
            assert(order.contains(j as usize));
            let i = choose|i: int| 0 <= i < order.len() && order[i] == j as usize;
            if i > p + 1 {
                assert(cursors[order[p + 1] as int].current_doc
                    <= cursors[order[i] as int].current_doc);
            }
        }
        assert forall|j: int| 0 <= j < models.len() implies term_weight(#[trigger] models[j], lens, d)
            <= g(j) by {
            if holds(models[j], d) {
                let i = choose|i: int| 0 <= i < m && order[i] == j;
                assert(model_of(cursors[order[i] as int].term) == models[j]);
                assert(holds(model_of(cursors[order[i] as int].term), d));
            }
        }
        lemma_score_bounded(models, lens, d, g, order, m);
        assert forall|i: int| 0 <= i < top.hits@.len() implies (#[trigger] top.hits@[i]).doc_id < d by {
            assert(top.hits@[i].doc_id < cursors[j0].current_doc);
        }
        lemma_bounded_loses(top, models, lens, d, sums::total(sums::along(g, order), m));
    }
}

/// Exact top-k Block-Max WAND search.
///
/// `terms` are tokens. Repeated terms count once, so "pizza pizza" scores
/// like "pizza".
pub fn search<I: SearchableIndex + ?Sized>(index: &I, terms: &[String], k: usize) -> (r: (
    Vec<SearchHit>,
    SearchStats,
))
    requires
        index.wf(),
    ensures
        answers_search(index, texts(terms@), k as nat, Pruning::Wand, r.0@, r.1),
{
    let unique = first_positions(terms);
    let mut stats = SearchStats::default();
    stats.num_docs_total = index.num_docs();
    stats.num_query_terms = unique.len();
    let ghost models = query_models(index, texts(terms@));
    if k == 0 {
        let none: Vec<SearchHit> = Vec::new();
        proof {
            lemma_no_hits(models, index.lens(), dead_of(index));
        }
        return (none, stats);
    }
    proof {
        lemma_firsts_len(texts(terms@));
    }
    let cursors = open_cursors(index, terms, &unique, &mut stats);
    let ghost q = query_of(index, texts(terms@), k as nat, Pruning::Wand);
    let hits = evaluate(index, cursors, k, &mut stats, Ghost(models), Ghost(q));
    (hits, stats)
}

/// Asked for nothing, nothing is the answer.
pub proof fn lemma_no_hits(models: Seq<TermModel>, lens: Seq<u32>, dead: spec_fn(u32) -> bool)
    ensures
        is_top_k(Seq::empty(), models, lens, dead, 0),
{
    let none = Seq::<SearchHit>::empty();
    assert forall|d: u32| #[trigger] matches_query(models, dead, d) implies covered(
        none,
        models,
        lens,
        0,
        d,
    ) by {
        assert(loses(none, score_of(models, lens, d), 0, d));
    }
}

pub proof fn lemma_firsts_len(terms: Seq<Seq<char>>)
    ensures
        firsts(terms).len() <= terms.len(),
    decreases terms.len(),
{
    if terms.len() > 0 {
        lemma_firsts_len(terms.drop_last());
    }
}

/// A document that holds a term weighs what BM25 gives for its own frequency
/// and length; one that does not hold it weighs nothing.
pub proof fn law_term_weight(m: TermModel, lens: Seq<u32>, d: u32, i: int)
    requires
        forall|i: int, j: int|
            0 <= i < j < m.list.len() ==> (#[trigger] m.list[i]).doc_id < (#[trigger] m.list[j]).doc_id,
    ensures
        0 <= i < m.list.len() && m.list[i].doc_id == d ==> term_weight(m, lens, d)
            == bm25::contribution(m.idf, m.list[i].tf as nat, lens[d as int] as nat, m.avg_doc_len),
        (forall|j: int| 0 <= j < m.list.len() ==> (#[trigger] m.list[j]).doc_id != d)
            ==> term_weight(m, lens, d) == 0,
{
    if 0 <= i < m.list.len() && m.list[i].doc_id == d {
        assert(stands_at(m, i, d));
        let j = choose|j: int| stands_at(m, j, d);
        if i < j {
            assert(m.list[i].doc_id < m.list[j].doc_id);
        } else if j < i {
            assert(m.list[j].doc_id < m.list[i].doc_id);
        }
    }
    if forall|j: int| 0 <= j < m.list.len() ==> (#[trigger] m.list[j]).doc_id != d {
        if holds(m, d) {
            let j = choose|j: int| stands_at(m, j, d);
            assert(m.list[j].doc_id == d);
        }
    }
}

/// The score of a document is the sum of what the terms weigh.
pub proof fn law_scores_add_up(a: Seq<TermModel>, m: TermModel, lens: Seq<u32>, d: u32)
    ensures
        score_of(Seq::empty(), lens, d) == 0,
        score_of(a.push(m), lens, d) == score_of(a, lens, d) + term_weight(m, lens, d),
{
    let b = a.push(m);
    sums::lemma_total_eq(weights(b, lens, d), weights(a, lens, d), a.len());
    assert(b[a.len() as int] == m);
}

/// A query is scored by its distinct terms: a term counts when it is seen for
/// the first time and occurs in the index, and not again.
pub proof fn law_query_terms<I: SearchableIndex + ?Sized>(
    index: &I,
    terms: Seq<Seq<char>>,
    t: Seq<char>,
)
    ensures
        query_models(index, Seq::empty()).len() == 0,
        terms.contains(t) ==> query_models(index, terms.push(t)) == query_models(index, terms),
        !terms.contains(t) ==> query_models(index, terms.push(t)) == match index.model(t) {
            Some(m) => query_models(index, terms).push(m),
            None => query_models(index, terms),
        },
{
    let all = terms.push(t);
    let f = firsts(terms);
    assert(all.drop_last() =~= terms);
    lemma_firsts_below(terms);
    assert forall|i: int| 0 <= i < f.len() implies 0 <= #[trigger] f[i] < terms.len()
        && terms[f[i]] == all[f[i]] by {}
    lemma_found_same(index, terms, all, f);
    if !terms.contains(t) {
        let g = firsts(all);
        assert(g.drop_last() =~= f);
        assert(all[g.last()] == t);
    }
}

/// What is found: at most `k` documents that are alive and hold a term, with
/// their scores, the higher scores first and equal scores by document; and any
/// other such document is outranked by `k` of them.
pub proof fn law_top_k(
    hits: Seq<SearchHit>,
    models: Seq<TermModel>,
    lens: Seq<u32>,
    dead: spec_fn(u32) -> bool,
    k: nat,
    j: int,
    i: int,
)
    requires
        is_top_k(hits, models, lens, dead, k),
        0 <= j < models.len(),
        0 <= i < models[j].list.len(),
    ensures
        hits.len() <= k,
        forall|a: int, b: int|
            0 <= a < b < hits.len() ==> (#[trigger] hits[a]).score > (#[trigger] hits[b]).score || (
            hits[a].score == hits[b].score && hits[a].doc_id < hits[b].doc_id),
        forall|a: int|
            0 <= a < hits.len() ==> !dead((#[trigger] hits[a]).doc_id) && hits[a].score == score_of(
                models,
                lens,
                hits[a].doc_id,
            ),
        ({
            let d = models[j].list[i].doc_id;
            let s = score_of(models, lens, d);
            !dead(d) && !hits.contains(SearchHit { doc_id: d, score: s as u64 }) ==> hits.len() == k
                && forall|a: int|
                0 <= a < hits.len() ==> (#[trigger] hits[a]).score > s || (hits[a].score == s
                    && hits[a].doc_id < d)
        }),
{
    let d = models[j].list[i].doc_id;
    let s = score_of(models, lens, d);
    assert forall|a: int, b: int| 0 <= a < b < hits.len() implies (#[trigger] hits[a]).score > (
    #[trigger] hits[b]).score || (hits[a].score == hits[b].score && hits[a].doc_id
        < hits[b].doc_id) by {
        assert(better(hits[a], hits[b]));
    }
    if !dead(d) {
        assert(stands_at(models[j], i, d));
        assert(holds(models[j], d));
        assert(matches_query(models, dead, d));
        assert(covered(hits, models, lens, k, d));
        if exists|a: int| 0 <= a < hits.len() && (#[trigger] hits[a]).doc_id == d {
            let a = choose|a: int| 0 <= a < hits.len() && (#[trigger] hits[a]).doc_id == d;
            assert(hits[a] == (SearchHit { doc_id: d, score: s as u64 }));
        }
    }
}

} // verus!
