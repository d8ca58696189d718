//! What a search costs: the postings, blocks and documents that each way of
//! pruning visits, as a function of the query.
//!
//! A [`Run`] holds where the cursor of each term stands, the best documents
//! so far and the work done. [`step`] is one round of the search, and
//! [`work_of`] the work once nothing is left that can win.

use crate::block_max_wand;
use crate::block_max_wand::{SearchHit, SearchStats, TermModel, Threshold};
use crate::bm25;
use crate::order;
use crate::postings;
use crate::postings::Posting;
use crate::sums;
use vstd::prelude::*;

verus! {

/// How documents that cannot win are left out.
pub enum Pruning {
    Wand,
    MaxScore,
}

/// All that the work of a search depends on.
pub struct Query {
    pub models: Seq<TermModel>,
    pub lens: Seq<u32>,
    pub dead: spec_fn(u32) -> bool,
    /// Postings per block.
    pub block_size: int,
    pub k: nat,
    pub pruning: Pruning,
}

/// Work done.
pub struct Work {
    pub postings: nat,
    pub blocks: nat,
    pub skipped: nat,
    pub scored: nat,
}

/// A search under way.
pub struct Run {
    /// The position of each cursor in its list.
    pub at: Seq<int>,
    pub hits: Seq<SearchHit>,
    pub work: Work,
}

/// The largest frequency among the postings from `lo` below `hi`.
pub open spec fn max_tf(p: Seq<Posting>, lo: int, hi: int) -> u32 {
    choose|m: u32| postings::is_max_tf(p, lo, hi, m)
}

/// The smallest document length among the postings from `lo` below `hi`.
pub open spec fn min_len(p: Seq<Posting>, lens: Seq<u32>, lo: int, hi: int) -> u32 {
    choose|m: u32| postings::is_min_len(p, lens, lo, hi, m)
}

impl Query {
    /// The document that cursor `j` stands on, `u32::MAX` past the end.
    pub open spec fn doc(self, at: Seq<int>, j: int) -> u32 {
        let p = self.models[j].list;
        if at[j] < p.len() {
            p[at[j]].doc_id
        } else {
            u32::MAX
        }
    }

    /// What the postings from `lo` below `hi` of term `j` add at most.
    pub open spec fn span_bound(self, j: int, lo: int, hi: int) -> nat {
        let m = self.models[j];
        bm25::contribution(
            m.idf,
            max_tf(m.list, lo, hi) as nat,
            min_len(m.list, self.lens, lo, hi) as nat,
            m.avg_doc_len,
        )
    }

    /// What term `j` adds at most.
    pub open spec fn list_bound(self, j: int) -> nat {
        self.span_bound(j, 0, self.models[j].list.len() as int)
    }

    /// What a posting of block `b` of term `j` adds at most.
    pub open spec fn block_bound(self, j: int, b: int) -> nat {
        self.span_bound(
            j,
            postings::block_lo(b, self.block_size),
            postings::block_hi(b, self.block_size, self.models[j].list.len() as int),
        )
    }

    /// The summed bounds of the first `m` terms of `order`.
    pub open spec fn bounds_along(self, order: Seq<usize>, m: nat) -> nat {
        sums::total(sums::along(|j: int| self.list_bound(j), order), m)
    }

    /// What a document must strictly beat.
    pub open spec fn bar(self, hits: Seq<SearchHit>) -> Threshold {
        if self.k == 0 {
            Threshold::Infinity
        } else if hits.len() == self.k {
            Threshold::Score(hits.last().score)
        } else {
            Threshold::NegInfinity
        }
    }

    /// The best documents once `h` has been seen.
    pub open spec fn entered(self, hits: Seq<SearchHit>, h: SearchHit) -> Seq<SearchHit> {
        if block_max_wand::beats(h.score as nat, self.bar(hits)) {
            let all = block_max_wand::insert_ranked(hits, h);
            if all.len() > self.k {
                all.drop_last()
            } else {
                all
            }
        } else {
            hits
        }
    }

    /// One more document has been scored.
    pub open spec fn judged(self, r: Run, d: u32, score: nat) -> Run {
        Run {
            hits: if (self.dead)(d) {
                r.hits
            } else {
                self.entered(r.hits, SearchHit { doc_id: d, score: score as u64 })
            },
            work: Work { scored: r.work.scored + 1, ..r.work },
            ..r
        }
    }

    /// The cursor of term `j` moves on to position `to`.
    pub open spec fn moved_to(self, r: Run, j: int, to: int, jump: bool) -> Run {
        Run {
            at: r.at.update(j, to),
            work: moved(
                r.work,
                self.models[j].list.len() as int,
                self.block_size,
                r.at[j],
                to,
                jump,
            ),
            ..r
        }
    }

    /// The cursor of term `j` moves to the first document from `target` on.
    pub open spec fn sought(self, r: Run, j: int, target: u32) -> Run {
        self.moved_to(r, j, landing(self.models[j].list, r.at[j], target), true)
    }

    /// The first `m` cursors step on where they stand on `d`.
    pub open spec fn stepped(self, r: Run, d: u32, m: nat) -> Run
        decreases m,
    {
        if m == 0 {
            r
        } else {
            let s = self.stepped(r, d, (m - 1) as nat);
            if self.doc(r.at, m - 1) == d {
                self.moved_to(s, m - 1, r.at[m - 1] + 1, false)
            } else {
                s
            }
        }
    }

    /// What the first `m` cursors that stand on `d` add to its score.
    pub open spec fn standing(self, at: Seq<int>, d: u32, m: nat) -> nat
        decreases m,
    {
        if m == 0 {
            0
        } else {
            self.standing(at, d, (m - 1) as nat) + if self.doc(at, m - 1) == d {
                block_max_wand::term_weight(self.models[m - 1], self.lens, d)
            } else {
                0
            }
        }
    }
}

/// The first position from `from` on whose document is at least `target`.
pub open spec fn landing(p: Seq<Posting>, from: int, target: u32) -> int
    decreases p.len() - from,
{
    if from >= p.len() {
        p.len() as int
    } else if p[from].doc_id >= target {
        from
    } else {
        landing(p, from + 1, target)
    }
}

/// A cursor over `n` postings moved on: the posting where it stops is
/// visited, and its block unless the cursor was in it. Of a jump the blocks
/// that it leaves behind are skipped.
pub open spec fn moved(w: Work, n: int, block_size: int, from: int, to: int, jump: bool) -> Work {
    let block = if to < n {
        to / block_size
    } else {
        postings::block_total(n, block_size)
    };
    Work {
        postings: w.postings + if to < n {
            1nat
        } else {
            0
        },
        blocks: w.blocks + if to < n && block != from / block_size {
            1nat
        } else {
            0
        },
        skipped: w.skipped + if jump {
            (block - from / block_size) as nat
        } else {
            0
        },
        scored: w.scored,
    }
}

// ---------------------------------------------------------------------------
// Block-Max WAND
// ---------------------------------------------------------------------------

/// The cursors by current document, then by term.
pub open spec fn by_document(q: Query, at: Seq<int>) -> Seq<usize> {
    choose|o: Seq<usize>|
        order::sorted_indices(o, q.models.len() as int, order::key_less(doc_keys(q, at)))
}

pub open spec fn doc_keys(q: Query, at: Seq<int>) -> Seq<u64> {
    Seq::new(q.models.len(), |j: int| q.doc(at, j) as u64)
}

/// The first cursor of `order` from `i` on up to which the list bounds beat
/// `bar`; none if they do not before the exhausted cursors.
pub open spec fn pivot(
    q: Query,
    at: Seq<int>,
    order: Seq<usize>,
    bar: Threshold,
    i: int,
) -> Option<int>
    decreases order.len() - i,
{
    if i >= order.len() || at[order[i] as int] >= q.models[order[i] as int].list.len() {
        None
    } else if block_max_wand::beats(q.bounds_along(order, (i + 1) as nat), bar) {
        Some(i)
    } else {
        pivot(q, at, order, bar, i + 1)
    }
}

/// The last cursor of `order` that stands on the document of cursor `p`.
pub open spec fn pivot_end(q: Query, at: Seq<int>, order: Seq<usize>, p: int) -> int
    decreases order.len() - p,
{
    if p + 1 < order.len() && q.doc(at, order[p + 1] as int) == q.doc(at, order[p] as int) {
        pivot_end(q, at, order, p + 1)
    } else {
        p
    }
}

/// The bound and the last document of the block of term `j` that holds the
/// first posting from `target` on.
pub open spec fn block_at(q: Query, at: Seq<int>, j: int, target: u32) -> Option<(nat, u32)> {
    let p = q.models[j].list;
    let to = landing(p, at[j], target);
    if to < p.len() {
        let b = to / q.block_size;
        Some(
            (
                q.block_bound(j, b),
                p[postings::block_hi(b, q.block_size, p.len() as int) - 1].doc_id,
            ),
        )
    } else {
        None
    }
}

/// The summed bounds of those blocks over the first `m` cursors of `order`,
/// and the nearest of their last documents.
pub open spec fn blocks_at(
    q: Query,
    at: Seq<int>,
    order: Seq<usize>,
    target: u32,
    m: nat,
) -> (nat, u32)
    decreases m,
{
    if m == 0 {
        (0, u32::MAX)
    } else {
        let (sum, last) = blocks_at(q, at, order, target, (m - 1) as nat);
        match block_at(q, at, order[m - 1] as int, target) {
            Some((bound, end)) => (
                sum + bound,
                if end < last {
                    end
                } else {
                    last
                },
            ),
            None => (sum, last),
        }
    }
}

/// The cursor with the largest list bound among the first `m` of `order`
/// whose document is below `limit`, the first of equal ones.
pub open spec fn heaviest(
    q: Query,
    at: Seq<int>,
    order: Seq<usize>,
    m: nat,
    limit: u32,
) -> int
    decreases m,
{
    if m <= 1 {
        order[0] as int
    } else {
        let c = heaviest(q, at, order, (m - 1) as nat, limit);
        let j = order[m - 1] as int;
        if q.doc(at, j) < limit && q.list_bound(j) > q.list_bound(c) {
            j
        } else {
            c
        }
    }
}

/// A round of Block-Max WAND: score the pivot document, or move the heaviest
/// cursor before it up to it or, where the blocks cannot win, beyond them.
#[verifier::opaque]
pub open spec fn wand_step(q: Query, r: Run) -> Option<Run> {
    let order = by_document(q, r.at);
    let bar = q.bar(r.hits);
    match pivot(q, r.at, order, bar, 0) {
        None => None,
        Some(p0) => {
            let d = q.doc(r.at, order[p0] as int);
            let p = pivot_end(q, r.at, order, p0);
            let (bound, last) = blocks_at(q, r.at, order, d, (p + 1) as nat);
            if !block_max_wand::beats(bound, bar) {
                let ahead = if p + 1 < order.len() && q.doc(r.at, order[p + 1] as int) <= last {
                    q.doc(r.at, order[p + 1] as int)
                } else {
                    (last + 1) as u32
                };
                Some(q.sought(r, heaviest(q, r.at, order, (p + 1) as nat, ahead), ahead))
            } else if q.doc(r.at, order[0] as int) == d {
                let n = q.models.len();
                Some(q.judged(q.stepped(r, d, n), d, q.standing(r.at, d, n)))
            } else {
                Some(q.sought(r, heaviest(q, r.at, order, p as nat, d), d))
            }
        },
    }
}

// ---------------------------------------------------------------------------
// MaxScore
// ---------------------------------------------------------------------------

/// The terms by ascending list bound, then by position.
pub open spec fn by_bound(q: Query) -> Seq<usize> {
    choose|o: Seq<usize>|
        order::sorted_indices(o, q.models.len() as int, order::key_less(bound_keys(q)))
}

pub open spec fn bound_keys(q: Query) -> Seq<u64> {
    Seq::new(q.models.len(), |j: int| q.list_bound(j) as u64)
}

/// The first term of `order` from `i` on up to which the bounds beat `bar`.
pub open spec fn essential_from(q: Query, order: Seq<usize>, bar: Threshold, i: int) -> int
    decreases order.len() - i,
{
    if i < order.len() && !block_max_wand::beats(q.bounds_along(order, (i + 1) as nat), bar) {
        essential_from(q, order, bar, i + 1)
    } else {
        i
    }
}

/// The smallest current document among the cursors of `order` from `i` on.
pub open spec fn least_doc(q: Query, at: Seq<int>, order: Seq<usize>, i: int) -> u32
    decreases order.len() - i,
{
    if i >= order.len() {
        u32::MAX
    } else {
        let rest = least_doc(q, at, order, i + 1);
        let d = q.doc(at, order[i] as int);
        if d < rest {
            d
        } else {
            rest
        }
    }
}

/// Probe the first `i` terms of `order` for `c`, the last first, as long as
/// their bounds can lift `score` above the bar.
pub open spec fn probed(
    q: Query,
    r: Run,
    order: Seq<usize>,
    bar: Threshold,
    c: u32,
    score: nat,
    i: nat,
) -> (Run, nat)
    decreases i,
{
    if i == 0 || !block_max_wand::beats(score + q.bounds_along(order, i), bar) {
        (r, score)
    } else {
        let j = order[i - 1] as int;
        let s = if q.doc(r.at, j) < c {
            q.sought(r, j, c)
        } else {
            r
        };
        if q.doc(s.at, j) == c {
            probed(
                q,
                q.moved_to(s, j, s.at[j] + 1, false),
                order,
                bar,
                c,
                score + block_max_wand::term_weight(q.models[j], q.lens, c),
                (i - 1) as nat,
            )
        } else {
            probed(q, s, order, bar, c, score, (i - 1) as nat)
        }
    }
}

/// A round of MaxScore: score the next document of an essential term, as far
/// as it can win.
pub open spec fn maxscore_step(q: Query, r: Run) -> Option<Run> {
    let order = by_bound(q);
    let bar = q.bar(r.hits);
    let e = essential_from(q, order, bar, 0);
    let c = least_doc(q, r.at, order, e);
    if c == u32::MAX {
        None
    } else {
        let n = q.models.len();
        let (s, score) = probed(
            q,
            q.stepped(r, c, n),
            order,
            bar,
            c,
            q.standing(r.at, c, n),
            e as nat,
        );
        Some(q.judged(s, c, score))
    }
}

// ---------------------------------------------------------------------------
// Whole searches
// ---------------------------------------------------------------------------

/// A round of the search; none if nothing is left that can win.
pub open spec fn step(q: Query, r: Run) -> Option<Run> {
    match q.pruning {
        Pruning::Wand => wand_step(q, r),
        Pruning::MaxScore => maxscore_step(q, r),
    }
}

/// Each cursor stands on its first posting.
pub open spec fn started(q: Query) -> Run {
    Run {
        at: Seq::new(q.models.len(), |j: int| 0),
        hits: Seq::empty(),
        work: Work {
            postings: q.models.len(),
            blocks: q.models.len(),
            skipped: 0,
            scored: 0,
        },
    }
}

/// The search after `n` rounds, or after its last one.
pub open spec fn after(q: Query, n: nat) -> Run
    decreases n,
{
    if n == 0 {
        started(q)
    } else {
        let r = after(q, (n - 1) as nat);
        match step(q, r) {
            Some(s) => s,
            None => r,
        }
    }
}

/// The search is over after `n` rounds.
pub open spec fn over(q: Query, n: nat) -> bool {
    step(q, after(q, n)) is None
}

/// No work.
pub open spec fn idle() -> Work {
    Work { postings: 0, blocks: 0, skipped: 0, scored: 0 }
}

/// The work of a search.
pub open spec fn work_of(q: Query) -> Work {
    if q.k == 0 {
        idle()
    } else {
        after(q, choose|n: nat| over(q, n)).work
    }
}

/// Nothing is done once the search is over.
pub proof fn lemma_over(q: Query, n: nat, m: nat)
    requires
        over(q, n),
        n <= m,
    ensures
        after(q, m) == after(q, n),
        over(q, m),
    decreases m,
{
    if n < m {
        lemma_over(q, n, (m - 1) as nat);
    }
}

/// The work of a search that is over is its work.
pub proof fn lemma_work(q: Query, n: nat)
    requires
        q.k > 0,
        over(q, n),
    ensures
        work_of(q) == after(q, n).work,
{
    let m = choose|m: nat| over(q, m);
    if n <= m {
        lemma_over(q, n, m);
    } else {
        lemma_over(q, m, n);
    }
}

/// A counter that stops at the largest number.
pub open spec fn capped(n: nat) -> int {
    if n > usize::MAX {
        usize::MAX as int
    } else {
        n as int
    }
}

/// The counters show the work.
pub open spec fn counts(stats: SearchStats, w: Work) -> bool {
    &&& stats.num_postings_visited == capped(w.postings)
    &&& stats.num_blocks_visited == capped(w.blocks)
    &&& stats.num_blocks_skipped == capped(w.skipped)
    &&& stats.num_docs_scored == capped(w.scored)
}

// ---------------------------------------------------------------------------
// What determines the parts
// ---------------------------------------------------------------------------

pub proof fn lemma_max_tf(p: Seq<Posting>, lo: int, hi: int, m: u32)
    requires
        postings::is_max_tf(p, lo, hi, m),
    ensures
        max_tf(p, lo, hi) == m,
{
    let v = max_tf(p, lo, hi);
    assert(postings::is_max_tf(p, lo, hi, v));
    let i = choose|i: int| lo <= i < hi && (#[trigger] p[i]).tf == m;
    let j = choose|j: int| lo <= j < hi && (#[trigger] p[j]).tf == v;
    assert(p[i].tf <= v && p[j].tf <= m);
}

pub proof fn lemma_min_len(p: Seq<Posting>, lens: Seq<u32>, lo: int, hi: int, m: u32)
    requires
        postings::is_min_len(p, lens, lo, hi, m),
    ensures
        min_len(p, lens, lo, hi) == m,
{
    let v = min_len(p, lens, lo, hi);
    assert(postings::is_min_len(p, lens, lo, hi, v));
    let i = choose|i: int| lo <= i < hi && lens[(#[trigger] p[i]).doc_id as int] == m;
    let j = choose|j: int| lo <= j < hi && lens[(#[trigger] p[j]).doc_id as int] == v;
    assert(v <= lens[p[i].doc_id as int] && m <= lens[p[j].doc_id as int]);
}

/// Where a cursor lands.
pub proof fn lemma_landing(p: Seq<Posting>, from: int, target: u32, to: int)
    requires
        0 <= from <= to <= p.len(),
        forall|i: int| from <= i < to ==> (#[trigger] p[i]).doc_id < target,
        to < p.len() ==> p[to].doc_id >= target,
    ensures
        landing(p, from, target) == to,
    decreases to - from,
{
    if from < to {
        assert(p[from].doc_id < target);
        lemma_landing(p, from + 1, target, to);
    }
}

/// What lies before the landing and what it is.
pub proof fn lemma_lands(p: Seq<Posting>, from: int, target: u32)
    requires
        0 <= from <= p.len(),
    ensures
        from <= landing(p, from, target) <= p.len(),
        forall|i: int|
            from <= i < landing(p, from, target) ==> (#[trigger] p[i]).doc_id < target,
        landing(p, from, target) < p.len() ==> p[landing(p, from, target)].doc_id >= target,
    decreases p.len() - from,
{
    if from < p.len() && p[from].doc_id < target {
        lemma_lands(p, from + 1, target);
    }
}

/// Once the bounds of a prefix do not beat the bar, the essential terms can
/// be looked for behind it.
pub proof fn lemma_essential_skips(q: Query, order: Seq<usize>, bar: Threshold, e: int)
    requires
        0 <= e <= order.len(),
        e > 0 ==> !block_max_wand::beats(q.bounds_along(order, e as nat), bar),
    ensures
        essential_from(q, order, bar, 0) == essential_from(q, order, bar, e),
    decreases e,
{
    if e > 0 {
        let f = sums::along(|j: int| q.list_bound(j), order);
        if e > 1 {
            sums::lemma_total_monotone(f, (e - 1) as nat, e as nat);
        }
        lemma_essential_skips(q, order, bar, e - 1);
    }
}

/// The smallest current document, given by what it is.
pub proof fn lemma_least_doc(q: Query, at: Seq<int>, order: Seq<usize>, e: int, i: int, c: u32)
    requires
        0 <= e <= i <= order.len(),
        forall|x: int| e <= x < order.len() ==> c <= q.doc(at, #[trigger] order[x] as int),
        exists|x: int| e <= x < order.len() && q.doc(at, #[trigger] order[x] as int) == c,
    ensures
        c <= least_doc(q, at, order, i),
        (exists|x: int| i <= x < order.len() && q.doc(at, #[trigger] order[x] as int) == c)
            ==> least_doc(q, at, order, i) == c,
    decreases order.len() - i,
{
    if i < order.len() {
        lemma_least_doc(q, at, order, e, i + 1, c);
        assert(c <= q.doc(at, order[i] as int));
        if exists|x: int| i <= x < order.len() && q.doc(at, #[trigger] order[x] as int) == c {
            let x = choose|x: int| i <= x < order.len() && q.doc(at, #[trigger] order[x] as int) == c;
            if x > i {
                assert(i + 1 <= x && q.doc(at, order[x] as int) == c);
            }
        }
    }
}

} // verus!
