//! Fusing lexical and semantic rankings of the same documents.
//!
//! Scores are fixed-point: a similarity and a weight count in units of
//! 1 / 2^24, and a fused score in units of 1 / 2^48.

use crate::block_max_wand::SearchHit;
use crate::bm25;
use crate::embeddings::EmbeddingStore;
use crate::ivf;
use crate::ivf::IvfIndex;
use crate::order;
use std::collections::HashMap;
use vstd::prelude::*;

verus! {

/// How two rankings become one.
#[derive(Debug, Clone, Copy, PartialEq, Eq, Structural)]
pub enum Fusion {
    /// `alpha` times the normalised lexical score, and the rest of the
    /// weight times the similarity.
    Weighted { alpha: u32 },
    /// The sum of `1 / (k + rank)` over the rankings that list a document.
    Rrf { k: u64 },
}

impl Fusion {
    /// Fusion by weight. The weight is brought into the range from 0 to 1.
    pub fn weighted(alpha: i64) -> (f: Fusion)
        ensures
            f == (Fusion::Weighted {
                alpha: if alpha < 0 {
                    0
                } else if alpha > bm25::ONE {
                    bm25::ONE
                } else {
                    alpha as u32
                },
            }),
    {
        if alpha < 0 {
            Fusion::Weighted { alpha: 0 }
        } else if alpha > bm25::ONE as i64 {
            Fusion::Weighted { alpha: bm25::ONE }
        } else {
            Fusion::Weighted { alpha: alpha as u32 }
        }
    }

    /// Fusion by rank. The constant is at least 0.
    pub fn rrf(k: i64) -> (f: Fusion)
        ensures
            f == (Fusion::Rrf {
                k: if k < 0 {
                    0
                } else {
                    k as u64
                },
            }),
    {
        if k < 0 {
            Fusion::Rrf { k: 0 }
        } else {
            Fusion::Rrf { k: k as u64 }
        }
    }

    /// The weight is no more than 1.
    pub open spec fn wf(&self) -> bool {
        self matches Fusion::Weighted { alpha } ==> alpha <= bm25::ONE
    }
}

/// A document with its fused score and what it was fused from.
#[derive(Debug, Clone, Copy, PartialEq, Eq, Structural)]
pub struct HybridHit {
    pub doc_id: u32,
    pub score: i64,
    /// The lexical score: 0 if the document was not found that way.
    pub bm25: u64,
    pub semantic: i32,
}

/// The vectors of the segments of an index: none for a segment without.
pub struct SegmentStores {
    pub stores: Vec<Option<EmbeddingStore>>,
}

// ---------------------------------------------------------------------------
// Ranking
// ---------------------------------------------------------------------------

/// Positions by descending key, then by document, then by position.
pub open spec fn rank_less(keys: Seq<i128>, docs: Seq<u32>) -> spec_fn(int, int) -> bool {
    |a: int, b: int|
        keys[a] > keys[b] || (keys[a] == keys[b] && (docs[a] < docs[b] || (docs[a] == docs[b] && a
            < b)))
}

/// The positions of `keys`, best first.
fn rank_positions(keys: &Vec<i128>, docs: &Vec<u32>) -> (order: Vec<usize>)
    requires
        keys@.len() == docs@.len(),
    ensures
        order::sorted_indices(order@, keys@.len() as int, rank_less(keys@, docs@)),
        order@.no_duplicates(),
{
    let f = |a: usize, b: usize| -> (r: bool)
        requires
            a < keys@.len(),
            b < keys@.len(),
            keys@.len() == docs@.len(),
        ensures
            r == rank_less(keys@, docs@)(a as int, b as int),
        {
            keys[a] > keys[b] || (keys[a] == keys[b] && (docs[a] < docs[b] || (docs[a] == docs[b]
                && a < b)))
        };
    let order = order::sort_indices(keys.len(), &f, Ghost(rank_less(keys@, docs@)));
    proof {
        order::lemma_increasing_distinct(order@, keys@.len() as int, rank_less(keys@, docs@));
    }
    order
}

/// The scores of `rows`.
pub open spec fn scores_of(rows: Seq<HybridHit>) -> Seq<i128> {
    rows.map_values(|r: HybridHit| r.score as i128)
}

/// The documents of `rows`.
pub open spec fn docs_of(rows: Seq<HybridHit>) -> Seq<u32> {
    rows.map_values(|r: HybridHit| r.doc_id)
}

/// The smaller of the two.
pub open spec fn least(a: int, b: int) -> int {
    if a < b {
        a
    } else {
        b
    }
}

/// The larger of the two.
pub open spec fn most(a: int, b: int) -> int {
    if a > b {
        a
    } else {
        b
    }
}

/// `out` are the best `k` of `rows`, best first.
pub open spec fn best_rows(rows: Seq<HybridHit>, k: int, out: Seq<HybridHit>) -> bool {
    exists|order: Seq<usize>| #[trigger]
        order::sorted_indices(
            order,
            rows.len() as int,
            rank_less(scores_of(rows), docs_of(rows)),
        ) && out == order::arranged(rows, order).take(least(k, rows.len() as int))
}

/// The best `k` rows, best first.
fn take_best(rows: &Vec<HybridHit>, k: usize) -> (out: Vec<HybridHit>)
    ensures
        best_rows(rows@, k as int, out@),
{
    let n: usize = rows.len();
    let mut keys: Vec<i128> = Vec::new();
    let mut docs: Vec<u32> = Vec::new();
    let mut i: usize = 0;
    while i < n
        invariant
            i <= n == rows@.len(),
            keys@ == scores_of(rows@.take(i as int)),
            docs@ == docs_of(rows@.take(i as int)),
        decreases n - i,
    {
        keys.push(rows[i].score as i128);
        docs.push(rows[i].doc_id);
        i += 1;
        assert(keys@ =~= scores_of(rows@.take(i as int)));
        assert(docs@ =~= docs_of(rows@.take(i as int)));
    }
    assert(rows@.take(n as int) =~= rows@);
    let order = rank_positions(&keys, &docs);
    let keep: usize = if k < n { k } else { n };
    let ghost all = order::arranged(rows@, order@);
    let mut out: Vec<HybridHit> = Vec::new();
    let mut j: usize = 0;
    while j < keep
        invariant
            j <= keep <= n == rows@.len(),
            order::covers(order@, 0, n as int),
            all == order::arranged(rows@, order@),
            out@ == all.take(j as int),
        decreases keep - j,
    {
        assert(order@[j as int] < n);
        out.push(rows[order[j]]);
        j += 1;
        assert(out@ =~= all.take(j as int));
    }
    out
}

// ---------------------------------------------------------------------------
// Fusing
// ---------------------------------------------------------------------------

/// The range of the lexical scores that are not 0: from 0 to 1 unit if there
/// are none.
pub open spec fn is_range(rows: Seq<HybridHit>, lo: u64, hi: u64) -> bool {
    if forall|i: int| 0 <= i < rows.len() ==> (#[trigger] rows[i]).bm25 == 0 {
        lo == 0 && hi == 1
    } else {
        &&& exists|i: int| 0 <= i < rows.len() && (#[trigger] rows[i]).bm25 == lo
        &&& exists|i: int| 0 <= i < rows.len() && (#[trigger] rows[i]).bm25 == hi
        &&& lo > 0
        &&& forall|i: int|
            0 <= i < rows.len() && (#[trigger] rows[i]).bm25 > 0 ==> lo <= rows[i].bm25 <= hi
    }
}

/// The range of the lexical scores.
fn min_max(rows: &Vec<HybridHit>) -> (r: (u64, u64))
    ensures
        is_range(rows@, r.0, r.1),
        r.0 <= r.1,
        forall|i: int|
            0 <= i < rows@.len() && (#[trigger] rows@[i]).bm25 > 0 ==> r.0 <= rows@[i].bm25 <= r.1,
{
    let n: usize = rows.len();
    let mut some: bool = false;
    let mut lo: u64 = 0;
    let mut hi: u64 = 1;
    let mut i: usize = 0;
    while i < n
        invariant
            i <= n == rows@.len(),
            !some ==> lo == 0 && hi == 1 && forall|j: int|
                0 <= j < i ==> (#[trigger] rows@[j]).bm25 == 0,
            some ==> {
                &&& 0 < lo <= hi
                &&& exists|j: int| 0 <= j < i && (#[trigger] rows@[j]).bm25 == lo
                &&& exists|j: int| 0 <= j < i && (#[trigger] rows@[j]).bm25 == hi
                &&& forall|j: int|
                    0 <= j < i && (#[trigger] rows@[j]).bm25 > 0 ==> lo <= rows@[j].bm25 <= hi
            },
        decreases n - i,
    {
        let v: u64 = rows[i].bm25;
        assert(rows@[i as int].bm25 == v);
        if v > 0 {
            if !some {
                some = true;
                lo = v;
                hi = v;
            } else {
                if v < lo {
                    lo = v;
                }
                if v > hi {
                    hi = v;
                }
            }
        }
        i += 1;
    }
    (lo, hi)
}

/// The normalised lexical part of a weighted score.
pub open spec fn lexical_part(alpha: int, lo: int, hi: int, bm25: int) -> int {
    if bm25 == 0 {
        0
    } else {
        alpha * (bm25 - lo) * bm25::ONE / (if hi - lo > 1 {
            hi - lo
        } else {
            1
        })
    }
}

/// What a place in a ranking counts: nothing if the document is not in it.
pub open spec fn rank_part(k: int, rank: int) -> int {
    if rank == 0 {
        0
    } else {
        0x100_0000_0000_0000_0000int / (k + rank * bm25::ONE)
    }
}

/// The fused score of a row, given the range of the lexical scores and its
/// places in the two rankings.
pub open spec fn fused(
    f: Fusion,
    lo: int,
    hi: int,
    r: HybridHit,
    bm25_rank: int,
    sem_rank: int,
) -> int {
    match f {
        Fusion::Weighted { alpha } => lexical_part(alpha as int, lo, hi, r.bm25 as int) + (
        bm25::ONE - alpha) * r.semantic,
        Fusion::Rrf { k } => rank_part(k as int, sem_rank) + rank_part(k as int, bm25_rank),
    }
}

/// `out` are the best `k` of `rows` by fused score.
pub open spec fn is_fusion(
    f: Fusion,
    rows: Seq<HybridHit>,
    bm25_rank: Seq<usize>,
    sem_rank: Seq<usize>,
    k: int,
    out: Seq<HybridHit>,
) -> bool {
    exists|lo: u64, hi: u64, scored: Seq<HybridHit>|
        #![trigger is_range(rows, lo, hi), best_rows(scored, k, out)]
        is_range(rows, lo, hi) && best_rows(scored, k, out) && scored.len() == rows.len()
            && forall|i: int|
            0 <= i < rows.len() ==> #[trigger] scored[i] == (HybridHit {
                score: fused(
                    f,
                    lo as int,
                    hi as int,
                    rows[i],
                    bm25_rank[i] as int,
                    sem_rank[i] as int,
                ) as i64,
                ..rows[i]
            })
}

fn rank_share(k: u64, rank: usize) -> (s: u64)
    ensures
        s == rank_part(k as int, rank as int),
        s <= 0x1_0000_0000_0000,
{
    if rank == 0 {
        return 0;
    }
    let below: u128 = k as u128 + rank as u128 * 0x100_0000;
    let s: u128 = 0x100_0000_0000_0000_0000 / below;
    proof {
        assert(below >= 0x100_0000);
        assert(s <= 0x1_0000_0000_0000) by (nonlinear_arith)
            requires
                s == 0x100_0000_0000_0000_0000u128 / below,
                below >= 0x100_0000,
        ;
    }
    s as u64
}

/// Fuse, sort and keep the best `k`.
fn fuse_union(
    rows: Vec<HybridHit>,
    bm25_rank: &Vec<usize>,
    sem_rank: &Vec<usize>,
    fusion: Fusion,
    k: usize,
) -> (out: Vec<HybridHit>)
    requires
        fusion.wf(),
        bm25_rank@.len() == rows@.len(),
        sem_rank@.len() == rows@.len(),
    ensures
        is_fusion(fusion, rows@, bm25_rank@, sem_rank@, k as int, out@),
{
    let (lo, hi) = min_max(&rows);
    let span: u64 = if hi - lo > 1 { hi - lo } else { 1 };
    let n: usize = rows.len();
    let mut scored: Vec<HybridHit> = Vec::new();
    let mut i: usize = 0;
    while i < n
        invariant
            i <= n == rows@.len(),
            fusion.wf(),
            bm25_rank@.len() == n,
            sem_rank@.len() == n,
            lo <= hi,
            span == if hi - lo > 1 {
                hi - lo
            } else {
                1
            },
            forall|j: int|
                0 <= j < n && (#[trigger] rows@[j]).bm25 > 0 ==> lo <= rows@[j].bm25 <= hi,
            scored@.len() == i,
            forall|j: int|
                0 <= j < i ==> #[trigger] scored@[j] == (HybridHit {
                    score: fused(
                        fusion,
                        lo as int,
                        hi as int,
                        rows@[j],
                        bm25_rank@[j] as int,
                        sem_rank@[j] as int,
                    ) as i64,
                    ..rows@[j]
                }),
        decreases n - i,
    {
        let r: HybridHit = rows[i];
        assert(r == rows@[i as int]);
        let score: i64 = match fusion {
            Fusion::Weighted { alpha } => {
                let lexical: i64 = if r.bm25 == 0 {
                    0
                } else {
                    let above: u64 = r.bm25 - lo;
                    proof {
                        let a = alpha as int;
                        let x = above as int;
                        assert(0 <= a * x <= 0x100_0000 * 0xffff_ffff_ffff_ffff) by (nonlinear_arith)
                            requires
                                0 <= a <= 0x100_0000,
                                0 <= x <= 0xffff_ffff_ffff_ffff,
                        ;
                        let s = span as int;
                        let top = a * x * 0x100_0000;
                        assert(x <= s);
                        assert(top <= 0x1_0000_0000_0000 * s) by (nonlinear_arith)
                            requires
                                top == a * x * 0x100_0000,
                                0 <= a <= 0x100_0000,
                                0 <= x <= s,
                        ;
                        assert(0 <= top / s <= 0x1_0000_0000_0000) by (nonlinear_arith)
                            requires
                                0 <= top <= 0x1_0000_0000_0000 * s,
                                s >= 1,
                        ;
                    }
                    let part: u128 = alpha as u128 * above as u128 * bm25::ONE as u128
                        / span as u128;
                    part as i64
                };
                proof {
                    let w = bm25::ONE - alpha;
                    let s = r.semantic as int;
                    assert(-0x80_0000_0000_0000 <= w * s <= 0x80_0000_0000_0000)
                        by (nonlinear_arith)
                        requires
                            0 <= w <= 0x100_0000,
                            -0x8000_0000 <= s <= 0x8000_0000,
                    ;
                }
                lexical + (bm25::ONE - alpha) as i64 * r.semantic as i64
            },
            Fusion::Rrf { k } => {
                rank_share(k, sem_rank[i]) as i64 + rank_share(k, bm25_rank[i]) as i64
            },
        };
        scored.push(HybridHit { doc_id: r.doc_id, score, bm25: r.bm25, semantic: r.semantic });
        i += 1;
    }
    let out = take_best(&scored, k);
    assert(is_range(rows@, lo, hi) && best_rows(scored@, k as int, out@));
    out
}

// ---------------------------------------------------------------------------
// Reranking
// ---------------------------------------------------------------------------

/// The lexical scores of `rows`.
pub open spec fn bm25_of(rows: Seq<HybridHit>) -> Seq<i128> {
    rows.map_values(|r: HybridHit| r.bm25 as i128)
}

/// The similarities of `rows`.
pub open spec fn semantic_of(rows: Seq<HybridHit>) -> Seq<i128> {
    rows.map_values(|r: HybridHit| r.semantic as i128)
}

/// `ranks` are the places of the rows by `keys`, counted from 1, and 0 for
/// the rows that are not `counted`.
pub open spec fn is_ranking(
    keys: Seq<i128>,
    docs: Seq<u32>,
    counted: Seq<bool>,
    ranks: Seq<usize>,
) -> bool {
    &&& ranks.len() == keys.len()
    &&& exists|order: Seq<usize>| #[trigger]
        order::sorted_indices(order, keys.len() as int, rank_less(keys, docs)) && forall|p: int|
            0 <= p < order.len() ==> ranks[#[trigger] order[p] as int] == if counted[order[p] as int] {
                p + 1
            } else {
                0
            }
}

/// The places of the rows.
fn rank_rows(keys: &Vec<i128>, docs: &Vec<u32>, counted: &Vec<bool>) -> (ranks: Vec<usize>)
    requires
        keys@.len() == docs@.len() == counted@.len(),
    ensures
        is_ranking(keys@, docs@, counted@, ranks@),
{
    let n: usize = keys.len();
    let order = rank_positions(keys, docs);
    let mut ranks: Vec<usize> = Vec::new();
    let mut z: usize = 0;
    while z < n
        invariant
            z <= n,
            ranks@.len() == z,
        decreases n - z,
    {
        ranks.push(0);
        z += 1;
    }
    let mut p: usize = 0;
    while p < n
        invariant
            p <= n == keys@.len(),
            n == counted@.len(),
            ranks@.len() == n,
            order::covers(order@, 0, n as int),
            order@.no_duplicates(),
            forall|q: int|
                0 <= q < p ==> ranks@[#[trigger] order@[q] as int] == if counted@[order@[q] as int] {
                    q + 1
                } else {
                    0
                },
        decreases n - p,
    {
        let at: usize = order[p];
        assert(order@[p as int] < n);
        let ghost before = ranks@;
        ranks.set(at, if counted[at] { p + 1 } else { 0 });
        proof {
            assert forall|q: int| 0 <= q < p + 1 implies ranks@[#[trigger] order@[q] as int] == if counted@[order@[q] as int] {
                q + 1
            } else {
                0
            } by {
                if q < p {
                    assert(order@[q] != order@[p as int]);
                    assert(ranks@[order@[q] as int] == before[order@[q] as int]);
                }
            }
        }
        p += 1;
    }
    assert(order::sorted_indices(order@, n as int, rank_less(keys@, docs@)));
    ranks
}

/// The rows that were found lexically.
pub open spec fn found_lexically(rows: Seq<HybridHit>) -> Seq<bool> {
    rows.map_values(|r: HybridHit| r.bm25 > 0)
}

/// All rows.
pub open spec fn every_row(rows: Seq<HybridHit>) -> Seq<bool> {
    rows.map_values(|r: HybridHit| true)
}

/// `out` are the best `k` of `rows` by a score that is fused from their own
/// lexical scores and similarities.
pub open spec fn is_reranking(
    f: Fusion,
    rows: Seq<HybridHit>,
    k: int,
    out: Seq<HybridHit>,
) -> bool {
    exists|bm25_rank: Seq<usize>, sem_rank: Seq<usize>| #[trigger]
        is_fusion(f, rows, bm25_rank, sem_rank, k, out) && (f is Rrf ==> is_ranking(
            bm25_of(rows),
            docs_of(rows),
            found_lexically(rows),
            bm25_rank,
        ) && is_ranking(semantic_of(rows), docs_of(rows), every_row(rows), sem_rank))
}

fn fuse_and_truncate(rows: Vec<HybridHit>, fusion: Fusion, k: usize) -> (out: Vec<HybridHit>)
    requires
        fusion.wf(),
    ensures
        is_reranking(fusion, rows@, k as int, out@),
{
    let n: usize = rows.len();
    let mut docs: Vec<u32> = Vec::new();
    let mut lexical: Vec<i128> = Vec::new();
    let mut semantic: Vec<i128> = Vec::new();
    let mut found: Vec<bool> = Vec::new();
    let mut every: Vec<bool> = Vec::new();
    let mut i: usize = 0;
    while i < n
        invariant
            i <= n == rows@.len(),
            docs@ == docs_of(rows@.take(i as int)),
            lexical@ == bm25_of(rows@.take(i as int)),
            semantic@ == semantic_of(rows@.take(i as int)),
            found@ == found_lexically(rows@.take(i as int)),
            every@ == every_row(rows@.take(i as int)),
        decreases n - i,
    {
        let r: HybridHit = rows[i];
        docs.push(r.doc_id);
        lexical.push(r.bm25 as i128);
        semantic.push(r.semantic as i128);
        found.push(r.bm25 > 0);
        every.push(true);
        i += 1;
        proof {
            let more = rows@.take(i as int);
            assert(docs@ =~= docs_of(more));
            assert(lexical@ =~= bm25_of(more));
            assert(semantic@ =~= semantic_of(more));
            assert(found@ =~= found_lexically(more));
            assert(every@ =~= every_row(more));
        }
    }
    assert(rows@.take(n as int) =~= rows@);
    let bm25_rank = rank_rows(&lexical, &docs, &found);
    let sem_rank = rank_rows(&semantic, &docs, &every);
    fuse_union(rows, &bm25_rank, &sem_rank, fusion, k)
}

/// The lexical hits with their similarities.
pub open spec fn rows_of(hits: Seq<SearchHit>, sims: Seq<i32>) -> Seq<HybridHit> {
    Seq::new(
        hits.len(),
        |i: int|
            HybridHit { doc_id: hits[i].doc_id, score: 0, bm25: hits[i].score, semantic: sims[i] },
    )
}

/// Reorder lexical hits by their similarity to the query.
pub fn rerank(bm25_hits: &[SearchHit], sims: &[i32], fusion: Fusion, k: usize) -> (out: Vec<
    HybridHit,
>)
    requires
        fusion.wf(),
        sims@.len() == bm25_hits@.len(),
    ensures
        bm25_hits@.len() == 0 || k == 0 ==> out@.len() == 0,
        bm25_hits@.len() > 0 && k > 0 ==> is_reranking(
            fusion,
            rows_of(bm25_hits@, sims@),
            k as int,
            out@,
        ),
{
    let n: usize = bm25_hits.len();
    if n == 0 || k == 0 {
        return Vec::new();
    }
    let mut rows: Vec<HybridHit> = Vec::new();
    let mut i: usize = 0;
    while i < n
        invariant
            i <= n == bm25_hits@.len(),
            sims@.len() == n,
            rows@.len() == i,
            forall|j: int| 0 <= j < i ==> #[trigger] rows@[j] == rows_of(bm25_hits@, sims@)[j],
        decreases n - i,
    {
        let h: SearchHit = bm25_hits[i];
        rows.push(HybridHit { doc_id: h.doc_id, score: 0, bm25: h.score, semantic: sims[i] });
        i += 1;
    }
    assert(rows@ =~= rows_of(bm25_hits@, sims@));
    fuse_and_truncate(rows, fusion, k)
}

// ---------------------------------------------------------------------------
// Retrieving by similarity
// ---------------------------------------------------------------------------

/// Documents with their similarities.
pub open spec fn similar_rows(docs: Seq<u32>, sims: Seq<i32>) -> Seq<HybridHit> {
    Seq::new(
        docs.len(),
        |i: int|
            HybridHit {
                doc_id: docs[i],
                score: (sims[i] * bm25::ONE) as i64,
                bm25: 0,
                semantic: sims[i],
            },
    )
}

fn similar(docs: &[u32], sims: &[i32]) -> (rows: Vec<HybridHit>)
    requires
        docs@.len() == sims@.len(),
    ensures
        rows@ == similar_rows(docs@, sims@),
{
    let n: usize = docs.len();
    let mut rows: Vec<HybridHit> = Vec::new();
    let mut i: usize = 0;
    while i < n
        invariant
            i <= n == docs@.len(),
            sims@.len() == n,
            rows@.len() == i,
            forall|j: int| 0 <= j < i ==> #[trigger] rows@[j] == similar_rows(docs@, sims@)[j],
        decreases n - i,
    {
        let s: i32 = sims[i];
        rows.push(
            HybridHit {
                doc_id: docs[i],
                score: s as i64 * 0x100_0000,
                bm25: 0,
                semantic: s,
            },
        );
        i += 1;
    }
    assert(rows@ =~= similar_rows(docs@, sims@));
    rows
}

/// The documents whose similarity is computed: those of the clusters nearest
/// to the query, or all.
pub fn pool_docs(ivf: Option<&IvfIndex>, keys: &[u32], nprobe: usize, num_docs: u32) -> (docs: Vec<
    u32,
>)
    requires
        ivf matches Some(x) ==> x.consistent() && x.num_clusters >= 1 && keys@.len()
            == x.num_clusters,
    ensures
        match ivf {
            Some(x) => exists|clusters: Seq<u32>|
                #![trigger x.gathers(clusters, docs@)]
                ivf::nearest(
                    keys@,
                    x.opened(
                        if nprobe == 0 {
                            x.auto_nprobe_spec()
                        } else {
                            nprobe as int
                        },
                    ),
                    clusters,
                ) && x.gathers(clusters, docs@),
            None => docs@ == Seq::new(num_docs as nat, |i: int| i as u32),
        },
{
    match ivf {
        Some(x) => x.probe(keys, nprobe),
        None => {
            let mut docs: Vec<u32> = Vec::new();
            let mut i: u32 = 0;
            while i < num_docs
                invariant
                    i <= num_docs,
                    docs@ == Seq::new(i as nat, |j: int| j as u32),
                decreases num_docs - i,
            {
                docs.push(i);
                i += 1;
                assert(docs@ =~= Seq::new(i as nat, |j: int| j as u32));
            }
            docs
        },
    }
}

/// The most similar of `docs`, at least one if there is any.
pub fn semantic_pool(docs: &[u32], sims: &[i32], pool: usize) -> (out: Vec<HybridHit>)
    requires
        docs@.len() == sims@.len(),
    ensures
        best_rows(similar_rows(docs@, sims@), most(pool as int, 1), out@),
{
    let rows = similar(docs, sims);
    take_best(&rows, if pool > 1 { pool } else { 1 })
}

/// The `k` most similar of all documents.
pub fn brute_force_semantic(sims: &[i32], k: usize) -> (out: Vec<HybridHit>)
    requires
        sims@.len() <= u32::MAX,
    ensures
        best_rows(
            similar_rows(Seq::new(sims@.len(), |i: int| i as u32), sims@),
            k as int,
            out@,
        ),
{
    let docs = pool_docs(None, &[], 0, sims.len() as u32);
    let rows = similar(docs.as_slice(), sims);
    take_best(&rows, k)
}

// ---------------------------------------------------------------------------
// Merging
// ---------------------------------------------------------------------------

/// Rows with their places in the lexical and the semantic ranking.
#[verifier::ext_equal]
pub struct Union {
    pub rows: Seq<HybridHit>,
    pub bm25_rank: Seq<usize>,
    pub sem_rank: Seq<usize>,
}

/// A semantic hit at place `rank` takes the row of its document, or becomes
/// a row.
pub open spec fn enter(u: Union, h: HybridHit, rank: int) -> Union {
    let docs = docs_of(u.rows);
    if docs.contains(h.doc_id) {
        let at = docs.index_of(h.doc_id);
        Union {
            rows: u.rows.update(at, h),
            bm25_rank: u.bm25_rank,
            sem_rank: u.sem_rank.update(at, rank as usize),
        }
    } else {
        Union {
            rows: u.rows.push(h),
            bm25_rank: u.bm25_rank.push(0),
            sem_rank: u.sem_rank.push(rank as usize),
        }
    }
}

/// The first `j` semantic hits.
pub open spec fn entered(sem: Seq<HybridHit>, j: int) -> Union
    decreases j,
{
    if j <= 0 {
        Union { rows: Seq::empty(), bm25_rank: Seq::empty(), sem_rank: Seq::empty() }
    } else {
        enter(entered(sem, j - 1), sem[j - 1], j)
    }
}

/// A lexical hit at place `rank` goes to the row of its document, or becomes
/// a row.
pub open spec fn absorb(u: Union, h: SearchHit, sim: i32, rank: int) -> Union {
    let docs = docs_of(u.rows);
    if docs.contains(h.doc_id) {
        let at = docs.index_of(h.doc_id);
        Union {
            rows: u.rows.update(at, HybridHit { bm25: h.score, ..u.rows[at] }),
            bm25_rank: u.bm25_rank.update(at, rank as usize),
            sem_rank: u.sem_rank,
        }
    } else {
        Union {
            rows: u.rows.push(
                HybridHit { doc_id: h.doc_id, score: 0, bm25: h.score, semantic: sim },
            ),
            bm25_rank: u.bm25_rank.push(rank as usize),
            sem_rank: u.sem_rank.push(0),
        }
    }
}

/// The semantic hits with the first `j` lexical hits.
pub open spec fn merged(
    sem: Seq<HybridHit>,
    hits: Seq<SearchHit>,
    sims: Seq<i32>,
    j: int,
) -> Union
    decreases j,
{
    if j <= 0 {
        entered(sem, sem.len() as int)
    } else {
        absorb(merged(sem, hits, sims, j - 1), hits[j - 1], sims[j - 1], j)
    }
}

/// The rows of `u` have different documents, and `slots` finds them.
spec fn slots_ok(rows: Seq<HybridHit>, slots: Map<u32, usize>) -> bool {
    &&& forall|i: int|
        0 <= i < rows.len() ==> slots.contains_key((#[trigger] rows[i]).doc_id)
            && slots[rows[i].doc_id] == i
    &&& forall|d: u32| #[trigger]
        slots.contains_key(d) ==> slots[d] < rows.len() && rows[slots[d] as int].doc_id == d
}

/// The position of a document among rows of different documents.
proof fn lemma_slot(rows: Seq<HybridHit>, slots: Map<u32, usize>, d: u32)
    requires
        slots_ok(rows, slots),
    ensures
        docs_of(rows).contains(d) == slots.contains_key(d),
        slots.contains_key(d) ==> docs_of(rows).index_of(d) == slots[d],
{
    let docs = docs_of(rows);
    if docs.contains(d) {
        let i = docs.index_of(d);
        assert(docs[i] == d);
        assert(rows[i].doc_id == d);
    }
    if slots.contains_key(d) {
        assert(docs[slots[d] as int] == d);
    }
}

/// Merge the most similar documents with the lexical hits, and keep the best
/// `k` by fused score. A document that only one side found competes too.
pub fn merge_retrieve(
    bm25_hits: &[SearchHit],
    bm25_sims: &[i32],
    sem_hits: &Vec<HybridHit>,
    fusion: Fusion,
    k: usize,
) -> (out: Vec<HybridHit>)
    requires
        fusion.wf(),
        bm25_sims@.len() == bm25_hits@.len(),
    ensures
        k == 0 ==> out@.len() == 0,
        k > 0 ==> {
            let u = merged(sem_hits@, bm25_hits@, bm25_sims@, bm25_hits@.len() as int);
            is_fusion(fusion, u.rows, u.bm25_rank, u.sem_rank, k as int, out@)
        },
{
    broadcast use vstd::std_specs::hash::group_hash_axioms;

    if k == 0 {
        return Vec::new();
    }
    let mut rows: Vec<HybridHit> = Vec::new();
    let mut bm25_rank: Vec<usize> = Vec::new();
    let mut sem_rank: Vec<usize> = Vec::new();
    let mut slots: HashMap<u32, usize> = HashMap::new();
    let n: usize = sem_hits.len();
    let mut i: usize = 0;
    while i < n
        invariant
            i <= n == sem_hits@.len(),
            rows@.len() == bm25_rank@.len() == sem_rank@.len(),
            rows@.len() <= i,
            slots_ok(rows@, slots@),
            (Union { rows: rows@, bm25_rank: bm25_rank@, sem_rank: sem_rank@ }) == entered(
                sem_hits@,
                i as int,
            ),
        decreases n - i,
    {
        broadcast use vstd::std_specs::hash::group_hash_axioms;

        let h: HybridHit = sem_hits[i];
        let ghost before = rows@;
        let ghost slots0 = slots@;
        proof {
            lemma_slot(rows@, slots@, h.doc_id);
        }
        let found: Option<usize> = match slots.get(&h.doc_id) {
            Some(s) => Some(*s),
            None => None,
        };
        match found {
            Some(at) => {
                rows.set(at, h);
                sem_rank.set(at, i + 1);
                proof {
                    assert forall|a: int| 0 <= a < rows@.len() implies slots@.contains_key(
                        (#[trigger] rows@[a]).doc_id,
                    ) && slots@[rows@[a].doc_id] == a by {
                        assert(before[a].doc_id == rows@[a].doc_id);
                    }
                }
            },
            None => {
                let at: usize = rows.len();
                rows.push(h);
                bm25_rank.push(0);
                sem_rank.push(i + 1);
                slots.insert(h.doc_id, at);
                proof {
                    assert forall|a: int| 0 <= a < rows@.len() implies slots@.contains_key(
                        (#[trigger] rows@[a]).doc_id,
                    ) && slots@[rows@[a].doc_id] == a by {
                        if a < at {
                            assert(before[a] == rows@[a]);
                        }
                    }
                    assert forall|d: u32| #[trigger] slots@.contains_key(d) implies slots@[d]
                        < rows@.len() && rows@[slots@[d] as int].doc_id == d by {
                        if d != h.doc_id {
                            assert(slots0.contains_key(d));
                        }
                    }
                }
            },
        }
        i += 1;
        assert((Union { rows: rows@, bm25_rank: bm25_rank@, sem_rank: sem_rank@ }) =~= entered(
            sem_hits@,
            i as int,
        ));
    }
    let m: usize = bm25_hits.len();
    let mut j: usize = 0;
    while j < m
        invariant
            j <= m == bm25_hits@.len(),
            bm25_sims@.len() == m,
            rows@.len() == bm25_rank@.len() == sem_rank@.len(),
            rows@.len() <= sem_hits@.len() + j,
            slots_ok(rows@, slots@),
            (Union { rows: rows@, bm25_rank: bm25_rank@, sem_rank: sem_rank@ }) == merged(
                sem_hits@,
                bm25_hits@,
                bm25_sims@,
                j as int,
            ),
        decreases m - j,
    {
        broadcast use vstd::std_specs::hash::group_hash_axioms;

        let h: SearchHit = bm25_hits[j];
        let ghost before = rows@;
        let ghost slots0 = slots@;
        proof {
            lemma_slot(rows@, slots@, h.doc_id);
        }
        let found: Option<usize> = match slots.get(&h.doc_id) {
            Some(s) => Some(*s),
            None => None,
        };
        match found {
            Some(at) => {
                let r: HybridHit = rows[at];
                rows.set(
                    at,
                    HybridHit {
                        doc_id: r.doc_id,
                        score: r.score,
                        bm25: h.score,
                        semantic: r.semantic,
                    },
                );
                bm25_rank.set(at, j + 1);
                proof {
                    assert forall|a: int| 0 <= a < rows@.len() implies slots@.contains_key(
                        (#[trigger] rows@[a]).doc_id,
                    ) && slots@[rows@[a].doc_id] == a by {
                        assert(before[a].doc_id == rows@[a].doc_id);
                    }
                }
            },
            None => {
                let at: usize = rows.len();
                rows.push(
                    HybridHit {
                        doc_id: h.doc_id,
                        score: 0,
                        bm25: h.score,
                        semantic: bm25_sims[j],
                    },
                );
                bm25_rank.push(j + 1);
                sem_rank.push(0);
                slots.insert(h.doc_id, at);
                proof {
                    assert forall|a: int| 0 <= a < rows@.len() implies slots@.contains_key(
                        (#[trigger] rows@[a]).doc_id,
                    ) && slots@[rows@[a].doc_id] == a by {
                        if a < at {
                            assert(before[a] == rows@[a]);
                        }
                    }
                    assert forall|d: u32| #[trigger] slots@.contains_key(d) implies slots@[d]
                        < rows@.len() && rows@[slots@[d] as int].doc_id == d by {
                        if d != h.doc_id {
                            assert(slots0.contains_key(d));
                        }
                    }
                }
            },
        }
        j += 1;
        assert((Union { rows: rows@, bm25_rank: bm25_rank@, sem_rank: sem_rank@ }) =~= merged(
            sem_hits@,
            bm25_hits@,
            bm25_sims@,
            j as int,
        ));
    }
    fuse_union(rows, &bm25_rank, &sem_rank, fusion, k)
}

/// Like [`merge_retrieve`], with the most similar of `docs`: at least `k` of
/// them, and at least `pool`.
pub fn merge_retrieve_ivf(
    bm25_hits: &[SearchHit],
    bm25_sims: &[i32],
    docs: &[u32],
    sims: &[i32],
    fusion: Fusion,
    k: usize,
    pool: usize,
) -> (out: Vec<HybridHit>)
    requires
        fusion.wf(),
        bm25_sims@.len() == bm25_hits@.len(),
        docs@.len() == sims@.len(),
    ensures
        k == 0 ==> out@.len() == 0,
        k > 0 ==> exists|sem: Seq<HybridHit>| #[trigger]
            best_rows(similar_rows(docs@, sims@), most(pool as int, k as int), sem) && {
                let u = merged(sem, bm25_hits@, bm25_sims@, bm25_hits@.len() as int);
                is_fusion(fusion, u.rows, u.bm25_rank, u.sem_rank, k as int, out@)
            },
{
    if k == 0 {
        return Vec::new();
    }
    let wide: usize = if pool > k { pool } else { k };
    let sem_hits = semantic_pool(docs, sims, wide);
    proof {
        assert(most(wide as int, 1) == most(pool as int, k as int));
        lemma_best_len(similar_rows(docs@, sims@), most(pool as int, k as int), sem_hits@);
    }
    merge_retrieve(bm25_hits, bm25_sims, &sem_hits, fusion, k)
}

/// The best rows are no more than there are rows, and each is one of them.
pub proof fn lemma_best_len(rows: Seq<HybridHit>, k: int, out: Seq<HybridHit>)
    requires
        best_rows(rows, k, out),
        k >= 0,
    ensures
        out.len() == least(k, rows.len() as int),
        forall|i: int| 0 <= i < out.len() ==> rows.contains(#[trigger] out[i]),
{
    let less = rank_less(scores_of(rows), docs_of(rows));
    let order = choose|order: Seq<usize>| #[trigger]
        order::sorted_indices(order, rows.len() as int, less) && out == order::arranged(
            rows,
            order,
        ).take(least(k, rows.len() as int));
    assert forall|i: int| 0 <= i < out.len() implies rows.contains(#[trigger] out[i]) by {
        assert(out[i] == rows[order[i] as int]);
        assert(0 <= order[i] < rows.len());
    }
}

/// The documents of the rows are below `n`.
pub open spec fn rows_below(rows: Seq<HybridHit>, n: int) -> bool {
    forall|i: int| 0 <= i < rows.len() ==> (#[trigger] rows[i]).doc_id < n
}

/// Merging adds no documents.
pub proof fn lemma_merged_docs(
    sem: Seq<HybridHit>,
    hits: Seq<SearchHit>,
    sims: Seq<i32>,
    j: int,
    n: int,
)
    requires
        0 <= j <= hits.len(),
        rows_below(sem, n),
        forall|i: int| 0 <= i < hits.len() ==> (#[trigger] hits[i]).doc_id < n,
    ensures
        rows_below(merged(sem, hits, sims, j).rows, n),
    decreases j,
{
    if j <= 0 {
        lemma_entered_docs(sem, sem.len() as int, n);
    } else {
        lemma_merged_docs(sem, hits, sims, j - 1, n);
        let u = merged(sem, hits, sims, j - 1);
        assert(hits[j - 1].doc_id < n);
        let docs = docs_of(u.rows);
        if docs.contains(hits[j - 1].doc_id) {
            let at = docs.index_of(hits[j - 1].doc_id);
            assert(docs[at] == hits[j - 1].doc_id);
        }
    }
}

proof fn lemma_entered_docs(sem: Seq<HybridHit>, j: int, n: int)
    requires
        0 <= j <= sem.len(),
        rows_below(sem, n),
    ensures
        rows_below(entered(sem, j).rows, n),
    decreases j,
{
    if j > 0 {
        lemma_entered_docs(sem, j - 1, n);
        let u = entered(sem, j - 1);
        assert(sem[j - 1].doc_id < n);
        let docs = docs_of(u.rows);
        if docs.contains(sem[j - 1].doc_id) {
            let at = docs.index_of(sem[j - 1].doc_id);
            assert(docs[at] == sem[j - 1].doc_id);
        }
    }
}

/// Fusing adds no documents.
pub proof fn lemma_fusion_docs(
    f: Fusion,
    rows: Seq<HybridHit>,
    bm25_rank: Seq<usize>,
    sem_rank: Seq<usize>,
    k: int,
    out: Seq<HybridHit>,
    n: int,
)
    requires
        is_fusion(f, rows, bm25_rank, sem_rank, k, out),
        rows_below(rows, n),
        k >= 0,
    ensures
        rows_below(out, n),
{
    let (lo, hi, scored) = choose|lo: u64, hi: u64, scored: Seq<HybridHit>|
        #![trigger is_range(rows, lo, hi), best_rows(scored, k, out)]
        is_range(rows, lo, hi) && best_rows(scored, k, out) && scored.len() == rows.len()
            && forall|i: int|
            0 <= i < rows.len() ==> #[trigger] scored[i] == (HybridHit {
                score: fused(
                    f,
                    lo as int,
                    hi as int,
                    rows[i],
                    bm25_rank[i] as int,
                    sem_rank[i] as int,
                ) as i64,
                ..rows[i]
            });
    lemma_best_len(scored, k, out);
    assert forall|i: int| 0 <= i < out.len() implies (#[trigger] out[i]).doc_id < n by {
        assert(scored.contains(out[i]));
        let j = choose|j: int| 0 <= j < scored.len() && scored[j] == out[i];
        assert(scored[j].doc_id == rows[j].doc_id);
    }
}

/// What was fused was a row before.
pub proof fn lemma_fused_from(
    f: Fusion,
    rows: Seq<HybridHit>,
    bm25_rank: Seq<usize>,
    sem_rank: Seq<usize>,
    k: int,
    out: Seq<HybridHit>,
    i: int,
) -> (x: int)
    requires
        is_fusion(f, rows, bm25_rank, sem_rank, k, out),
        k >= 0,
        0 <= i < out.len(),
    ensures
        0 <= x < rows.len(),
        rows[x].doc_id == out[i].doc_id,
        rows[x].bm25 == out[i].bm25,
        rows[x].semantic == out[i].semantic,
{
    let (lo, hi, scored) = choose|lo: u64, hi: u64, scored: Seq<HybridHit>|
        #![trigger is_range(rows, lo, hi), best_rows(scored, k, out)]
        is_range(rows, lo, hi) && best_rows(scored, k, out) && scored.len() == rows.len()
            && forall|i: int|
            0 <= i < rows.len() ==> #[trigger] scored[i] == (HybridHit {
                score: fused(
                    f,
                    lo as int,
                    hi as int,
                    rows[i],
                    bm25_rank[i] as int,
                    sem_rank[i] as int,
                ) as i64,
                ..rows[i]
            });
    lemma_best_len(scored, k, out);
    assert(scored.contains(out[i]));
    let x = choose|x: int| 0 <= x < scored.len() && scored[x] == out[i];
    assert(scored[x].doc_id == rows[x].doc_id);
    x
}

/// Hits of different documents become rows in their order.
proof fn lemma_entered(sem: Seq<HybridHit>, j: int)
    requires
        docs_of(sem).no_duplicates(),
        0 <= j <= sem.len(),
    ensures
        entered(sem, j) == (Union {
            rows: sem.take(j),
            bm25_rank: Seq::new(j as nat, |i: int| 0usize),
            sem_rank: Seq::new(j as nat, |i: int| (i + 1) as usize),
        }),
    decreases j,
{
    let want = Union {
        rows: sem.take(j),
        bm25_rank: Seq::new(j as nat, |i: int| 0usize),
        sem_rank: Seq::new(j as nat, |i: int| (i + 1) as usize),
    };
    if j > 0 {
        lemma_entered(sem, j - 1);
        let u = entered(sem, j - 1);
        let docs = docs_of(u.rows);
        let d = sem[j - 1].doc_id;
        if docs.contains(d) {
            let at = docs.index_of(d);
            assert(docs[at] == d);
            assert(docs_of(sem)[at] == docs_of(sem)[j - 1]);
        }
    }
    assert(entered(sem, j) =~= want);
}

/// A document that the encoder found and the lexical search did not is
/// merged with its similarity and no lexical score.
pub proof fn law_encoder_hits_survive(
    sem: Seq<HybridHit>,
    hits: Seq<SearchHit>,
    sims: Seq<i32>,
    i: int,
    j: int,
)
    requires
        0 <= i < sem.len(),
        0 <= j <= hits.len(),
        forall|a: int| 0 <= a < hits.len() ==> (#[trigger] hits[a]).doc_id != sem[i].doc_id,
        docs_of(sem).no_duplicates(),
    ensures
        ({
            let u = merged(sem, hits, sims, j);
            &&& i < u.rows.len()
            &&& u.rows.len() == u.bm25_rank.len() == u.sem_rank.len()
            &&& u.rows[i] == sem[i]
            &&& u.bm25_rank[i] == 0
            &&& i < usize::MAX ==> u.sem_rank[i] == i + 1
        }),
    decreases j,
{
    if j <= 0 {
        lemma_entered(sem, sem.len() as int);
    } else {
        law_encoder_hits_survive(sem, hits, sims, i, j - 1);
        let u = merged(sem, hits, sims, j - 1);
        let docs = docs_of(u.rows);
        let d = hits[j - 1].doc_id;
        if docs.contains(d) {
            let at = docs.index_of(d);
            assert(docs[at] == d);
            assert(docs[i] == sem[i].doc_id);
        }
    }
}

// ---------------------------------------------------------------------------
// What a fused ranking is
// ---------------------------------------------------------------------------

/// The documents of lexical hits.
pub open spec fn found_docs(hits: Seq<SearchHit>) -> Seq<u32> {
    hits.map_values(|h: SearchHit| h.doc_id)
}

/// Row `x` stands before row `y`: it has the higher score, or the same and
/// the smaller document.
pub open spec fn leads(x: HybridHit, y: HybridHit) -> bool {
    x.score > y.score || (x.score == y.score && x.doc_id < y.doc_id)
}

/// `r` and `p` are the places of document `d` among the lexical hits and among
/// the semantic ones, counted from 0; -1 stands for none. It has at least one.
pub open spec fn places(
    sem: Seq<HybridHit>,
    hits: Seq<SearchHit>,
    d: u32,
    r: int,
    p: int,
) -> bool {
    &&& -1 <= r < hits.len()
    &&& -1 <= p < sem.len()
    &&& r >= 0 ==> hits[r].doc_id == d
    &&& p >= 0 ==> sem[p].doc_id == d
    &&& r < 0 ==> forall|i: int| 0 <= i < hits.len() ==> (#[trigger] hits[i]).doc_id != d
    &&& p < 0 ==> forall|i: int| 0 <= i < sem.len() ==> (#[trigger] sem[i]).doc_id != d
    &&& r >= 0 || p >= 0
}

/// `s` is `1 / (k + place)` for a place counted from 1, rounded down to a
/// multiple of 2^-48; `k` counts in 2^-24. `rank` counts from 0, and -1 adds
/// nothing.
pub open spec fn is_share(s: int, k: int, rank: int) -> bool {
    let below = k + (rank + 1) * 0x100_0000;
    if rank < 0 {
        s == 0
    } else {
        s * below <= 0x100_0000_0000_0000_0000 < (s + 1) * below
    }
}

proof fn lemma_share(k: int, rank: int, s: int)
    requires
        k >= 0,
        rank >= -1,
        is_share(s, k, rank),
    ensures
        s == rank_part(k, rank + 1),
{
    let below = k + (rank + 1) * 0x100_0000;
    if rank >= 0 {
        let q = 0x100_0000_0000_0000_0000int / below;
        vstd::arithmetic::div_mod::lemma_fundamental_div_mod(0x100_0000_0000_0000_0000, below);
        vstd::arithmetic::div_mod::lemma_mod_bound(0x100_0000_0000_0000_0000, below);
        assert(q == s) by (nonlinear_arith)
            requires
                s * below <= 0x100_0000_0000_0000_0000,
                0x100_0000_0000_0000_0000 < (s + 1) * below,
                0x100_0000_0000_0000_0000 == below * q + 0x100_0000_0000_0000_0000int % below,
                0 <= 0x100_0000_0000_0000_0000int % below < below,
        ;
    }
}

proof fn lemma_is_share(k: int, rank: int)
    requires
        k >= 0,
        rank >= -1,
    ensures
        is_share(rank_part(k, rank + 1), k, rank),
        0 <= rank_part(k, rank + 1) <= 0x1_0000_0000_0000,
{
    let below = k + (rank + 1) * 0x100_0000;
    if rank >= 0 {
        let q = 0x100_0000_0000_0000_0000int / below;
        vstd::arithmetic::div_mod::lemma_fundamental_div_mod(0x100_0000_0000_0000_0000, below);
        vstd::arithmetic::div_mod::lemma_mod_bound(0x100_0000_0000_0000_0000, below);
        assert(q * below <= 0x100_0000_0000_0000_0000 < (q + 1) * below) by (nonlinear_arith)
            requires
                0x100_0000_0000_0000_0000 == below * q + 0x100_0000_0000_0000_0000int % below,
                0 <= 0x100_0000_0000_0000_0000int % below < below,
        ;
        assert(0 <= q <= 0x1_0000_0000_0000) by (nonlinear_arith)
            requires
                q * below <= 0x100_0000_0000_0000_0000 < (q + 1) * below,
                below >= 0x100_0000,
        ;
    }
}

/// The best `k` of rows with different documents: they come in order of their
/// scores, each is one of the rows, and a row that is left out is outranked by
/// `k` others.
pub proof fn law_best_rows(rows: Seq<HybridHit>, k: int, out: Seq<HybridHit>)
    requires
        k >= 0,
        rows.len() <= usize::MAX,
        best_rows(rows, k, out),
        docs_of(rows).no_duplicates(),
    ensures
        out.len() <= k,
        forall|i: int, j: int| 0 <= i < j < out.len() ==> leads(#[trigger] out[i], #[trigger] out[j]),
        forall|i: int| 0 <= i < out.len() ==> rows.contains(#[trigger] out[i]),
        forall|x: int|
            0 <= x < rows.len() && !out.contains(#[trigger] rows[x]) ==> out.len() == k && forall|
                i: int,
            |
                0 <= i < out.len() ==> leads(#[trigger] out[i], rows[x]),
{
    let less = rank_less(scores_of(rows), docs_of(rows));
    let n = rows.len() as int;
    let order = choose|order: Seq<usize>| #[trigger]
        order::sorted_indices(order, n, less) && out == order::arranged(rows, order).take(
            least(k, n),
        );
    lemma_best_len(rows, k, out);
    assert forall|a: int, b: int| 0 <= a < b < n implies leads(
        rows[#[trigger] order[a] as int],
        rows[#[trigger] order[b] as int],
    ) by {
        assert(less(order[a] as int, order[b] as int));
        assert(docs_of(rows)[order[a] as int] == rows[order[a] as int].doc_id);
        assert(docs_of(rows)[order[b] as int] == rows[order[b] as int].doc_id);
        if rows[order[a] as int].doc_id == rows[order[b] as int].doc_id {
            assert(order[a] == order[b]);
        }
    }
    assert forall|i: int, j: int| 0 <= i < j < out.len() implies leads(
        #[trigger] out[i],
        #[trigger] out[j],
    ) by {
        assert(out[i] == rows[order[i] as int] && out[j] == rows[order[j] as int]);
        assert(leads(rows[order[i] as int], rows[order[j] as int]));
    }
    assert forall|x: int| 0 <= x < n && !out.contains(#[trigger] rows[x]) implies out.len() == k
        && forall|i: int| 0 <= i < out.len() ==> leads(#[trigger] out[i], rows[x]) by {
        assert(order.contains(x as usize));
        let q = choose|q: int| 0 <= q < order.len() && order[q] == x as usize;
        if q < out.len() {
            assert(out[q] == rows[x]);
            assert(out.contains(rows[x]));
        }
        assert forall|i: int| 0 <= i < out.len() implies leads(#[trigger] out[i], rows[x]) by {
            assert(out[i] == rows[order[i] as int]);
            assert(leads(rows[order[i] as int], rows[order[q] as int]));
        }
    }
}

/// Row `x` of a union carries what the two sides say of its document.
pub open spec fn carries(
    sem: Seq<HybridHit>,
    hits: Seq<SearchHit>,
    sims: Seq<i32>,
    u: Union,
    x: int,
    r: int,
    p: int,
) -> bool {
    let row = u.rows[x];
    &&& places(sem, hits, row.doc_id, r, p)
    &&& u.bm25_rank[x] == r + 1
    &&& u.sem_rank[x] == p + 1
    &&& row.bm25 == if r >= 0 {
        hits[r].score
    } else {
        sem[p].bm25
    }
    &&& row.semantic == if p >= 0 {
        sem[p].semantic
    } else {
        sims[r]
    }
}

/// Row `x` of a union carries what the two sides say of its document, wherever
/// the document stands.
pub open spec fn carried(
    sem: Seq<HybridHit>,
    hits: Seq<SearchHit>,
    sims: Seq<i32>,
    u: Union,
    x: int,
) -> bool {
    exists|r: int, p: int| #[trigger] carries(sem, hits, sims, u, x, r, p)
}

proof fn lemma_union(sem: Seq<HybridHit>, hits: Seq<SearchHit>, sims: Seq<i32>, j: int)
    requires
        0 <= j <= hits.len(),
        sem.len() + hits.len() <= usize::MAX,
        docs_of(sem).no_duplicates(),
        found_docs(hits).no_duplicates(),
    ensures
        ({
            let u = merged(sem, hits, sims, j);
            let some = hits.take(j);
            &&& u.rows.len() == u.bm25_rank.len() == u.sem_rank.len()
            &&& sem.len() <= u.rows.len() <= sem.len() + j
            &&& docs_of(u.rows).no_duplicates()
            &&& forall|x: int| 0 <= x < u.rows.len() ==> #[trigger] carried(sem, some, sims, u, x)
            &&& forall|x: int| 0 <= x < sem.len() ==> (#[trigger] u.rows[x]).doc_id == sem[x].doc_id
            &&& forall|r: int|
                0 <= r < j ==> docs_of(u.rows).contains((#[trigger] hits[r]).doc_id)
        }),
    decreases j,
{
    let u = merged(sem, hits, sims, j);
    let some = hits.take(j);
    if j == 0 {
        lemma_entered(sem, sem.len() as int);
        assert(sem.take(sem.len() as int) =~= sem);
        assert forall|x: int| 0 <= x < u.rows.len() implies #[trigger] carried(
            sem,
            some,
            sims,
            u,
            x,
        ) by {
            assert(carries(sem, some, sims, u, x, -1, x));
        }
    } else {
        lemma_union(sem, hits, sims, j - 1);
        let v = merged(sem, hits, sims, j - 1);
        let less = hits.take(j - 1);
        let h = hits[j - 1];
        let docs = docs_of(v.rows);
        assert(found_docs(hits)[j - 1] == h.doc_id);
        assert forall|r: int| 0 <= r < j - 1 implies (#[trigger] hits[r]).doc_id != h.doc_id by {
            assert(found_docs(hits)[r] == hits[r].doc_id);
        }
        let known = docs.contains(h.doc_id);
        let at = if known {
            docs.index_of(h.doc_id)
        } else {
            v.rows.len() as int
        };
        if known {
            assert(docs[at] == h.doc_id);
            assert(docs_of(u.rows) =~= docs);
        } else {
            assert(docs_of(u.rows) =~= docs.push(h.doc_id));
            assert forall|a: int, b: int|
                0 <= a < u.rows.len() && 0 <= b < u.rows.len() && a != b implies docs_of(u.rows)[a]
                != docs_of(u.rows)[b] by {
                if a == docs.len() {
                    assert(docs.contains(docs[b]));
                } else if b == docs.len() {
                    assert(docs.contains(docs[a]));
                }
            }
        }
        assert forall|x: int| 0 <= x < u.rows.len() implies #[trigger] carried(
            sem,
            some,
            sims,
            u,
            x,
        ) by {
            if x == at {
                if known {
                    assert(carried(sem, less, sims, v, x));
                    let (r, p) = choose|r: int, p: int| #[trigger]
                        carries(sem, less, sims, v, x, r, p);
                    if r >= 0 {
                        assert(hits[r].doc_id == less[r].doc_id);
                    }
                    assert(p >= 0);
                    assert(some[j - 1] == h);
                    assert(carries(sem, some, sims, u, x, j - 1, p));
                } else {
                    assert forall|i: int| 0 <= i < sem.len() implies (#[trigger] sem[i]).doc_id
                        != h.doc_id by {
                        assert(docs[i] == v.rows[i].doc_id);
                        assert(docs.contains(docs[i]));
                    }
                    assert(some[j - 1] == h);
                    assert(carries(sem, some, sims, u, x, j - 1, -1));
                }
            } else {
                assert(carried(sem, less, sims, v, x));
                let (r, p) = choose|r: int, p: int| #[trigger]
                    carries(sem, less, sims, v, x, r, p);
                assert(u.rows[x] == v.rows[x]);
                assert(docs[x] == v.rows[x].doc_id);
                assert(v.rows[x].doc_id != h.doc_id) by {
                    if known {
                        assert(docs[at] == h.doc_id);
                    } else {
                        assert(docs.contains(docs[x]));
                    }
                }
                if r < 0 {
                    assert forall|i: int| 0 <= i < some.len() implies (#[trigger] some[i]).doc_id
                        != u.rows[x].doc_id by {
                        if i < j - 1 {
                            assert(less[i] == some[i]);
                        }
                    }
                } else {
                    assert(less[r] == some[r]);
                }
                assert(carries(sem, some, sims, u, x, r, p));
            }
        }
        assert forall|x: int| 0 <= x < sem.len() implies (#[trigger] u.rows[x]).doc_id
            == sem[x].doc_id by {
            assert(v.rows[x].doc_id == sem[x].doc_id);
        }
        assert forall|r: int| 0 <= r < j implies docs_of(u.rows).contains(
            (#[trigger] hits[r]).doc_id,
        ) by {
            if r == j - 1 {
                assert(docs_of(u.rows)[at] == h.doc_id);
            } else {
                assert(docs.contains(hits[r].doc_id));
                let q = choose|q: int| 0 <= q < docs.len() && docs[q] == hits[r].doc_id;
                assert(docs_of(u.rows)[q] == docs[q]);
            }
        }
    }
}

/// One row for every document of either side and no other, each with what the
/// two sides say of its document.
pub open spec fn unites(
    sem: Seq<HybridHit>,
    hits: Seq<SearchHit>,
    sims: Seq<i32>,
    u: Union,
) -> bool {
    &&& u.rows.len() == u.bm25_rank.len() == u.sem_rank.len()
    &&& u.rows.len() <= sem.len() + hits.len()
    &&& docs_of(u.rows).no_duplicates()
    &&& forall|x: int| 0 <= x < u.rows.len() ==> #[trigger] carried(sem, hits, sims, u, x)
    &&& forall|r: int|
        0 <= r < hits.len() ==> docs_of(u.rows).contains((#[trigger] hits[r]).doc_id)
    &&& forall|p: int| 0 <= p < sem.len() ==> docs_of(u.rows).contains((#[trigger] sem[p]).doc_id)
}

/// The union of the two sides has one row for every document of either side
/// and no other. The row of a lexical hit carries its score and its place, that
/// of a semantic hit its similarity and its place, and that of a document on
/// both sides all of them.
pub proof fn law_union_carries_both_sides(
    sem: Seq<HybridHit>,
    hits: Seq<SearchHit>,
    sims: Seq<i32>,
)
    requires
        sem.len() + hits.len() <= usize::MAX,
        docs_of(sem).no_duplicates(),
        found_docs(hits).no_duplicates(),
    ensures
        unites(sem, hits, sims, merged(sem, hits, sims, hits.len() as int)),
{
    let u = merged(sem, hits, sims, hits.len() as int);
    lemma_union(sem, hits, sims, hits.len() as int);
    assert(hits.take(hits.len() as int) =~= hits);
    assert forall|p: int| 0 <= p < sem.len() implies docs_of(u.rows).contains(
        (#[trigger] sem[p]).doc_id,
    ) by {
        assert(u.rows[p].doc_id == sem[p].doc_id);
        assert(docs_of(u.rows)[p] == sem[p].doc_id);
    }
}

/// A document has one place on each side.
proof fn lemma_places(
    sem: Seq<HybridHit>,
    hits: Seq<SearchHit>,
    d: u32,
    r: int,
    p: int,
    q: int,
    o: int,
)
    requires
        docs_of(sem).no_duplicates(),
        found_docs(hits).no_duplicates(),
        places(sem, hits, d, r, p),
        places(sem, hits, d, q, o),
    ensures
        r == q,
        p == o,
{
    if r >= 0 && q >= 0 {
        assert(found_docs(hits)[r] == d && found_docs(hits)[q] == d);
    }
    if p >= 0 && o >= 0 {
        assert(docs_of(sem)[p] == d && docs_of(sem)[o] == d);
    }
}

/// A hit of a merged ranking shows what the two sides say of its document.
pub open spec fn shows_both(
    sem: Seq<HybridHit>,
    hits: Seq<SearchHit>,
    sims: Seq<i32>,
    h: HybridHit,
    r: int,
    p: int,
) -> bool {
    &&& places(sem, hits, h.doc_id, r, p)
    &&& r >= 0 ==> h.bm25 == hits[r].score
    &&& r < 0 ==> h.bm25 == sem[p].bm25
    &&& p >= 0 ==> h.semantic == sem[p].semantic
    &&& p < 0 ==> h.semantic == sims[r]
}

/// A hit shows what the two sides say of its document, and has the score that
/// they give it.
pub open spec fn merged_hit(
    sem: Seq<HybridHit>,
    hits: Seq<SearchHit>,
    sims: Seq<i32>,
    score: spec_fn(u32, int, int, int) -> bool,
    h: HybridHit,
) -> bool {
    exists|r: int, p: int| #[trigger]
        shows_both(sem, hits, sims, h, r, p) && score(h.doc_id, r, p, h.score as int)
}

/// The ranking `out` of the merged documents, whose fused scores are those for
/// which `score` holds: at most `k` of them, best first, and what is left out
/// is outranked by `k` others.
pub open spec fn ranks_merged(
    sem: Seq<HybridHit>,
    hits: Seq<SearchHit>,
    sims: Seq<i32>,
    score: spec_fn(u32, int, int, int) -> bool,
    k: int,
    out: Seq<HybridHit>,
) -> bool {
    &&& out.len() <= k
    &&& forall|i: int, j: int| 0 <= i < j < out.len() ==> leads(#[trigger] out[i], #[trigger] out[j])
    &&& forall|i: int| 0 <= i < out.len() ==> merged_hit(sem, hits, sims, score, #[trigger] out[i])
    &&& forall|d: u32, r: int, p: int, s: int|
        #![trigger places(sem, hits, d, r, p), score(d, r, p, s)]
        places(sem, hits, d, r, p) && score(d, r, p, s) && !docs_of(out).contains(d) ==> out.len()
            == k && forall|i: int|
            0 <= i < out.len() ==> (#[trigger] out[i]).score > s || (out[i].score == s
                && out[i].doc_id < d)
}

/// Reciprocal rank fusion: a document scores the sum of `1 / (k + place)` over
/// the sides that found it.
pub open spec fn rrf_score(c: int) -> spec_fn(u32, int, int, int) -> bool {
    |d: u32, r: int, p: int, s: int|
        exists|a: int, b: int| #[trigger] is_share(a, c, r) && #[trigger] is_share(b, c, p) && s == a + b
}

/// The lowest and the highest lexical score above nothing; 0 and 1 if there is
/// none.
pub open spec fn lexical_span(hits: Seq<SearchHit>, lo: int, hi: int) -> bool {
    if forall|i: int| 0 <= i < hits.len() ==> (#[trigger] hits[i]).score == 0 {
        lo == 0 && hi == 1
    } else {
        &&& lo > 0
        &&& exists|i: int| 0 <= i < hits.len() && (#[trigger] hits[i]).score == lo
        &&& exists|i: int| 0 <= i < hits.len() && (#[trigger] hits[i]).score == hi
        &&& forall|i: int|
            0 <= i < hits.len() && (#[trigger] hits[i]).score > 0 ==> lo <= hits[i].score <= hi
    }
}

/// `s` is `alpha` times the place of the lexical score `v` in the span from
/// `lo` to `hi`, and the rest of the weight times the similarity. Weights and
/// similarities count in 2^-24, and the lexical part is rounded down.
pub open spec fn is_mix(s: int, alpha: int, lo: int, hi: int, v: int, sim: int) -> bool {
    let lexical = s - (0x100_0000 - alpha) * sim;
    let span = if hi - lo > 1 {
        hi - lo
    } else {
        1
    };
    if v == 0 {
        lexical == 0
    } else {
        lexical * span <= alpha * (v - lo) * 0x100_0000 < (lexical + 1) * span
    }
}

proof fn lemma_mix(alpha: int, lo: int, hi: int, v: int, sim: int, s: int)
    requires
        0 <= alpha,
        v == 0 || lo <= v,
    ensures
        is_mix(s, alpha, lo, hi, v, sim) <==> s == lexical_part(alpha, lo, hi, v) + (0x100_0000
            - alpha) * sim,
{
    let lexical = s - (0x100_0000 - alpha) * sim;
    let span = if hi - lo > 1 {
        hi - lo
    } else {
        1
    };
    if v != 0 {
        let top = alpha * (v - lo) * 0x100_0000;
        let q = top / span;
        vstd::arithmetic::div_mod::lemma_fundamental_div_mod(top, span);
        vstd::arithmetic::div_mod::lemma_mod_bound(top, span);
        assert(q * span <= top < (q + 1) * span) by (nonlinear_arith)
            requires
                top == span * q + top % span,
                0 <= top % span < span,
        ;
        if lexical * span <= top < (lexical + 1) * span {
            assert(lexical == q) by (nonlinear_arith)
                requires
                    lexical * span <= top < (lexical + 1) * span,
                    q * span <= top < (q + 1) * span,
                    span > 0,
            ;
        }
        assert(alpha * (v - lo) * bm25::ONE == top);
    }
}

/// Merged by rank, documents are ranked by the sum of their shares.
pub proof fn law_rank_fusion(
    sem: Seq<HybridHit>,
    hits: Seq<SearchHit>,
    sims: Seq<i32>,
    c: u64,
    k: int,
    out: Seq<HybridHit>,
)
    requires
        k >= 0,
        sem.len() + hits.len() < usize::MAX,
        docs_of(sem).no_duplicates(),
        found_docs(hits).no_duplicates(),
        ({
            let u = merged(sem, hits, sims, hits.len() as int);
            is_fusion(Fusion::Rrf { k: c }, u.rows, u.bm25_rank, u.sem_rank, k, out)
        }),
    ensures
        ranks_merged(sem, hits, sims, rrf_score(c as int), k, out),
{
    law_union_carries_both_sides(sem, hits, sims);
    lemma_rank_fusion(sem, hits, sims, merged(sem, hits, sims, hits.len() as int), c, k, out);
}

proof fn lemma_rank_fusion(
    sem: Seq<HybridHit>,
    hits: Seq<SearchHit>,
    sims: Seq<i32>,
    u: Union,
    c: u64,
    k: int,
    out: Seq<HybridHit>,
)
    requires
        k >= 0,
        sem.len() + hits.len() < usize::MAX,
        docs_of(sem).no_duplicates(),
        found_docs(hits).no_duplicates(),
        unites(sem, hits, sims, u),
        is_fusion(Fusion::Rrf { k: c }, u.rows, u.bm25_rank, u.sem_rank, k, out),
    ensures
        ranks_merged(sem, hits, sims, rrf_score(c as int), k, out),
{
    let f = Fusion::Rrf { k: c };
    let score = rrf_score(c as int);
    assert forall|lo: u64, hi: u64, x: int, r: int, p: int|
        0 <= x < u.rows.len() && #[trigger] is_range(u.rows, lo, hi) && #[trigger] carries(
            sem,
            hits,
            sims,
            u,
            x,
            r,
            p,
        ) implies agrees(f, score, u, lo, hi, x, r, p) by {
        let a = rank_part(c as int, r + 1);
        let b = rank_part(c as int, p + 1);
        lemma_is_share(c as int, r);
        lemma_is_share(c as int, p);
        assert(is_share(a, c as int, r) && is_share(b, c as int, p));
        let d = u.rows[x].doc_id;
        assert(score(d, r, p, a + b));
        assert forall|s: int| #[trigger] score(d, r, p, s) implies s == a + b by {
            let (y, z) = choose|y: int, z: int| #[trigger]
                is_share(y, c as int, r) && #[trigger] is_share(z, c as int, p) && s == y + z;
            lemma_share(c as int, r, y);
            lemma_share(c as int, p, z);
        }
    }
    lemma_ranks_merged(sem, hits, sims, u, f, score, k, out);
}

/// The fused score of row `x` is the one for which `score` holds.
spec fn agrees(
    f: Fusion,
    score: spec_fn(u32, int, int, int) -> bool,
    u: Union,
    lo: u64,
    hi: u64,
    x: int,
    r: int,
    p: int,
) -> bool {
    let v = fused(
        f,
        lo as int,
        hi as int,
        u.rows[x],
        u.bm25_rank[x] as int,
        u.sem_rank[x] as int,
    );
    &&& i64::MIN <= v <= i64::MAX
    &&& score(u.rows[x].doc_id, r, p, v)
    &&& forall|s: int| #[trigger] score(u.rows[x].doc_id, r, p, s) ==> s == v
}

proof fn lemma_ranks_merged(
    sem: Seq<HybridHit>,
    hits: Seq<SearchHit>,
    sims: Seq<i32>,
    u: Union,
    f: Fusion,
    score: spec_fn(u32, int, int, int) -> bool,
    k: int,
    out: Seq<HybridHit>,
)
    requires
        k >= 0,
        sem.len() + hits.len() < usize::MAX,
        docs_of(sem).no_duplicates(),
        found_docs(hits).no_duplicates(),
        unites(sem, hits, sims, u),
        is_fusion(f, u.rows, u.bm25_rank, u.sem_rank, k, out),
        forall|lo: u64, hi: u64, x: int, r: int, p: int|
            0 <= x < u.rows.len() && #[trigger] is_range(u.rows, lo, hi) && #[trigger] carries(
                sem,
                hits,
                sims,
                u,
                x,
                r,
                p,
            ) ==> agrees(f, score, u, lo, hi, x, r, p),
    ensures
        ranks_merged(sem, hits, sims, score, k, out),
{
    let rows = u.rows;
    let (lo, hi, scored) = choose|lo: u64, hi: u64, scored: Seq<HybridHit>|
        #![trigger is_range(rows, lo, hi), best_rows(scored, k, out)]
        is_range(rows, lo, hi) && best_rows(scored, k, out) && scored.len() == rows.len()
            && forall|i: int|
            0 <= i < rows.len() ==> #[trigger] scored[i] == (HybridHit {
                score: fused(
                    f,
                    lo as int,
                    hi as int,
                    rows[i],
                    u.bm25_rank[i] as int,
                    u.sem_rank[i] as int,
                ) as i64,
                ..rows[i]
            });
    assert(docs_of(scored) =~= docs_of(rows)) by {
        assert forall|i: int| 0 <= i < rows.len() implies docs_of(scored)[i] == docs_of(rows)[i] by {
            assert(scored[i].doc_id == rows[i].doc_id);
        }
    }
    law_best_rows(scored, k, out);
    assert forall|i: int| 0 <= i < out.len() implies merged_hit(
        sem,
        hits,
        sims,
        score,
        #[trigger] out[i],
    ) by {
        assert(scored.contains(out[i]));
        let x = choose|x: int| 0 <= x < scored.len() && scored[x] == out[i];
        assert(carried(sem, hits, sims, u, x));
        let (r, p) = choose|r: int, p: int| #[trigger] carries(sem, hits, sims, u, x, r, p);
        assert(agrees(f, score, u, lo, hi, x, r, p));
        assert(shows_both(sem, hits, sims, out[i], r, p));
    }
    assert forall|d: u32, r: int, p: int, s: int|
        #![trigger places(sem, hits, d, r, p), score(d, r, p, s)]
        places(sem, hits, d, r, p) && score(d, r, p, s) && !docs_of(out).contains(d) implies
        out.len() == k && forall|i: int|
        0 <= i < out.len() ==> (#[trigger] out[i]).score > s || (out[i].score == s && out[i].doc_id
            < d) by {
        assert(docs_of(rows).contains(d)) by {
            if r >= 0 {
                assert(docs_of(rows).contains(hits[r].doc_id));
            } else {
                assert(docs_of(rows).contains(sem[p].doc_id));
            }
        }
        let x = choose|x: int| 0 <= x < docs_of(rows).len() && docs_of(rows)[x] == d;
        assert(carried(sem, hits, sims, u, x));
        let (q, o) = choose|q: int, o: int| #[trigger] carries(sem, hits, sims, u, x, q, o);
        lemma_places(sem, hits, d, r, p, q, o);
        assert(agrees(f, score, u, lo, hi, x, q, o));
        assert(scored[x].score == s && scored[x].doc_id == d);
        if out.contains(scored[x]) {
            let i = choose|i: int| 0 <= i < out.len() && out[i] == scored[x];
            assert(docs_of(out)[i] == d);
        }
        assert forall|i: int| 0 <= i < out.len() implies (#[trigger] out[i]).score > s || (
        out[i].score == s && out[i].doc_id < d) by {
            assert(leads(out[i], scored[x]));
        }
    }
}

/// Weighted fusion: a document scores `alpha` times its lexical score, brought
/// into the range from 0 to 1, and the rest of the weight times its similarity.
pub open spec fn weighted_score(
    sem: Seq<HybridHit>,
    hits: Seq<SearchHit>,
    sims: Seq<i32>,
    alpha: int,
) -> spec_fn(u32, int, int, int) -> bool {
    |d: u32, r: int, p: int, s: int|
        exists|lo: int, hi: int| #[trigger]
            lexical_span(hits, lo, hi) && is_mix(
                s,
                alpha,
                lo,
                hi,
                if r >= 0 {
                    hits[r].score as int
                } else {
                    0
                },
                if p >= 0 {
                    sem[p].semantic as int
                } else {
                    sims[r] as int
                },
            )
}

proof fn lemma_spans(hits: Seq<SearchHit>, lo: int, hi: int, lo2: int, hi2: int)
    requires
        lexical_span(hits, lo, hi),
        lexical_span(hits, lo2, hi2),
    ensures
        lo == lo2,
        hi == hi2,
{
    if !(forall|i: int| 0 <= i < hits.len() ==> (#[trigger] hits[i]).score == 0) {
        let a = choose|i: int| 0 <= i < hits.len() && (#[trigger] hits[i]).score == lo;
        let b = choose|i: int| 0 <= i < hits.len() && (#[trigger] hits[i]).score == hi;
        let c = choose|i: int| 0 <= i < hits.len() && (#[trigger] hits[i]).score == lo2;
        let d = choose|i: int| 0 <= i < hits.len() && (#[trigger] hits[i]).score == hi2;
        assert(hits[a].score > 0 && hits[c].score > 0);
        assert(hi > 0 && hi2 > 0) by {
            assert(lo <= hits[a].score <= hi);
            assert(lo2 <= hits[c].score <= hi2);
        }
        assert(hits[b].score > 0 && hits[d].score > 0);
    }
}

/// Merged by weight, documents are ranked by the mix of their scores.
pub proof fn law_weighted_fusion(
    sem: Seq<HybridHit>,
    hits: Seq<SearchHit>,
    sims: Seq<i32>,
    alpha: u32,
    k: int,
    out: Seq<HybridHit>,
)
    requires
        k >= 0,
        alpha <= 0x100_0000,
        sem.len() + hits.len() < usize::MAX,
        docs_of(sem).no_duplicates(),
        found_docs(hits).no_duplicates(),
        forall|i: int| 0 <= i < sem.len() ==> (#[trigger] sem[i]).bm25 == 0,
        ({
            let u = merged(sem, hits, sims, hits.len() as int);
            is_fusion(Fusion::Weighted { alpha }, u.rows, u.bm25_rank, u.sem_rank, k, out)
        }),
    ensures
        ranks_merged(sem, hits, sims, weighted_score(sem, hits, sims, alpha as int), k, out),
{
    let f = Fusion::Weighted { alpha };
    let u = merged(sem, hits, sims, hits.len() as int);
    let rows = u.rows;
    law_union_carries_both_sides(sem, hits, sims);
    let score = weighted_score(sem, hits, sims, alpha as int);
    assert forall|lo: u64, hi: u64, x: int, r: int, p: int|
        0 <= x < u.rows.len() && #[trigger] is_range(u.rows, lo, hi) && #[trigger] carries(
            sem,
            hits,
            sims,
            u,
            x,
            r,
            p,
        ) implies agrees(f, score, u, lo, hi, x, r, p) by {
        lemma_range_of_hits(sem, hits, sims, lo, hi);
        let row = rows[x];
        let v = row.bm25 as int;
        let sim = row.semantic as int;
        let d = row.doc_id;
        let a = alpha as int;
        assert(v == 0 || lo <= v <= hi);
        let s = fused(f, lo as int, hi as int, row, u.bm25_rank[x] as int, u.sem_rank[x] as int);
        lemma_mix(a, lo as int, hi as int, v, sim, s);
        assert(score(d, r, p, s)) by {
            assert(lexical_span(hits, lo as int, hi as int));
        }
        assert forall|t: int| #[trigger] score(d, r, p, t) implies t == s by {
            let (lo2, hi2) = choose|lo2: int, hi2: int| #[trigger]
                lexical_span(hits, lo2, hi2) && is_mix(
                    t,
                    a,
                    lo2,
                    hi2,
                    if r >= 0 {
                        hits[r].score as int
                    } else {
                        0
                    },
                    if p >= 0 {
                        sem[p].semantic as int
                    } else {
                        sims[r] as int
                    },
                );
            lemma_spans(hits, lo as int, hi as int, lo2, hi2);
            lemma_mix(a, lo as int, hi as int, v, sim, t);
        }
        lemma_mix_fits(a, lo as int, hi as int, v, sim);
    }
    lemma_ranks_merged(sem, hits, sims, u, f, score, k, out);
}

proof fn lemma_mix_fits(alpha: int, lo: int, hi: int, v: int, sim: int)
    requires
        0 <= alpha <= 0x100_0000,
        v == 0 || lo <= v <= hi,
        i32::MIN <= sim <= i32::MAX,
    ensures
        i64::MIN <= lexical_part(alpha, lo, hi, v) + (bm25::ONE - alpha) * sim <= i64::MAX,
{
    let w = bm25::ONE - alpha;
    assert(-0x80_0000_0000_0000 <= w * sim <= 0x80_0000_0000_0000) by (nonlinear_arith)
        requires
            0 <= w <= 0x100_0000,
            -0x8000_0000 <= sim <= 0x8000_0000,
    ;
    if v != 0 {
        let s = if hi - lo > 1 {
            hi - lo
        } else {
            1
        };
        let x = v - lo;
        let top = alpha * x * bm25::ONE;
        assert(0 <= top <= 0x1_0000_0000_0000 * s) by (nonlinear_arith)
            requires
                top == alpha * x * 0x100_0000,
                0 <= alpha <= 0x100_0000,
                0 <= x <= s,
        ;
        assert(0 <= top / s <= 0x1_0000_0000_0000) by (nonlinear_arith)
            requires
                0 <= top <= 0x1_0000_0000_0000 * s,
                s >= 1,
        ;
    }
}

/// The range of the lexical scores of a union is that of the lexical hits.
proof fn lemma_range_of_hits(
    sem: Seq<HybridHit>,
    hits: Seq<SearchHit>,
    sims: Seq<i32>,
    lo: u64,
    hi: u64,
)
    requires
        sem.len() + hits.len() < usize::MAX,
        docs_of(sem).no_duplicates(),
        found_docs(hits).no_duplicates(),
        forall|i: int| 0 <= i < sem.len() ==> (#[trigger] sem[i]).bm25 == 0,
        is_range(merged(sem, hits, sims, hits.len() as int).rows, lo, hi),
    ensures
        lexical_span(hits, lo as int, hi as int),
{
    let u = merged(sem, hits, sims, hits.len() as int);
    let rows = u.rows;
    law_union_carries_both_sides(sem, hits, sims);
    if forall|i: int| 0 <= i < rows.len() ==> (#[trigger] rows[i]).bm25 == 0 {
        assert forall|r: int| 0 <= r < hits.len() implies (#[trigger] hits[r]).score == 0 by {
            let x = lemma_row_of_hit(sem, hits, sims, u, r);
            assert(rows[x].bm25 == 0);
        }
    } else {
        let y = choose|y: int| 0 <= y < rows.len() && (#[trigger] rows[y]).bm25 != 0;
        let a = choose|a: int| 0 <= a < rows.len() && (#[trigger] rows[a]).bm25 == lo;
        let b = choose|b: int| 0 <= b < rows.len() && (#[trigger] rows[b]).bm25 == hi;
        assert(lo <= rows[y].bm25 <= hi);
        let c = lemma_hit_of_row(sem, hits, sims, u, a);
        let d = lemma_hit_of_row(sem, hits, sims, u, b);
        assert(hits[c].score == lo && hits[d].score == hi);
        assert forall|r: int| 0 <= r < hits.len() && (#[trigger] hits[r]).score > 0 implies lo
            <= hits[r].score <= hi by {
            let x = lemma_row_of_hit(sem, hits, sims, u, r);
            assert(rows[x].bm25 > 0);
        }
    }
}

/// The row of a lexical hit.
proof fn lemma_row_of_hit(
    sem: Seq<HybridHit>,
    hits: Seq<SearchHit>,
    sims: Seq<i32>,
    u: Union,
    r: int,
) -> (x: int)
    requires
        unites(sem, hits, sims, u),
        found_docs(hits).no_duplicates(),
        0 <= r < hits.len(),
    ensures
        0 <= x < u.rows.len(),
        u.rows[x].bm25 == hits[r].score,
{
    let docs = docs_of(u.rows);
    assert(docs.contains(hits[r].doc_id));
    let x = choose|x: int| 0 <= x < docs.len() && docs[x] == hits[r].doc_id;
    assert(carried(sem, hits, sims, u, x));
    let (q, p) = choose|q: int, p: int| #[trigger] carries(sem, hits, sims, u, x, q, p);
    if q >= 0 {
        assert(found_docs(hits)[q] == found_docs(hits)[r]);
    } else {
        assert(hits[r].doc_id != u.rows[x].doc_id);
    }
    x
}

/// The lexical hit of a row that has a lexical score.
proof fn lemma_hit_of_row(
    sem: Seq<HybridHit>,
    hits: Seq<SearchHit>,
    sims: Seq<i32>,
    u: Union,
    x: int,
) -> (r: int)
    requires
        unites(sem, hits, sims, u),
        0 <= x < u.rows.len(),
        u.rows[x].bm25 > 0,
        forall|i: int| 0 <= i < sem.len() ==> (#[trigger] sem[i]).bm25 == 0,
    ensures
        0 <= r < hits.len(),
        hits[r].score == u.rows[x].bm25,
{
    assert(carried(sem, hits, sims, u, x));
    let (r, p) = choose|r: int, p: int| #[trigger] carries(sem, hits, sims, u, x, r, p);
    if r < 0 {
        assert(sem[p].bm25 == 0);
    }
    r
}

/// The hit is of one of the documents, with its similarity.
pub open spec fn is_similar(docs: Seq<u32>, sims: Seq<i32>, h: HybridHit) -> bool {
    exists|x: int| 0 <= x < docs.len() && docs[x] == h.doc_id && #[trigger] sims[x] == h.semantic
}

/// `out` are the `k` most similar documents, the most similar first, with
/// their similarity for a score and without a lexical one.
pub open spec fn most_similar(
    docs: Seq<u32>,
    sims: Seq<i32>,
    k: int,
    out: Seq<HybridHit>,
) -> bool {
    &&& out.len() <= k
    &&& forall|i: int, j: int|
        0 <= i < j < out.len() ==> (#[trigger] out[i]).semantic > (#[trigger] out[j]).semantic || (
        out[i].semantic == out[j].semantic && out[i].doc_id < out[j].doc_id)
    &&& forall|i: int|
        0 <= i < out.len() ==> (#[trigger] out[i]).score == out[i].semantic * 0x100_0000
            && out[i].bm25 == 0
    &&& forall|i: int| 0 <= i < out.len() ==> is_similar(docs, sims, #[trigger] out[i])
    &&& forall|x: int|
        0 <= x < docs.len() && !docs_of(out).contains(#[trigger] docs[x]) ==> out.len() == k
            && forall|i: int|
            0 <= i < out.len() ==> (#[trigger] out[i]).semantic > sims[x] || (out[i].semantic
                == sims[x] && out[i].doc_id < docs[x])
}

/// The most similar of different documents: they come in order of their
/// similarity, which is their score, and a document that is left out is
/// outranked by `k` others.
pub proof fn law_most_similar(docs: Seq<u32>, sims: Seq<i32>, k: int, out: Seq<HybridHit>)
    requires
        k >= 0,
        docs.len() == sims.len() <= usize::MAX,
        docs.no_duplicates(),
        best_rows(similar_rows(docs, sims), k, out),
    ensures
        most_similar(docs, sims, k, out),
{
    let rows = similar_rows(docs, sims);
    assert(docs_of(rows) =~= docs);
    law_best_rows(rows, k, out);
    assert forall|i: int| 0 <= i < out.len() implies is_similar(docs, sims, #[trigger] out[i])
        && out[i].score == out[i].semantic * 0x100_0000 && out[i].bm25 == 0 by {
        assert(rows.contains(out[i]));
        let x = choose|x: int| 0 <= x < rows.len() && rows[x] == out[i];
        assert(sims[x] == out[i].semantic);
    }
    assert forall|i: int, j: int| 0 <= i < j < out.len() implies (#[trigger] out[i]).semantic > (
    #[trigger] out[j]).semantic || (out[i].semantic == out[j].semantic && out[i].doc_id
        < out[j].doc_id) by {
        assert(leads(out[i], out[j]));
    }
    assert forall|x: int|
        0 <= x < docs.len() && !docs_of(out).contains(#[trigger] docs[x]) implies out.len() == k
        && forall|i: int|
        0 <= i < out.len() ==> (#[trigger] out[i]).semantic > sims[x] || (out[i].semantic == sims[x]
            && out[i].doc_id < docs[x]) by {
        assert(rows[x].doc_id == docs[x]);
        if out.contains(rows[x]) {
            let i = choose|i: int| 0 <= i < out.len() && out[i] == rows[x];
            assert(docs_of(out)[i] == docs[x]);
        }
        assert forall|i: int| 0 <= i < out.len() implies (#[trigger] out[i]).semantic > sims[x] || (
        out[i].semantic == sims[x] && out[i].doc_id < docs[x]) by {
            assert(leads(out[i], rows[x]));
        }
    }
}

/// Hits that are reranked keep their lexical score, show their own similarity,
/// and come in order of their fused score; what is left out is outranked by
/// `k` others.
pub proof fn law_reranking_keeps_the_hits(
    f: Fusion,
    hits: Seq<SearchHit>,
    sims: Seq<i32>,
    k: int,
    out: Seq<HybridHit>,
)
    requires
        k >= 0,
        hits.len() == sims.len() <= usize::MAX,
        found_docs(hits).no_duplicates(),
        is_reranking(f, rows_of(hits, sims), k, out),
    ensures
        out.len() == if hits.len() < k {
            hits.len() as int
        } else {
            k
        },
        forall|i: int, j: int| 0 <= i < j < out.len() ==> leads(#[trigger] out[i], #[trigger] out[j]),
        forall|i: int|
            0 <= i < out.len() ==> exists|r: int|
                0 <= r < hits.len() && (#[trigger] hits[r]).doc_id == (#[trigger] out[i]).doc_id
                    && hits[r].score == out[i].bm25 && sims[r] == out[i].semantic,
{
    let rows = rows_of(hits, sims);
    let (br, sr) = choose|br: Seq<usize>, sr: Seq<usize>| #[trigger]
        is_fusion(f, rows, br, sr, k, out);
    let (lo, hi, scored) = choose|lo: u64, hi: u64, scored: Seq<HybridHit>|
        #![trigger is_range(rows, lo, hi), best_rows(scored, k, out)]
        is_range(rows, lo, hi) && best_rows(scored, k, out) && scored.len() == rows.len()
            && forall|i: int|
            0 <= i < rows.len() ==> #[trigger] scored[i] == (HybridHit {
                score: fused(
                    f,
                    lo as int,
                    hi as int,
                    rows[i],
                    br[i] as int,
                    sr[i] as int,
                ) as i64,
                ..rows[i]
            });
    assert(docs_of(scored) =~= found_docs(hits)) by {
        assert forall|i: int| 0 <= i < rows.len() implies docs_of(scored)[i] == found_docs(
            hits,
        )[i] by {
            assert(scored[i].doc_id == rows[i].doc_id);
        }
    }
    law_best_rows(scored, k, out);
    lemma_best_len(scored, k, out);
    assert forall|i: int| 0 <= i < out.len() implies exists|r: int|
        0 <= r < hits.len() && (#[trigger] hits[r]).doc_id == (#[trigger] out[i]).doc_id
            && hits[r].score == out[i].bm25 && sims[r] == out[i].semantic by {
        assert(scored.contains(out[i]));
        let x = choose|x: int| 0 <= x < scored.len() && scored[x] == out[i];
        assert(hits[x].doc_id == rows[x].doc_id);
    }
}

/// Rows of the hits by themselves are the union of the hits with nothing.
proof fn lemma_alone(hits: Seq<SearchHit>, sims: Seq<i32>, j: int)
    requires
        0 <= j <= hits.len() < usize::MAX,
        found_docs(hits).no_duplicates(),
    ensures
        merged(Seq::empty(), hits, sims, j).rows == rows_of(hits, sims).take(j),
    decreases j,
{
    let none = Seq::<HybridHit>::empty();
    let all = rows_of(hits, sims);
    if j == 0 {
        assert(entered(none, 0).rows =~= all.take(0));
    } else {
        lemma_alone(hits, sims, j - 1);
        let v = merged(none, hits, sims, j - 1);
        let docs = docs_of(v.rows);
        let d = hits[j - 1].doc_id;
        if docs.contains(d) {
            let q = choose|q: int| 0 <= q < docs.len() && docs[q] == d;
            assert(v.rows[q] == all[q]);
            assert(found_docs(hits)[q] == found_docs(hits)[j - 1]);
        }
        assert(merged(none, hits, sims, j).rows =~= all.take(j));
    }
}

/// Reranked by weight, hits are ranked by the mix of their scores.
pub proof fn law_weighted_reranking(
    hits: Seq<SearchHit>,
    sims: Seq<i32>,
    alpha: u32,
    k: int,
    out: Seq<HybridHit>,
)
    requires
        k >= 0,
        alpha <= 0x100_0000,
        hits.len() == sims.len() < usize::MAX,
        found_docs(hits).no_duplicates(),
        is_reranking(Fusion::Weighted { alpha }, rows_of(hits, sims), k, out),
    ensures
        ({
            let none = Seq::<HybridHit>::empty();
            ranks_merged(none, hits, sims, weighted_score(none, hits, sims, alpha as int), k, out)
        }),
{
    let none = Seq::<HybridHit>::empty();
    let f = Fusion::Weighted { alpha };
    let rows = rows_of(hits, sims);
    let u = merged(none, hits, sims, hits.len() as int);
    lemma_alone(hits, sims, hits.len() as int);
    assert(rows.take(hits.len() as int) =~= rows);
    assert(docs_of(none) =~= Seq::<u32>::empty());
    let (br, sr) = choose|br: Seq<usize>, sr: Seq<usize>| #[trigger]
        is_fusion(f, rows, br, sr, k, out);
    let (lo, hi, scored) = choose|lo: u64, hi: u64, scored: Seq<HybridHit>|
        #![trigger is_range(rows, lo, hi), best_rows(scored, k, out)]
        is_range(rows, lo, hi) && best_rows(scored, k, out) && scored.len() == rows.len()
            && forall|i: int|
            0 <= i < rows.len() ==> #[trigger] scored[i] == (HybridHit {
                score: fused(
                    f,
                    lo as int,
                    hi as int,
                    rows[i],
                    br[i] as int,
                    sr[i] as int,
                ) as i64,
                ..rows[i]
            });
    assert(is_fusion(f, u.rows, u.bm25_rank, u.sem_rank, k, out)) by {
        assert(is_range(u.rows, lo, hi) && best_rows(scored, k, out));
        assert forall|i: int| 0 <= i < rows.len() implies #[trigger] scored[i] == (HybridHit {
            score: fused(
                f,
                lo as int,
                hi as int,
                u.rows[i],
                u.bm25_rank[i] as int,
                u.sem_rank[i] as int,
            ) as i64,
            ..u.rows[i]
        }) by {}
    }
    law_weighted_fusion(none, hits, sims, alpha, k, out);
}

/// Reranked by rank, hits in the order of a search are ranked as if they were
/// merged with the ranking of the same documents by similarity.
pub proof fn law_rank_reranking(
    hits: Seq<SearchHit>,
    sims: Seq<i32>,
    c: u64,
    k: int,
    out: Seq<HybridHit>,
)
    requires
        k >= 0,
        hits.len() == sims.len(),
        2 * hits.len() < usize::MAX,
        found_docs(hits).no_duplicates(),
        forall|i: int| 0 <= i < hits.len() ==> (#[trigger] hits[i]).score > 0,
        forall|i: int, j: int|
            0 <= i < j < hits.len() ==> (#[trigger] hits[i]).score > (#[trigger] hits[j]).score || (
            hits[i].score == hits[j].score && hits[i].doc_id < hits[j].doc_id),
        is_reranking(Fusion::Rrf { k: c }, rows_of(hits, sims), k, out),
    ensures
        exists|sem: Seq<HybridHit>| #[trigger]
            best_rows(similar_rows(found_docs(hits), sims), hits.len() as int, sem) && ranks_merged(
                sem,
                hits,
                sims,
                rrf_score(c as int),
                k,
                out,
            ),
{
    let f = Fusion::Rrf { k: c };
    let n = hits.len() as int;
    let rows = rows_of(hits, sims);
    let docs = docs_of(rows);
    assert(docs =~= found_docs(hits));
    let (br, sr) = choose|br: Seq<usize>, sr: Seq<usize>| #[trigger]
        is_fusion(f, rows, br, sr, k, out) && (f is Rrf ==> is_ranking(
            bm25_of(rows),
            docs_of(rows),
            found_lexically(rows),
            br,
        ) && is_ranking(semantic_of(rows), docs_of(rows), every_row(rows), sr));
    let lex_less = rank_less(bm25_of(rows), docs);
    let lex = choose|order: Seq<usize>| #[trigger]
        order::sorted_indices(order, n, lex_less) && forall|p: int|
            0 <= p < order.len() ==> br[#[trigger] order[p] as int] == if found_lexically(
                rows,
            )[order[p] as int] {
                p + 1
            } else {
                0
            };
    let sem_less = rank_less(semantic_of(rows), docs);
    let by_sim = choose|order: Seq<usize>| #[trigger]
        order::sorted_indices(order, n, sem_less) && forall|p: int|
            0 <= p < order.len() ==> sr[#[trigger] order[p] as int] == if every_row(
                rows,
            )[order[p] as int] {
                p + 1
            } else {
                0
            };
    // The hits stand in their lexical order.
    let same = Seq::new(n as nat, |i: int| i as usize);
    assert(order::sorted_indices(same, n, lex_less)) by {
        assert forall|v: usize| 0 <= v < n implies #[trigger] same.contains(v) by {
            assert(same[v as int] == v);
        }
        assert forall|i: int, j: int| 0 <= i < j < same.len() implies lex_less(
            #[trigger] same[i] as int,
            #[trigger] same[j] as int,
        ) by {
            assert(hits[i].score > hits[j].score || (hits[i].score == hits[j].score
                && hits[i].doc_id < hits[j].doc_id));
        }
    }
    order::lemma_sorted_unique(lex, same, n, lex_less);
    // The ranking by similarity.
    let similar = similar_rows(docs, sims);
    let sem = order::arranged(similar, by_sim);
    assert(docs_of(similar) =~= docs);
    let score_less = rank_less(scores_of(similar), docs);
    assert(order::sorted_indices(by_sim, n, score_less)) by {
        assert forall|i: int, j: int| 0 <= i < j < by_sim.len() implies score_less(
            #[trigger] by_sim[i] as int,
            #[trigger] by_sim[j] as int,
        ) by {
            assert(sem_less(by_sim[i] as int, by_sim[j] as int));
        }
    }
    assert(sem.take(n) =~= sem);
    assert(best_rows(similar, n, sem));
    order::lemma_increasing_distinct(by_sim, n, sem_less);
    assert forall|i: int, j: int| 0 <= i < sem.len() && 0 <= j < sem.len() && i != j implies docs_of(
        sem,
    )[i] != docs_of(sem)[j] by {
        assert(by_sim[i] != by_sim[j]);
        assert(found_docs(hits)[by_sim[i] as int] != found_docs(hits)[by_sim[j] as int]);
    }
    let u = Union { rows, bm25_rank: br, sem_rank: sr };
    assert forall|x: int| 0 <= x < u.rows.len() implies #[trigger] carried(sem, hits, sims, u, x) by {
        assert(by_sim.contains(x as usize));
        let q = choose|q: int| 0 <= q < by_sim.len() && by_sim[q] == x as usize;
        assert(sr[by_sim[q] as int] == q + 1);
        assert(same[x] == x);
        assert(br[lex[x] as int] == x + 1);
        assert(sem[q] == similar[x]);
        assert(carries(sem, hits, sims, u, x, x, q));
    }
    assert forall|r: int| 0 <= r < hits.len() implies docs_of(u.rows).contains(
        (#[trigger] hits[r]).doc_id,
    ) by {
        assert(docs[r] == hits[r].doc_id);
    }
    assert forall|p: int| 0 <= p < sem.len() implies docs_of(u.rows).contains(
        (#[trigger] sem[p]).doc_id,
    ) by {
        assert(docs[by_sim[p] as int] == sem[p].doc_id);
    }
    lemma_rank_fusion(sem, hits, sims, u, c, k, out);
}

} // verus!
