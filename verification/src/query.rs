//! Ranked retrieval: lexical search, similarity, or both.

use crate::block_max_wand;
use crate::block_max_wand::{SearchHit, SearchStats};
use crate::bm25;
use crate::embeddings::EmbeddingStore;
use crate::hybrid;
use crate::hybrid::{Fusion, HybridHit};
use crate::indexer::{Index, SearchableIndex};
use crate::ivf;
use crate::ivf::IvfIndex;
use crate::pq::PqIndex;
use crate::searcher;
use crate::searcher::{AnyIndex, IndexKind};
use crate::segments;
use crate::segments::{SegmentHit, SegmentedIndex};
use crate::sums;
use crate::work;
use vstd::prelude::*;

verus! {

/// Whether documents are scored by their codes.
#[derive(Debug, Clone, Copy, PartialEq, Eq, Structural)]
pub enum PqMode {
    Auto,
    Off,
    /// By codes, however few documents there are.
    Force,
}

/// How rankings are fused.
#[derive(Debug, Clone, Copy, PartialEq, Eq, Structural)]
pub enum FusionArg {
    Weighted,
    Rrf,
}

/// How documents are found and ranked.
#[derive(Debug, Clone, Copy, PartialEq, Eq, Structural)]
pub enum RankMode {
    Bm25,
    /// By similarity over all vectors, with the lexical score as a helper.
    Hybrid,
    /// Lexically, and by similarity among what was found.
    Rerank,
    Semantic,
}

/// The knobs of a ranked query.
#[derive(Debug, Clone, Copy, PartialEq, Eq, Structural)]
pub struct SearchOpts {
    pub mode: RankMode,
    pub semantic_candidates: usize,
    pub fusion: FusionArg,
    /// Weight of the lexical score, in units of 1 / 2^24.
    pub alpha: i64,
    /// The constant of fusion by rank, in units of 1 / 2^24.
    pub rrf_k: i64,
    pub nprobe: usize,
    pub pq: PqMode,
}

/// Candidates that are kept before fusing.
pub const DEFAULT_CANDIDATES: usize = 200;

/// 0.15 in units of 1 / 2^24.
pub const DEFAULT_ALPHA: i64 = 2516582;

/// 60 in units of 1 / 2^24.
pub const DEFAULT_RRF_K: i64 = 1006632960;

/// Why a ranked query cannot be run.
#[derive(Debug, Clone, Copy, PartialEq, Eq, Structural)]
pub enum QueryError {
    /// The program was built without an encoder.
    NoEncoder,
    /// The index has no vectors.
    NoEmbeddings,
    /// The segments have no vectors.
    NoSegmentVectors,
}

impl Default for SearchOpts {
    fn default() -> (o: Self)
        ensures
            o == (SearchOpts {
                mode: RankMode::Hybrid,
                semantic_candidates: DEFAULT_CANDIDATES,
                fusion: FusionArg::Weighted,
                alpha: DEFAULT_ALPHA,
                rrf_k: DEFAULT_RRF_K,
                nprobe: 0,
                pq: PqMode::Auto,
            }),
    {
        SearchOpts {
            mode: RankMode::Hybrid,
            semantic_candidates: DEFAULT_CANDIDATES,
            fusion: FusionArg::Weighted,
            alpha: DEFAULT_ALPHA,
            rrf_k: DEFAULT_RRF_K,
            nprobe: 0,
            pq: PqMode::Auto,
        }
    }
}

/// The knobs that every searching command has.
#[derive(Debug, Clone, Copy, PartialEq, Eq, Structural)]
pub struct FusionArgs {
    pub semantic_candidates: usize,
    pub fusion: FusionArg,
    pub alpha: i64,
    pub rrf_k: i64,
    pub nprobe: usize,
    pub no_pq: bool,
}

impl FusionArgs {
    pub fn to_opts(&self, mode: RankMode) -> (o: SearchOpts)
        ensures
            o == (SearchOpts {
                mode,
                semantic_candidates: self.semantic_candidates,
                fusion: self.fusion,
                alpha: self.alpha,
                rrf_k: self.rrf_k,
                nprobe: self.nprobe,
                pq: if self.no_pq {
                    PqMode::Off
                } else {
                    PqMode::Auto
                },
            }),
    {
        SearchOpts {
            mode,
            semantic_candidates: self.semantic_candidates,
            fusion: self.fusion,
            alpha: self.alpha,
            rrf_k: self.rrf_k,
            nprobe: self.nprobe,
            pq: if self.no_pq { PqMode::Off } else { PqMode::Auto },
        }
    }
}

/// The codes to score by: only if that is forced, for it loses too much.
pub fn choose_pq<'a>(index: &'a AnyIndex, opts: &SearchOpts) -> (r: Option<&'a PqIndex>)
    ensures
        opts.pq == PqMode::Force ==> (r is Some == index.pq is Some),
        opts.pq != PqMode::Force ==> r is None,
        r matches Some(p) ==> index.pq == Some(*p),
{
    let pq = index.pq();
    match opts.pq {
        PqMode::Off => None,
        PqMode::Force => pq,
        PqMode::Auto => None,
    }
}

/// The fusion that the options ask for.
pub open spec fn fusion_spec(opts: SearchOpts) -> Fusion {
    match opts.fusion {
        FusionArg::Weighted => Fusion::Weighted {
            alpha: if opts.alpha < 0 {
                0
            } else if opts.alpha > bm25::ONE {
                bm25::ONE
            } else {
                opts.alpha as u32
            },
        },
        FusionArg::Rrf => Fusion::Rrf {
            k: if opts.rrf_k < 0 {
                0
            } else {
                opts.rrf_k as u64
            },
        },
    }
}

pub fn fusion_from(opts: &SearchOpts) -> (f: Fusion)
    ensures
        f == fusion_spec(*opts),
        f.wf(),
{
    match opts.fusion {
        FusionArg::Weighted => Fusion::weighted(opts.alpha),
        FusionArg::Rrf => Fusion::rrf(opts.rrf_k),
    }
}

/// Ranked queries need an encoder.
pub fn require_semantic(encoder: bool) -> (r: Result<(), QueryError>)
    ensures
        encoder ==> r is Ok,
        !encoder ==> r == Err::<(), QueryError>(QueryError::NoEncoder),
{
    if encoder {
        Ok(())
    } else {
        Err(QueryError::NoEncoder)
    }
}

/// One result, with the scores that it was ranked by.
pub struct RankedHit {
    pub id: String,
    pub title: String,
    pub score: i64,
    pub bm25: u64,
    pub semantic: i32,
}

/// The results of a ranked query.
pub struct RankedRun {
    pub results: Vec<RankedHit>,
    pub stats: SearchStats,
}

// ---------------------------------------------------------------------------
// One index
// ---------------------------------------------------------------------------

/// `f` gives every document a similarity.
pub open spec fn gives_sims<F: Fn(u32) -> i32>(f: F) -> bool {
    forall|d: u32| call_requires(f, (d,))
}

/// `sims` are the similarities that `f` gave `docs`.
pub open spec fn are_sims<F: Fn(u32) -> i32>(f: F, docs: Seq<u32>, sims: Seq<i32>) -> bool {
    &&& sims.len() == docs.len()
    &&& forall|i: int| 0 <= i < docs.len() ==> call_ensures(f, (docs[i],), #[trigger] sims[i])
}

fn sims_of<F: Fn(u32) -> i32>(f: &F, docs: &[u32]) -> (sims: Vec<i32>)
    requires
        gives_sims(*f),
    ensures
        are_sims(*f, docs@, sims@),
{
    let mut sims: Vec<i32> = Vec::new();
    let mut i: usize = 0;
    while i < docs.len()
        invariant
            gives_sims(*f),
            i <= docs@.len(),
            sims@.len() == i,
            forall|j: int| 0 <= j < i ==> call_ensures(*f, (docs@[j],), #[trigger] sims@[j]),
        decreases docs@.len() - i,
    {
        let s: i32 = f(docs[i]);
        sims.push(s);
        i += 1;
    }
    sims
}

/// The documents of lexical hits.
pub open spec fn hit_docs(hits: Seq<SearchHit>) -> Seq<u32> {
    hits.map_values(|h: SearchHit| h.doc_id)
}

fn docs_of_hits(hits: &Vec<SearchHit>) -> (docs: Vec<u32>)
    ensures
        docs@ == hit_docs(hits@),
{
    let mut docs: Vec<u32> = Vec::new();
    let mut i: usize = 0;
    while i < hits.len()
        invariant
            i <= hits@.len(),
            docs@ == hit_docs(hits@.take(i as int)),
        decreases hits@.len() - i,
    {
        docs.push(hits[i].doc_id);
        i += 1;
        assert(docs@ =~= hit_docs(hits@.take(i as int)));
    }
    assert(hits@.take(i as int) =~= hits@);
    docs
}

/// The documents that exist.
pub open spec fn existing(docs: Seq<u32>, n: int) -> Seq<u32>
    decreases docs.len(),
{
    if docs.len() == 0 {
        Seq::empty()
    } else {
        let front = existing(docs.drop_last(), n);
        if docs.last() < n {
            front.push(docs.last())
        } else {
            front
        }
    }
}

fn keep_existing(docs: &Vec<u32>, n: usize) -> (out: Vec<u32>)
    ensures
        out@ == existing(docs@, n as int),
        out@.len() <= docs@.len(),
        forall|i: int| 0 <= i < out@.len() ==> (#[trigger] out@[i]) < n,
{
    let mut out: Vec<u32> = Vec::new();
    let mut i: usize = 0;
    assert(docs@.take(0) =~= Seq::<u32>::empty());
    while i < docs.len()
        invariant
            i <= docs@.len(),
            out@.len() <= i,
            out@ == existing(docs@.take(i as int), n as int),
            forall|j: int| 0 <= j < out@.len() ==> (#[trigger] out@[j]) < n,
        decreases docs@.len() - i,
    {
        assert(docs@.take(i + 1).drop_last() =~= docs@.take(i as int));
        let d: u32 = docs[i];
        if (d as u64) < n as u64 {
            out.push(d);
        }
        i += 1;
    }
    assert(docs@.take(i as int) =~= docs@);
    out
}

/// The inverted file can be opened with these keys.
pub open spec fn usable(ivf: Option<IvfIndex>, keys: Seq<u32>) -> bool {
    ivf matches Some(x) ==> x.consistent() && x.num_clusters >= 1 && keys.len() == x.num_clusters
}

/// The documents whose similarity is computed.
pub open spec fn is_pool(
    ivf: Option<IvfIndex>,
    keys: Seq<u32>,
    nprobe: int,
    num_docs: int,
    docs: Seq<u32>,
) -> bool {
    match ivf {
        Some(x) => exists|clusters: Seq<u32>, all: Seq<u32>|
            #![trigger x.gathers(clusters, all), existing(all, num_docs)]
            ivf::nearest(
                keys,
                x.opened(
                    if nprobe == 0 {
                        x.auto_nprobe_spec()
                    } else {
                        nprobe
                    },
                ),
                clusters,
            ) && x.gathers(clusters, all) && docs == existing(all, num_docs),
        None => docs == Seq::new(num_docs as nat, |i: int| i as u32),
    }
}

fn pool_of(ivf: Option<&IvfIndex>, keys: &[u32], nprobe: usize, n: usize) -> (docs: Vec<u32>)
    requires
        n <= u32::MAX,
        ivf matches Some(x) ==> usable(Some(*x), keys@),
    ensures
        is_pool(file_of(ivf), keys@, nprobe as int, n as int, docs@),
        forall|i: int| 0 <= i < docs@.len() ==> (#[trigger] docs@[i]) < n,
{
    let docs = hybrid::pool_docs(ivf, keys, nprobe, n as u32);
    match ivf {
        Some(x) => keep_existing(&docs, n),
        None => docs,
    }
}

/// The results are the hits, with id and title.
pub open spec fn shows_ranked(
    index: Index,
    hits: Seq<HybridHit>,
    results: Seq<RankedHit>,
) -> bool {
    &&& results.len() == hits.len()
    &&& forall|i: int|
        0 <= i < hits.len() ==> {
            let r = #[trigger] results[i];
            let doc = index.docs@[hits[i].doc_id as int];
            &&& r.id@ == doc.external_id@
            &&& r.title@ == doc.title@
            &&& r.score == hits[i].score
            &&& r.bm25 == hits[i].bm25
            &&& r.semantic == hits[i].semantic
        }
}

/// The exact lexical top `k`.
pub open spec fn lexical(index: Index, texts: Seq<Seq<char>>, k: int, hits: Seq<SearchHit>) -> bool {
    block_max_wand::is_top_k(
        hits,
        block_max_wand::query_models(&index, texts),
        index.lens(),
        block_max_wand::dead_of(&index),
        k as nat,
    )
}

/// `hits` are fused from the lexical hits `found`, with the similarities
/// `found_sims`, and from `sem`, the most similar of the candidates `docs`.
pub open spec fn fuses_single<F: Fn(u32) -> i32, G: Fn(u32) -> i32>(
    index: Index,
    ivf: Option<IvfIndex>,
    texts: Seq<Seq<char>>,
    top_k: int,
    opts: SearchOpts,
    keys: Seq<u32>,
    sim: F,
    pool_sim: G,
    found: Seq<SearchHit>,
    found_sims: Seq<i32>,
    docs: Seq<u32>,
    sims: Seq<i32>,
    sem: Seq<HybridHit>,
    hits: Seq<HybridHit>,
) -> bool {
    let pool = hybrid::most(opts.semantic_candidates as int, top_k);
    &&& lexical(index, texts, pool, found)
    &&& are_sims(sim, hit_docs(found), found_sims)
    &&& is_pool(ivf, keys, opts.nprobe as int, index.docs@.len() as int, docs)
    &&& are_sims(pool_sim, docs, sims)
    &&& if top_k == 0 {
        hits.len() == 0
    } else {
        let u = hybrid::merged(sem, found, found_sims, found.len() as int);
        &&& hybrid::best_rows(hybrid::similar_rows(docs, sims), pool, sem)
        &&& hybrid::is_fusion(
            fusion_spec(opts),
            u.rows,
            u.bm25_rank,
            u.sem_rank,
            top_k,
            hits,
        )
    }
}

/// What a ranked query over one index finds, by mode. `sim` gives the
/// similarity of lexical hits, and `pool_sim` that of candidates.
pub open spec fn ranks<F: Fn(u32) -> i32, G: Fn(u32) -> i32>(
    index: Index,
    ivf: Option<IvfIndex>,
    texts: Seq<Seq<char>>,
    top_k: int,
    opts: SearchOpts,
    keys: Seq<u32>,
    sim: F,
    pool_sim: G,
    hits: Seq<HybridHit>,
) -> bool {
    let n = index.docs@.len() as int;
    let pool = hybrid::most(opts.semantic_candidates as int, top_k);
    let fusion = fusion_spec(opts);
    match opts.mode {
        RankMode::Bm25 => false,
        RankMode::Hybrid => exists|
            found: Seq<SearchHit>,
            found_sims: Seq<i32>,
            docs: Seq<u32>,
            sims: Seq<i32>,
            sem: Seq<HybridHit>,
        | #[trigger]
            fuses_single(
                index,
                ivf,
                texts,
                top_k,
                opts,
                keys,
                sim,
                pool_sim,
                found,
                found_sims,
                docs,
                sims,
                sem,
                hits,
            ),
        RankMode::Rerank => exists|found: Seq<SearchHit>, found_sims: Seq<i32>|
            #![trigger are_sims(sim, hit_docs(found), found_sims)]
            {
                &&& lexical(index, texts, pool, found)
                &&& are_sims(sim, hit_docs(found), found_sims)
                &&& if found.len() == 0 || top_k == 0 {
                    hits.len() == 0
                } else {
                    hybrid::is_reranking(
                        fusion,
                        hybrid::rows_of(found, found_sims),
                        top_k,
                        hits,
                    )
                }
            },
        RankMode::Semantic => exists|docs: Seq<u32>, sims: Seq<i32>|
            #![trigger are_sims(pool_sim, docs, sims)]
            {
                &&& is_pool(ivf, keys, opts.nprobe as int, n, docs)
                &&& are_sims(pool_sim, docs, sims)
                &&& hybrid::best_rows(
                    hybrid::similar_rows(docs, sims),
                    hybrid::most(top_k, 1),
                    hits,
                )
            },
    }
}

fn present(index: &Index, hits: &Vec<HybridHit>) -> (results: Vec<RankedHit>)
    requires
        index.wf(),
        hybrid::rows_below(hits@, index.docs@.len() as int),
    ensures
        shows_ranked(*index, hits@, results@),
{
    let mut results: Vec<RankedHit> = Vec::new();
    let n: usize = hits.len();
    let mut i: usize = 0;
    while i < n
        invariant
            index.wf(),
            hybrid::rows_below(hits@, index.docs@.len() as int),
            i <= n == hits@.len(),
            results@.len() == i,
            forall|j: int|
                0 <= j < i ==> {
                    let r = #[trigger] results@[j];
                    let doc = index.docs@[hits@[j].doc_id as int];
                    &&& r.id@ == doc.external_id@
                    &&& r.title@ == doc.title@
                    &&& r.score == hits@[j].score
                    &&& r.bm25 == hits@[j].bm25
                    &&& r.semantic == hits@[j].semantic
                },
        decreases n - i,
    {
        let h: HybridHit = hits[i];
        assert(hits@[i as int] == h);
        let s = index.doc_summary(h.doc_id);
        results.push(
            RankedHit {
                id: s.id,
                title: s.title,
                score: h.score,
                bm25: h.bm25,
                semantic: h.semantic,
            },
        );
        i += 1;
    }
    results
}

/// The inverted file referred to, if any.
pub open spec fn file_of(ivf: Option<&IvfIndex>) -> Option<IvfIndex> {
    match ivf {
        Some(x) => Some(*x),
        None => None,
    }
}

/// The counters of a query that did no lexical search.
pub open spec fn only_total(n: nat) -> SearchStats {
    SearchStats {
        num_docs_total: n as usize,
        num_query_terms: 0,
        num_postings_visited: 0,
        num_docs_scored: 0,
        num_blocks_visited: 0,
        num_blocks_skipped: 0,
    }
}

/// The counters of a ranked query: those of the lexical search for its pool of
/// candidates. A semantic query does no lexical search.
pub open spec fn counts_query(
    stats: SearchStats,
    index: Index,
    texts: Seq<Seq<char>>,
    top_k: int,
    opts: SearchOpts,
) -> bool {
    let n = index.docs@.len();
    if opts.mode == RankMode::Semantic {
        stats == only_total(n)
    } else {
        let pool = hybrid::most(opts.semantic_candidates as int, top_k);
        &&& stats.num_docs_total == n
        &&& stats.num_query_terms == searcher::distinct(texts).len()
        &&& work::counts(stats, searcher::search_work(&index, texts, pool as nat))
    }
}

/// What a ranked query over one index finds.
fn find_ranked<F: Fn(u32) -> i32, G: Fn(u32) -> i32>(
    index: &Index,
    ivf: Option<&IvfIndex>,
    tokens: &[String],
    top_k: usize,
    opts: &SearchOpts,
    keys: &[u32],
    sim: &F,
    pool_sim: &G,
) -> (r: (Vec<HybridHit>, SearchStats))
    requires
        index.wf(),
        opts.mode != RankMode::Bm25,
        ivf matches Some(x) ==> usable(Some(*x), keys@),
        gives_sims(*sim),
        gives_sims(*pool_sim),
    ensures
        ranks(
            *index,
            file_of(ivf),
            block_max_wand::texts(tokens@),
            top_k as int,
            *opts,
            keys@,
            *sim,
            *pool_sim,
            r.0@,
        ),
        hybrid::rows_below(r.0@, index.docs@.len() as int),
        counts_query(r.1, *index, block_max_wand::texts(tokens@), top_k as int, *opts),
{
    let n: usize = index.docs.len();
    let fusion = fusion_from(opts);
    let pool: usize = if opts.semantic_candidates > top_k {
        opts.semantic_candidates
    } else {
        top_k
    };
    let ghost texts = block_max_wand::texts(tokens@);
    let ghost file = file_of(ivf);
    match opts.mode {
        RankMode::Hybrid => {
            let (found, stats) = searcher::search_hits(index, tokens, pool);
            let found_docs = docs_of_hits(&found);
            let found_sims = sims_of(sim, found_docs.as_slice());
            let docs = pool_of(ivf, keys, opts.nprobe, n);
            let sims = sims_of(pool_sim, docs.as_slice());
            let hits = hybrid::merge_retrieve_ivf(
                found.as_slice(),
                found_sims.as_slice(),
                docs.as_slice(),
                sims.as_slice(),
                fusion,
                top_k,
                pool,
            );
            proof {
                lemma_found_below(*index, texts, pool as int, found@);
                assert(lexical(*index, texts, pool as int, found@));
                let p = hybrid::most(pool as int, top_k as int);
                assert(p == pool);
                if top_k > 0 {
                    let sem = choose|sem: Seq<HybridHit>| #[trigger]
                        hybrid::best_rows(hybrid::similar_rows(docs@, sims@), p, sem) && {
                            let u = hybrid::merged(sem, found@, found_sims@, found@.len() as int);
                            hybrid::is_fusion(
                                fusion,
                                u.rows,
                                u.bm25_rank,
                                u.sem_rank,
                                top_k as int,
                                hits@,
                            )
                        };
                    let u = hybrid::merged(sem, found@, found_sims@, found@.len() as int);
                    lemma_similar_below(docs@, sims@, n as int);
                    hybrid::lemma_best_len(hybrid::similar_rows(docs@, sims@), p, sem);
                    assert(hybrid::rows_below(sem, n as int)) by {
                        assert forall|i: int| 0 <= i < sem.len() implies (#[trigger] sem[i]).doc_id
                            < n by {
                            let rows = hybrid::similar_rows(docs@, sims@);
                            assert(rows.contains(sem[i]));
                            let j = choose|j: int| 0 <= j < rows.len() && rows[j] == sem[i];
                            assert(rows[j].doc_id < n);
                        }
                    }
                    hybrid::lemma_merged_docs(
                        sem,
                        found@,
                        found_sims@,
                        found@.len() as int,
                        n as int,
                    );
                    hybrid::lemma_fusion_docs(
                        fusion,
                        u.rows,
                        u.bm25_rank,
                        u.sem_rank,
                        top_k as int,
                        hits@,
                        n as int,
                    );
                    assert(fuses_single(
                        *index,
                        file,
                        texts,
                        top_k as int,
                        *opts,
                        keys@,
                        *sim,
                        *pool_sim,
                        found@,
                        found_sims@,
                        docs@,
                        sims@,
                        sem,
                        hits@,
                    ));
                    assert(ranks(
                        *index,
                        file,
                        texts,
                        top_k as int,
                        *opts,
                        keys@,
                        *sim,
                        *pool_sim,
                        hits@,
                    ));
                } else {
                    let sem = Seq::<HybridHit>::empty();
                    assert(fuses_single(
                        *index,
                        file,
                        texts,
                        top_k as int,
                        *opts,
                        keys@,
                        *sim,
                        *pool_sim,
                        found@,
                        found_sims@,
                        docs@,
                        sims@,
                        sem,
                        hits@,
                    ));
                    assert(ranks(
                        *index,
                        file,
                        texts,
                        top_k as int,
                        *opts,
                        keys@,
                        *sim,
                        *pool_sim,
                        hits@,
                    ));
                }
            }
            (hits, stats)
        },
        RankMode::Rerank => {
            let (found, stats) = searcher::search_hits(index, tokens, pool);
            let found_docs = docs_of_hits(&found);
            let found_sims = sims_of(sim, found_docs.as_slice());
            let hits = hybrid::rerank(found.as_slice(), found_sims.as_slice(), fusion, top_k);
            proof {
                lemma_found_below(*index, texts, pool as int, found@);
                assert(are_sims(*sim, hit_docs(found@), found_sims@));
                if found@.len() > 0 && top_k > 0 {
                    let rows = hybrid::rows_of(found@, found_sims@);
                    assert(hybrid::rows_below(rows, n as int)) by {
                        assert forall|i: int| 0 <= i < rows.len() implies (
                        #[trigger] rows[i]).doc_id < n by {
                            assert(found@[i].doc_id < n);
                        }
                    }
                    let (br, sr) = choose|br: Seq<usize>, sr: Seq<usize>| #[trigger]
                        hybrid::is_fusion(fusion, rows, br, sr, top_k as int, hits@) && (
                        fusion is Rrf ==> hybrid::is_ranking(
                            hybrid::bm25_of(rows),
                            hybrid::docs_of(rows),
                            hybrid::found_lexically(rows),
                            br,
                        ) && hybrid::is_ranking(
                            hybrid::semantic_of(rows),
                            hybrid::docs_of(rows),
                            hybrid::every_row(rows),
                            sr,
                        ));
                    hybrid::lemma_fusion_docs(
                        fusion,
                        rows,
                        br,
                        sr,
                        top_k as int,
                        hits@,
                        n as int,
                    );
                }
                assert(ranks(
                    *index,
                    file,
                    texts,
                    top_k as int,
                    *opts,
                    keys@,
                    *sim,
                    *pool_sim,
                    hits@,
                ));
            }
            (hits, stats)
        },
        _ => {
            let docs = pool_of(ivf, keys, opts.nprobe, n);
            let sims = sims_of(pool_sim, docs.as_slice());
            let hits = hybrid::semantic_pool(docs.as_slice(), sims.as_slice(), top_k);
            proof {
                lemma_similar_below(docs@, sims@, n as int);
                let rows = hybrid::similar_rows(docs@, sims@);
                hybrid::lemma_best_len(rows, hybrid::most(top_k as int, 1), hits@);
                assert(hybrid::rows_below(hits@, n as int)) by {
                    assert forall|i: int| 0 <= i < hits@.len() implies (#[trigger] hits@[i]).doc_id
                        < n by {
                        assert(rows.contains(hits@[i]));
                        let j = choose|j: int| 0 <= j < rows.len() && rows[j] == hits@[i];
                        assert(rows[j].doc_id < n);
                    }
                }
                assert(are_sims(*pool_sim, docs@, sims@));
                assert(ranks(
                    *index,
                    file,
                    texts,
                    top_k as int,
                    *opts,
                    keys@,
                    *sim,
                    *pool_sim,
                    hits@,
                ));
            }
            let mut stats = SearchStats::default();
            stats.num_docs_total = n;
            (hits, stats)
        },
    }
}

/// The results of a ranked query over one index.
pub open spec fn ranked_run<F: Fn(u32) -> i32, G: Fn(u32) -> i32>(
    index: Index,
    ivf: Option<IvfIndex>,
    texts: Seq<Seq<char>>,
    top_k: int,
    opts: SearchOpts,
    keys: Seq<u32>,
    sim: F,
    pool_sim: G,
    results: Seq<RankedHit>,
) -> bool {
    exists|hits: Seq<HybridHit>| #[trigger]
        shows_ranked(index, hits, results) && ranks(
            index,
            ivf,
            texts,
            top_k,
            opts,
            keys,
            sim,
            pool_sim,
            hits,
        )
}

/// A ranked query over one index.
fn run_ranked_single<F: Fn(u32) -> i32, G: Fn(u32) -> i32>(
    index: &Index,
    ivf: Option<&IvfIndex>,
    tokens: &[String],
    top_k: usize,
    opts: &SearchOpts,
    keys: &[u32],
    sim: &F,
    pool_sim: &G,
) -> (run: RankedRun)
    requires
        index.wf(),
        opts.mode != RankMode::Bm25,
        ivf matches Some(x) ==> usable(Some(*x), keys@),
        gives_sims(*sim),
        gives_sims(*pool_sim),
    ensures
        ranked_run(
            *index,
            file_of(ivf),
            block_max_wand::texts(tokens@),
            top_k as int,
            *opts,
            keys@,
            *sim,
            *pool_sim,
            run.results@,
        ),
        counts_query(run.stats, *index, block_max_wand::texts(tokens@), top_k as int, *opts),
{
    let (hits, stats) = find_ranked(index, ivf, tokens, top_k, opts, keys, sim, pool_sim);
    let results = present(index, &hits);
    let run = RankedRun { results, stats };
    assert(shows_ranked(*index, hits@, run.results@));
    run
}

/// Lexical hits exist.
proof fn lemma_found_below(
    index: Index,
    texts: Seq<Seq<char>>,
    k: int,
    found: Seq<SearchHit>,
)
    requires
        index.wf(),
        lexical(index, texts, k, found),
    ensures
        forall|i: int| 0 <= i < found.len() ==> (#[trigger] found[i]).doc_id < index.docs@.len(),
{
    assert forall|i: int| 0 <= i < found.len() implies (#[trigger] found[i]).doc_id
        < index.docs@.len() by {
        searcher::lemma_found_exists(
            &index,
            texts,
            block_max_wand::firsts(texts),
            found[i].doc_id,
        );
    }
}

proof fn lemma_similar_below(docs: Seq<u32>, sims: Seq<i32>, n: int)
    requires
        forall|i: int| 0 <= i < docs.len() ==> (#[trigger] docs[i]) < n,
    ensures
        hybrid::rows_below(hybrid::similar_rows(docs, sims), n),
{
    let rows = hybrid::similar_rows(docs, sims);
    assert forall|i: int| 0 <= i < rows.len() implies (#[trigger] rows[i]).doc_id < n by {
        assert(docs[i] < n);
    }
}

// ---------------------------------------------------------------------------
// Segments
// ---------------------------------------------------------------------------

/// How many documents each segment has, tombstoned ones among them.
pub open spec fn docs_fn(segs: Seq<segments::Segment>) -> spec_fn(int) -> nat {
    |i: int| segs[i].index.docs@.len()
}

/// The number of the first document of segment `s`, all documents counted
/// through.
pub open spec fn base(segs: Seq<segments::Segment>, s: int) -> nat {
    sums::total(docs_fn(segs), s as nat)
}

/// Document `d` of segment `s` has number `g`.
pub open spec fn numbered(segs: Seq<segments::Segment>, g: int, s: int, d: int) -> bool {
    &&& 0 <= s < segs.len()
    &&& 0 <= d < segs[s].index.docs@.len()
    &&& g == base(segs, s) + d
}

/// The numbers of documents of segments.
pub open spec fn numbers(segs: Seq<segments::Segment>, pairs: Seq<(usize, u32)>) -> Seq<u32> {
    pairs.map_values(|p: (usize, u32)| (base(segs, p.0 as int) + p.1) as u32)
}

/// The live documents of segment `s` below `d`.
pub open spec fn live_below(segs: Seq<segments::Segment>, s: int, d: int) -> Seq<(usize, u32)>
    decreases d,
{
    if d <= 0 {
        Seq::empty()
    } else {
        let front = live_below(segs, s, d - 1);
        if segments::bit(segs[s].deleted@, d - 1) {
            front
        } else {
            front.push((s as usize, (d - 1) as u32))
        }
    }
}

/// The live documents of the segments below `s` that have vectors.
pub open spec fn with_vectors(segs: Seq<segments::Segment>, has: Seq<bool>, s: int) -> Seq<
    (usize, u32),
>
    decreases s,
{
    if s <= 0 {
        Seq::empty()
    } else {
        let front = with_vectors(segs, has, s - 1);
        if has[s - 1] {
            front + live_below(segs, s - 1, segs[s - 1].index.docs@.len() as int)
        } else {
            front
        }
    }
}

/// `sims` are the similarities that `f` gave documents of segments.
pub open spec fn are_pair_sims<F: Fn(usize, u32) -> i32>(
    f: F,
    pairs: Seq<(usize, u32)>,
    sims: Seq<i32>,
) -> bool {
    &&& sims.len() == pairs.len()
    &&& forall|i: int|
        0 <= i < pairs.len() ==> call_ensures(f, (pairs[i].0, pairs[i].1), #[trigger] sims[i])
}

fn pair_sims_of<F: Fn(usize, u32) -> i32>(f: &F, pairs: &Vec<(usize, u32)>) -> (sims: Vec<i32>)
    requires
        forall|s: usize, d: u32| call_requires(*f, (s, d)),
    ensures
        are_pair_sims(*f, pairs@, sims@),
{
    let mut sims: Vec<i32> = Vec::new();
    let mut i: usize = 0;
    while i < pairs.len()
        invariant
            forall|s: usize, d: u32| call_requires(*f, (s, d)),
            i <= pairs@.len(),
            sims@.len() == i,
            forall|j: int|
                0 <= j < i ==> call_ensures(*f, (pairs@[j].0, pairs@[j].1), #[trigger] sims@[j]),
        decreases pairs@.len() - i,
    {
        let p: (usize, u32) = pairs[i];
        let x: i32 = f(p.0, p.1);
        sims.push(x);
        i += 1;
    }
    sims
}

/// The documents of hits in segments.
pub open spec fn hit_pairs(hits: Seq<SegmentHit>) -> Seq<(usize, u32)> {
    hits.map_values(|h: SegmentHit| (h.segment, h.doc_id))
}

/// Hits in segments, with the numbers of their documents.
pub open spec fn numbered_hits(segs: Seq<segments::Segment>, hits: Seq<SegmentHit>) -> Seq<
    SearchHit,
> {
    hits.map_values(
        |h: SegmentHit|
            SearchHit {
                doc_id: (base(segs, h.segment as int) + h.doc_id) as u32,
                score: h.score,
            },
    )
}

/// The results are the hits, with id and title.
pub open spec fn shows_numbered(
    segs: Seq<segments::Segment>,
    hits: Seq<HybridHit>,
    results: Seq<RankedHit>,
) -> bool {
    &&& results.len() == hits.len()
    &&& forall|i: int|
        0 <= i < hits.len() ==> shows_hit(segs, #[trigger] hits[i], results[i])
}

/// The result is the hit, with id and title.
pub open spec fn shows_hit(segs: Seq<segments::Segment>, h: HybridHit, r: RankedHit) -> bool {
    exists|s: int, d: int| #[trigger]
        numbered(segs, h.doc_id as int, s, d) && {
            &&& r.id@ == segs[s].index.docs@[d].external_id@
            &&& r.title@ == segs[s].index.docs@[d].title@
            &&& r.score == h.score
            &&& r.bm25 == h.bm25
            &&& r.semantic == h.semantic
        }
}

/// What a ranked query over segments finds, by mode. `has` says which
/// segments have vectors.
pub open spec fn ranks_segmented<F: Fn(usize, u32) -> i32>(
    segs: Seq<segments::Segment>,
    has: Seq<bool>,
    texts: Seq<Seq<char>>,
    top_k: int,
    opts: SearchOpts,
    sim: F,
    hits: Seq<HybridHit>,
) -> bool {
    let all = with_vectors(segs, has, segs.len() as int);
    if opts.mode == RankMode::Semantic {
        exists|sims: Seq<i32>, sem: Seq<HybridHit>|
            #![trigger are_pair_sims(sim, all, sims), hybrid::best_rows(hybrid::similar_rows(numbers(segs, all), sims), hybrid::most(top_k, 1), sem)]
            {
                &&& are_pair_sims(sim, all, sims)
                &&& hybrid::best_rows(
                    hybrid::similar_rows(numbers(segs, all), sims),
                    hybrid::most(top_k, 1),
                    sem,
                )
                &&& hits == sem.take(hybrid::least(top_k, sem.len() as int))
            }
    } else {
        exists|found: Seq<SegmentHit>, found_sims: Seq<i32>, sem: Seq<HybridHit>| #[trigger]
            fuses_segmented(segs, has, texts, top_k, opts, sim, found, found_sims, sem, hits)
    }
}

/// `hits` are fused from the lexical hits `found`, with the similarities
/// `found_sims`, and from the most similar documents `sem`.
pub open spec fn fuses_segmented<F: Fn(usize, u32) -> i32>(
    segs: Seq<segments::Segment>,
    has: Seq<bool>,
    texts: Seq<Seq<char>>,
    top_k: int,
    opts: SearchOpts,
    sim: F,
    found: Seq<SegmentHit>,
    found_sims: Seq<i32>,
    sem: Seq<HybridHit>,
    hits: Seq<HybridHit>,
) -> bool {
    let pool = hybrid::most(opts.semantic_candidates as int, top_k);
    let all = with_vectors(segs, has, segs.len() as int);
    let u = hybrid::merged(sem, numbered_hits(segs, found), found_sims, found.len() as int);
    &&& segments::is_global_top_k(found, segs, searcher::distinct(texts), pool as nat)
    &&& are_pair_sims(sim, hit_pairs(found), found_sims)
    &&& if opts.mode == RankMode::Rerank {
        sem.len() == 0
    } else {
        is_segment_pool(segs, all, sim, pool, sem)
    }
    &&& if top_k == 0 {
        hits.len() == 0
    } else {
        hybrid::is_fusion(fusion_spec(opts), u.rows, u.bm25_rank, u.sem_rank, top_k, hits)
    }
}

/// `sem` are the most similar of the documents with vectors.
pub open spec fn is_segment_pool<F: Fn(usize, u32) -> i32>(
    segs: Seq<segments::Segment>,
    all: Seq<(usize, u32)>,
    sim: F,
    pool: int,
    sem: Seq<HybridHit>,
) -> bool {
    exists|sims: Seq<i32>| #[trigger]
        are_pair_sims(sim, all, sims) && hybrid::best_rows(
            hybrid::similar_rows(numbers(segs, all), sims),
            hybrid::most(pool, 1),
            sem,
        )
}

/// Pairs are documents of segments.
spec fn pairs_exist(segs: Seq<segments::Segment>, pairs: Seq<(usize, u32)>) -> bool {
    forall|i: int|
        0 <= i < pairs.len() ==> (#[trigger] pairs[i]).0 < segs.len() && pairs[i].1
            < segs[pairs[i].0 as int].index.docs@.len()
}

proof fn lemma_base_step(segs: Seq<segments::Segment>, s: int)
    requires
        0 <= s < segs.len(),
    ensures
        base(segs, s + 1) == base(segs, s) + segs[s].index.docs@.len(),
        base(segs, s + 1) <= base(segs, segs.len() as int),
{
    sums::lemma_total_monotone(docs_fn(segs), (s + 1) as nat, segs.len());
}

/// Where each segment begins, and the number of documents.
fn bases_of(index: &SegmentedIndex) -> (bases: Vec<u32>)
    requires
        base(index.segments@, index.segments@.len() as int) <= u32::MAX,
    ensures
        bases@.len() == index.segments@.len() + 1,
        forall|s: int|
            0 <= s < bases@.len() ==> #[trigger] bases@[s] == base(index.segments@, s),
{
    let ghost segs = index.segments@;
    let n: usize = index.segments.len();
    let mut bases: Vec<u32> = Vec::new();
    bases.push(0);
    let mut at: u32 = 0;
    let mut s: usize = 0;
    while s < n
        invariant
            segs == index.segments@,
            base(segs, segs.len() as int) <= u32::MAX,
            s <= n == segs.len(),
            at == base(segs, s as int),
            bases@.len() == s + 1,
            forall|x: int| 0 <= x < bases@.len() ==> #[trigger] bases@[x] == base(segs, x),
        decreases n - s,
    {
        proof {
            lemma_base_step(segs, s as int);
        }
        at = at + index.segments[s].index.docs.len() as u32;
        bases.push(at);
        s += 1;
    }
    bases
}

/// The live documents of the segments that have vectors.
fn candidates(index: &SegmentedIndex, has: &Vec<bool>) -> (pairs: Vec<(usize, u32)>)
    requires
        index.wf(),
        has@.len() == index.segments@.len(),
    ensures
        pairs@ == with_vectors(index.segments@, has@, index.segments@.len() as int),
        pairs_exist(index.segments@, pairs@),
{
    let ghost segs = index.segments@;
    let n: usize = index.segments.len();
    let mut pairs: Vec<(usize, u32)> = Vec::new();
    let mut s: usize = 0;
    while s < n
        invariant
            index.wf(),
            segs == index.segments@,
            has@.len() == segs.len(),
            s <= n == segs.len(),
            pairs@ == with_vectors(segs, has@, s as int),
            pairs_exist(segs, pairs@),
        decreases n - s,
    {
        if has[s] {
            assert(segs[s as int].wf(index.title_weight as nat));
            let ghost front = pairs@;
            let m: u32 = index.segments[s].index.docs.len() as u32;
            let mut d: u32 = 0;
            assert(pairs@ =~= front + live_below(segs, s as int, 0));
            while d < m
                invariant
                    segs == index.segments@,
                    s < segs.len(),
                    m == segs[s as int].index.docs@.len(),
                    d <= m,
                    pairs@ == front + live_below(segs, s as int, d as int),
                    pairs_exist(segs, pairs@),
                decreases m - d,
            {
                let ghost before = pairs@;
                if index.is_live(s, d) {
                    pairs.push((s, d));
                }
                d += 1;
                assert(pairs@ =~= front + live_below(segs, s as int, d as int));
            }
        }
        s += 1;
    }
    pairs
}

fn number_pairs(index: &SegmentedIndex, bases: &Vec<u32>, pairs: &Vec<(usize, u32)>) -> (docs: Vec<
    u32,
>)
    requires
        base(index.segments@, index.segments@.len() as int) <= u32::MAX,
        bases@.len() == index.segments@.len() + 1,
        forall|s: int|
            0 <= s < bases@.len() ==> #[trigger] bases@[s] == base(index.segments@, s),
        pairs_exist(index.segments@, pairs@),
    ensures
        docs@ == numbers(index.segments@, pairs@),
        forall|i: int|
            0 <= i < docs@.len() ==> (#[trigger] docs@[i]) < base(
                index.segments@,
                index.segments@.len() as int,
            ),
{
    let ghost segs = index.segments@;
    let mut docs: Vec<u32> = Vec::new();
    let mut i: usize = 0;
    while i < pairs.len()
        invariant
            segs == index.segments@,
            base(segs, segs.len() as int) <= u32::MAX,
            bases@.len() == segs.len() + 1,
            forall|s: int| 0 <= s < bases@.len() ==> #[trigger] bases@[s] == base(segs, s),
            pairs_exist(segs, pairs@),
            i <= pairs@.len(),
            docs@ == numbers(segs, pairs@.take(i as int)),
            forall|j: int| 0 <= j < docs@.len() ==> (#[trigger] docs@[j]) < base(
                segs,
                segs.len() as int,
            ),
        decreases pairs@.len() - i,
    {
        let p: (usize, u32) = pairs[i];
        proof {
            assert(pairs@[i as int] == p);
            lemma_base_step(segs, p.0 as int);
        }
        docs.push(bases[p.0] + p.1);
        i += 1;
        assert(docs@ =~= numbers(segs, pairs@.take(i as int)));
    }
    assert(pairs@.take(i as int) =~= pairs@);
    docs
}

/// The segment and the document with number `g`.
fn locate(index: &SegmentedIndex, bases: &Vec<u32>, g: u32) -> (r: (usize, u32))
    requires
        bases@.len() == index.segments@.len() + 1,
        forall|s: int|
            0 <= s < bases@.len() ==> #[trigger] bases@[s] == base(index.segments@, s),
        g < base(index.segments@, index.segments@.len() as int),
    ensures
        numbered(index.segments@, g as int, r.0 as int, r.1 as int),
{
    let ghost segs = index.segments@;
    let n: usize = index.segments.len();
    assert(base(segs, 0) == 0);
    let mut s: usize = 0;
    while bases[s + 1] <= g
        invariant
            segs == index.segments@,
            n == segs.len(),
            bases@.len() == n + 1,
            forall|x: int| 0 <= x < bases@.len() ==> #[trigger] bases@[x] == base(segs, x),
            g < base(segs, n as int),
            s < n,
            base(segs, s as int) <= g,
        decreases n - s,
    {
        assert(bases@[s + 1] == base(segs, s + 1));
        s += 1;
    }
    proof {
        assert(bases@[s + 1] == base(segs, s + 1));
        assert(bases@[s as int] == base(segs, s as int));
        lemma_base_step(segs, s as int);
    }
    (s, g - bases[s])
}

/// Hits in segments exist.
proof fn lemma_segment_hits(index: SegmentedIndex, terms: Seq<Seq<char>>, k: nat, hits: Seq<SegmentHit>)
    requires
        index.wf(),
        segments::is_global_top_k(hits, index.segments@, terms, k),
    ensures
        pairs_exist(index.segments@, hit_pairs(hits)),
{
    let segs = index.segments@;
    let pairs = hit_pairs(hits);
    assert forall|i: int| 0 <= i < pairs.len() implies (#[trigger] pairs[i]).0 < segs.len()
        && pairs[i].1 < segs[pairs[i].0 as int].index.docs@.len() by {
        let h = hits[i];
        assert(segments::segment_match(segs, terms, h.segment as int, h.doc_id));
        assert(segs[h.segment as int].wf(index.title_weight as nat));
        searcher::lemma_segment_docs(
            segs[h.segment as int],
            segments::query_weights(segs, terms),
            segments::global_avg(segs) as u32,
            terms,
            block_max_wand::firsts(terms),
            h.doc_id,
        );
    }
}

/// What a ranked query over segments finds.
fn find_segmented<F: Fn(usize, u32) -> i32>(
    index: &SegmentedIndex,
    has: &Vec<bool>,
    bases: &Vec<u32>,
    tokens: &[String],
    top_k: usize,
    opts: &SearchOpts,
    sim: &F,
) -> (hits: Vec<HybridHit>)
    requires
        index.wf(),
        has@.len() == index.segments@.len(),
        base(index.segments@, index.segments@.len() as int) <= u32::MAX,
        bases@.len() == index.segments@.len() + 1,
        forall|s: int|
            0 <= s < bases@.len() ==> #[trigger] bases@[s] == base(index.segments@, s),
        forall|s: usize, d: u32| call_requires(*sim, (s, d)),
    ensures
        ranks_segmented(
            index.segments@,
            has@,
            block_max_wand::texts(tokens@),
            top_k as int,
            *opts,
            *sim,
            hits@,
        ),
        hybrid::rows_below(hits@, base(index.segments@, index.segments@.len() as int) as int),
{
    let ghost segs = index.segments@;
    let ghost total = base(segs, segs.len() as int) as int;
    let ghost texts = block_max_wand::texts(tokens@);
    let fusion = fusion_from(opts);
    let pool: usize = if opts.semantic_candidates > top_k {
        opts.semantic_candidates
    } else {
        top_k
    };
    if opts.mode == RankMode::Semantic {
        let pairs = candidates(index, has);
        let docs = number_pairs(index, bases, &pairs);
        let sims = pair_sims_of(sim, &pairs);
        let sem = hybrid::semantic_pool(docs.as_slice(), sims.as_slice(), top_k);
        let ghost all = sem@;
        let mut hits = sem;
        if hits.len() > top_k {
            hits.truncate(top_k);
        }
        proof {
            assert(hits@ =~= all.take(hybrid::least(top_k as int, all.len() as int)));
            assert(are_pair_sims(*sim, pairs@, sims@));
            let rows = hybrid::similar_rows(docs@, sims@);
            lemma_similar_below(docs@, sims@, total);
            hybrid::lemma_best_len(rows, hybrid::most(top_k as int, 1), all);
            assert forall|i: int| 0 <= i < hits@.len() implies (#[trigger] hits@[i]).doc_id
                < total by {
                assert(rows.contains(all[i]));
                let j = choose|j: int| 0 <= j < rows.len() && rows[j] == all[i];
                assert(rows[j].doc_id < total);
            }
        }
        return hits;
    }
    let terms = searcher::query_terms(tokens);
    let (found, _stats) = index.search_core(&terms, pool);
    let mut pairs: Vec<(usize, u32)> = Vec::new();
    let mut i: usize = 0;
    while i < found.len()
        invariant
            i <= found@.len(),
            pairs@ == hit_pairs(found@.take(i as int)),
        decreases found@.len() - i,
    {
        pairs.push((found[i].segment, found[i].doc_id));
        i += 1;
        assert(pairs@ =~= hit_pairs(found@.take(i as int)));
    }
    proof {
        assert(found@.take(i as int) =~= found@);
        lemma_segment_hits(*index, searcher::distinct(texts), pool as nat, found@);
    }
    let found_sims = pair_sims_of(sim, &pairs);
    let found_docs = number_pairs(index, bases, &pairs);
    let mut numbered_found: Vec<SearchHit> = Vec::new();
    let mut j: usize = 0;
    while j < found.len()
        invariant
            j <= found@.len(),
            found_docs@ == numbers(segs, hit_pairs(found@)),
            numbered_found@ == numbered_hits(segs, found@.take(j as int)),
        decreases found@.len() - j,
    {
        numbered_found.push(SearchHit { doc_id: found_docs[j], score: found[j].score });
        j += 1;
        assert(numbered_found@ =~= numbered_hits(segs, found@.take(j as int)));
    }
    assert(found@.take(j as int) =~= found@);
    let sem: Vec<HybridHit> = if opts.mode == RankMode::Rerank {
        Vec::new()
    } else {
        let all = candidates(index, has);
        let docs = number_pairs(index, bases, &all);
        let sims = pair_sims_of(sim, &all);
        let sem = hybrid::semantic_pool(docs.as_slice(), sims.as_slice(), pool);
        proof {
            assert(are_pair_sims(*sim, all@, sims@));
            let rows = hybrid::similar_rows(docs@, sims@);
            lemma_similar_below(docs@, sims@, total);
            hybrid::lemma_best_len(rows, hybrid::most(pool as int, 1), sem@);
            assert forall|i: int| 0 <= i < sem@.len() implies (#[trigger] sem@[i]).doc_id
                < total by {
                assert(rows.contains(sem@[i]));
                let x = choose|x: int| 0 <= x < rows.len() && rows[x] == sem@[i];
                assert(rows[x].doc_id < total);
            }
            assert(is_segment_pool(segs, all@, *sim, pool as int, sem@));
        }
        sem
    };
    let hits = hybrid::merge_retrieve(
        numbered_found.as_slice(),
        found_sims.as_slice(),
        &sem,
        fusion,
        top_k,
    );
    proof {
        let n = found@.len() as int;
        let u = hybrid::merged(sem@, numbered_hits(segs, found@), found_sims@, n);
        assert(are_pair_sims(*sim, hit_pairs(found@), found_sims@));
        if top_k > 0 {
            assert forall|x: int| 0 <= x < numbered_found@.len() implies (
            #[trigger] numbered_found@[x]).doc_id < total by {
                assert(numbered_found@[x].doc_id == found_docs@[x]);
            }
            hybrid::lemma_merged_docs(sem@, numbered_found@, found_sims@, n, total);
            hybrid::lemma_fusion_docs(
                fusion,
                u.rows,
                u.bm25_rank,
                u.sem_rank,
                top_k as int,
                hits@,
                total,
            );
        }
        assert(fuses_segmented(
            segs,
            has@,
            texts,
            top_k as int,
            *opts,
            *sim,
            found@,
            found_sims@,
            sem@,
            hits@,
        ));
    }
    hits
}

/// The results of a ranked query over segments.
pub open spec fn segmented_run<F: Fn(usize, u32) -> i32>(
    segs: Seq<segments::Segment>,
    has: Seq<bool>,
    texts: Seq<Seq<char>>,
    top_k: int,
    opts: SearchOpts,
    sim: F,
    results: Seq<RankedHit>,
) -> bool {
    exists|hits: Seq<HybridHit>| #[trigger]
        shows_numbered(segs, hits, results) && ranks_segmented(
            segs,
            has,
            texts,
            top_k,
            opts,
            sim,
            hits,
        )
}

/// A ranked query over segments.
fn run_ranked_segmented<F: Fn(usize, u32) -> i32>(
    index: &SegmentedIndex,
    has: &Vec<bool>,
    tokens: &[String],
    top_k: usize,
    opts: &SearchOpts,
    sim: &F,
) -> (run: RankedRun)
    requires
        index.wf(),
        has@.len() == index.segments@.len(),
        base(index.segments@, index.segments@.len() as int) <= u32::MAX,
        forall|s: usize, d: u32| call_requires(*sim, (s, d)),
    ensures
        segmented_run(
            index.segments@,
            has@,
            block_max_wand::texts(tokens@),
            top_k as int,
            *opts,
            *sim,
            run.results@,
        ),
        run.stats == only_total(segments::live_docs(index.segments@)),
{
    let bases = bases_of(index);
    let hits = find_segmented(index, has, &bases, tokens, top_k, opts, sim);
    let ghost segs = index.segments@;
    let mut results: Vec<RankedHit> = Vec::new();
    let n: usize = hits.len();
    let mut i: usize = 0;
    while i < n
        invariant
            index.wf(),
            segs == index.segments@,
            bases@.len() == segs.len() + 1,
            forall|s: int| 0 <= s < bases@.len() ==> #[trigger] bases@[s] == base(segs, s),
            hybrid::rows_below(hits@, base(segs, segs.len() as int) as int),
            i <= n == hits@.len(),
            results@.len() == i,
            forall|j: int| 0 <= j < i ==> shows_hit(segs, #[trigger] hits@[j], results@[j]),
        decreases n - i,
    {
        let h: HybridHit = hits[i];
        assert(hits@[i as int] == h);
        let (s, d) = locate(index, &bases, h.doc_id);
        let summary = index.doc_summary_in(s, d);
        let r = RankedHit {
            id: summary.id,
            title: summary.title,
            score: h.score,
            bm25: h.bm25,
            semantic: h.semantic,
        };
        assert(shows_hit(segs, h, r)) by {
            assert(numbered(segs, h.doc_id as int, s as int, d as int));
        }
        results.push(r);
        i += 1;
    }
    let mut stats = SearchStats::default();
    stats.num_docs_total = index.num_docs_live() as usize;
    let run = RankedRun { results, stats };
    assert(shows_numbered(segs, hits@, run.results@));
    run
}

/// Which segments have vectors.
pub open spec fn have_vectors(stores: hybrid::SegmentStores) -> Seq<bool> {
    stores.stores@.map_values(|s: Option<EmbeddingStore>| s is Some)
}

/// A ranked query over an index of either layout. `keys` are the similarities
/// of the clusters to the query; `sim` gives that of a document of a segment
/// (segment 0 if there is one index), and `pool_sim` that of a candidate.
pub fn run_ranked_with<F: Fn(usize, u32) -> i32, D: Fn(u32) -> i32, G: Fn(u32) -> i32>(
    index: &AnyIndex,
    tokens: &[String],
    top_k: usize,
    opts: &SearchOpts,
    keys: &[u32],
    segment_sim: &F,
    sim: &D,
    pool_sim: &G,
) -> (r: Result<RankedRun, QueryError>)
    requires
        index.kind.wf(),
        opts.mode != RankMode::Bm25,
        usable(index.ivf, keys@),
        gives_sims(*sim),
        gives_sims(*pool_sim),
        forall|s: usize, d: u32| call_requires(*segment_sim, (s, d)),
        index.kind matches IndexKind::Segmented(seg) ==> {
            &&& base(seg.segments@, seg.segments@.len() as int) <= u32::MAX
            &&& index.seg_stores matches Some(s) ==> s.stores@.len() == seg.segments@.len()
        },
    ensures
        match index.kind {
            IndexKind::Single(single) => match r {
                Ok(run) => index.embeddings is Some && ranked_run(
                    *single,
                    index.ivf,
                    block_max_wand::texts(tokens@),
                    top_k as int,
                    *opts,
                    keys@,
                    *sim,
                    *pool_sim,
                    run.results@,
                ) && counts_query(
                    run.stats,
                    *single,
                    block_max_wand::texts(tokens@),
                    top_k as int,
                    *opts,
                ),
                Err(e) => e == QueryError::NoEmbeddings && index.embeddings is None,
            },
            IndexKind::Segmented(seg) => match r {
                Ok(run) => index.seg_stores is Some && segmented_run(
                    seg.segments@,
                    have_vectors(index.seg_stores->Some_0),
                    block_max_wand::texts(tokens@),
                    top_k as int,
                    *opts,
                    *segment_sim,
                    run.results@,
                ) && run.stats == only_total(segments::live_docs(seg.segments@)),
                Err(e) => e == QueryError::NoSegmentVectors && index.seg_stores is None,
            },
        },
{
    match &index.kind {
        IndexKind::Single(single) => {
            if index.embeddings.is_none() {
                return Err(QueryError::NoEmbeddings);
            }
            let file = index.ivf();
            assert(file_of(file) == index.ivf);
            let run = run_ranked_single(
                &**single,
                file,
                tokens,
                top_k,
                opts,
                keys,
                sim,
                pool_sim,
            );
            Ok(run)
        },
        IndexKind::Segmented(seg) => {
            let stores = match &index.seg_stores {
                Some(s) => s,
                None => {
                    return Err(QueryError::NoSegmentVectors);
                },
            };
            let mut has: Vec<bool> = Vec::new();
            let n: usize = stores.stores.len();
            let mut i: usize = 0;
            while i < n
                invariant
                    i <= n == stores.stores@.len(),
                    has@.len() == i,
                    forall|j: int| 0 <= j < i ==> #[trigger] has@[j] == have_vectors(*stores)[j],
                decreases n - i,
            {
                has.push(stores.stores[i].is_some());
                i += 1;
            }
            assert(has@ =~= have_vectors(*stores));
            let run = run_ranked_segmented(seg, &has, tokens, top_k, opts, segment_sim);
            Ok(run)
        },
    }
}

// ---------------------------------------------------------------------------
// What ranked queries find
// ---------------------------------------------------------------------------

/// Document `d` of segment `s` exists and is not tombstoned.
pub open spec fn alive_at(segs: Seq<segments::Segment>, s: int, d: int) -> bool {
    &&& 0 <= s < segs.len()
    &&& 0 <= d < segs[s].index.docs@.len()
    &&& !segments::bit(segs[s].deleted@, d)
}

proof fn lemma_live_below(segs: Seq<segments::Segment>, s: int, n: int)
    requires
        0 <= s <= usize::MAX,
        0 <= n <= u32::MAX,
    ensures
        live_below(segs, s, n).no_duplicates(),
        forall|p: (usize, u32)| #[trigger]
            live_below(segs, s, n).contains(p) <==> p.0 == s && p.1 < n && !segments::bit(
                segs[s].deleted@,
                p.1 as int,
            ),
    decreases n,
{
    let all = live_below(segs, s, n);
    if n > 0 {
        lemma_live_below(segs, s, n - 1);
        let front = live_below(segs, s, n - 1);
        let last = (s as usize, (n - 1) as u32);
        assert(!front.contains(last));
        assert forall|p: (usize, u32)| #[trigger] all.contains(p) <==> p.0 == s && p.1 < n
            && !segments::bit(segs[s].deleted@, p.1 as int) by {
            if all.contains(p) {
                let i = choose|i: int| 0 <= i < all.len() && all[i] == p;
                if i < front.len() {
                    assert(front[i] == p);
                    assert(front.contains(p));
                }
            }
            if front.contains(p) {
                let i = choose|i: int| 0 <= i < front.len() && front[i] == p;
                assert(all[i] == p);
            }
            if p == last && !segments::bit(segs[s].deleted@, n - 1) {
                assert(all[front.len() as int] == p);
            }
        }
        assert forall|i: int, j: int|
            0 <= i < all.len() && 0 <= j < all.len() && i != j implies all[i] != all[j] by {
            if i == front.len() {
                assert(front.contains(front[j]));
            } else if j == front.len() {
                assert(front.contains(front[i]));
            }
        }
    }
}

proof fn lemma_with_vectors(segs: Seq<segments::Segment>, has: Seq<bool>, n: int)
    requires
        0 <= n <= segs.len() <= usize::MAX,
        has.len() == segs.len(),
        forall|s: int| 0 <= s < segs.len() ==> (#[trigger] segs[s]).index.docs@.len() <= u32::MAX,
    ensures
        with_vectors(segs, has, n).no_duplicates(),
        forall|p: (usize, u32)| #[trigger]
            with_vectors(segs, has, n).contains(p) <==> p.0 < n && has[p.0 as int] && alive_at(
                segs,
                p.0 as int,
                p.1 as int,
            ),
    decreases n,
{
    let all = with_vectors(segs, has, n);
    if n > 0 {
        lemma_with_vectors(segs, has, n - 1);
        let front = with_vectors(segs, has, n - 1);
        let len = segs[n - 1].index.docs@.len() as int;
        let back = live_below(segs, n - 1, len);
        if has[n - 1] {
            lemma_live_below(segs, n - 1, len);
            assert forall|p: (usize, u32)| #[trigger] all.contains(p) <==> front.contains(p)
                || back.contains(p) by {
                if all.contains(p) {
                    let i = choose|i: int| 0 <= i < all.len() && all[i] == p;
                    if i < front.len() {
                        assert(front[i] == p);
                    } else {
                        assert(back[i - front.len()] == p);
                    }
                }
                if front.contains(p) {
                    let i = choose|i: int| 0 <= i < front.len() && front[i] == p;
                    assert(all[i] == p);
                }
                if back.contains(p) {
                    let i = choose|i: int| 0 <= i < back.len() && back[i] == p;
                    assert(all[front.len() + i] == p);
                }
            }
            assert forall|i: int, j: int|
                0 <= i < all.len() && 0 <= j < all.len() && i != j implies all[i] != all[j] by {
                let m = front.len();
                if i < m && j < m {
                    assert(front[i] != front[j]);
                } else if i >= m && j >= m {
                    assert(back[i - m] != back[j - m]);
                } else if i < m {
                    assert(front.contains(front[i]) && back.contains(back[j - m]));
                } else {
                    assert(front.contains(front[j]) && back.contains(back[i - m]));
                }
            }
        }
    }
}

/// The candidates of a query over segments are the documents that are not
/// tombstoned, of the segments that have vectors: each of them once, and no
/// other.
pub proof fn law_candidates_are_the_living(
    segs: Seq<segments::Segment>,
    has: Seq<bool>,
    s: usize,
    d: u32,
)
    requires
        segs.len() <= usize::MAX,
        has.len() == segs.len(),
        forall|s: int| 0 <= s < segs.len() ==> (#[trigger] segs[s]).index.docs@.len() <= u32::MAX,
    ensures
        ({
            let all = with_vectors(segs, has, segs.len() as int);
            &&& all.no_duplicates()
            &&& all.contains((s, d)) <==> s < segs.len() && has[s as int] && d
                < segs[s as int].index.docs@.len() && !segments::bit(
                segs[s as int].deleted@,
                d as int,
            )
        }),
{
    lemma_with_vectors(segs, has, segs.len() as int);
}

/// Different documents of segments have different numbers.
proof fn lemma_numbered_once(
    segs: Seq<segments::Segment>,
    g: int,
    s: int,
    d: int,
    t: int,
    e: int,
)
    requires
        numbered(segs, g, s, d),
        numbered(segs, g, t, e),
    ensures
        s == t,
        d == e,
{
    if s < t {
        sums::lemma_total_monotone(docs_fn(segs), (s + 1) as nat, t as nat);
    } else if t < s {
        sums::lemma_total_monotone(docs_fn(segs), (t + 1) as nat, s as nat);
    }
}

proof fn lemma_number(segs: Seq<segments::Segment>, pairs: Seq<(usize, u32)>, i: int)
    requires
        base(segs, segs.len() as int) <= u32::MAX,
        0 <= i < pairs.len(),
        pairs[i].0 < segs.len(),
        pairs[i].1 < segs[pairs[i].0 as int].index.docs@.len(),
    ensures
        numbered(segs, numbers(segs, pairs)[i] as int, pairs[i].0 as int, pairs[i].1 as int),
{
    lemma_base_step(segs, pairs[i].0 as int);
}

proof fn lemma_numbers_differ(segs: Seq<segments::Segment>, pairs: Seq<(usize, u32)>)
    requires
        base(segs, segs.len() as int) <= u32::MAX,
        pairs.no_duplicates(),
        forall|i: int|
            0 <= i < pairs.len() ==> (#[trigger] pairs[i]).0 < segs.len() && pairs[i].1
                < segs[pairs[i].0 as int].index.docs@.len(),
    ensures
        numbers(segs, pairs).no_duplicates(),
{
    let all = numbers(segs, pairs);
    assert forall|i: int, j: int|
        0 <= i < all.len() && 0 <= j < all.len() && i != j implies all[i] != all[j] by {
        lemma_number(segs, pairs, i);
        lemma_number(segs, pairs, j);
        assert(pairs[i] != pairs[j]);
        if all[i] == all[j] {
            lemma_numbered_once(
                segs,
                all[i] as int,
                pairs[i].0 as int,
                pairs[i].1 as int,
                pairs[j].0 as int,
                pairs[j].1 as int,
            );
        }
    }
}

/// The result is of document `d` of segment `s`.
pub open spec fn result_of(segs: Seq<segments::Segment>, s: int, d: int, r: RankedHit) -> bool {
    &&& r.id@ == segs[s].index.docs@[d].external_id@
    &&& r.title@ == segs[s].index.docs@[d].title@
}

/// The result is of a document that is not tombstoned.
pub open spec fn is_alive(segs: Seq<segments::Segment>, r: RankedHit) -> bool {
    exists|s: int, d: int| #[trigger] alive_at(segs, s, d) && result_of(segs, s, d, r)
}

/// Number `g` is that of a document that is not tombstoned.
spec fn live_number(segs: Seq<segments::Segment>, g: u32) -> bool {
    exists|s: int, d: int| #[trigger] numbered(segs, g as int, s, d) && alive_at(segs, s, d)
}

spec fn live_rows(segs: Seq<segments::Segment>, rows: Seq<HybridHit>) -> bool {
    forall|i: int| 0 <= i < rows.len() ==> live_number(segs, (#[trigger] rows[i]).doc_id)
}

proof fn lemma_live_candidates(
    segs: Seq<segments::Segment>,
    has: Seq<bool>,
    sims: Seq<i32>,
    k: int,
    out: Seq<HybridHit>,
)
    requires
        k >= 0,
        segs.len() <= usize::MAX,
        has.len() == segs.len(),
        base(segs, segs.len() as int) <= u32::MAX,
        forall|s: int| 0 <= s < segs.len() ==> (#[trigger] segs[s]).index.docs@.len() <= u32::MAX,
        ({
            let all = with_vectors(segs, has, segs.len() as int);
            hybrid::best_rows(hybrid::similar_rows(numbers(segs, all), sims), k, out)
        }),
    ensures
        live_rows(segs, out),
{
    let all = with_vectors(segs, has, segs.len() as int);
    let rows = hybrid::similar_rows(numbers(segs, all), sims);
    lemma_with_vectors(segs, has, segs.len() as int);
    hybrid::lemma_best_len(rows, k, out);
    assert forall|i: int| 0 <= i < out.len() implies live_number(
        segs,
        (#[trigger] out[i]).doc_id,
    ) by {
        assert(rows.contains(out[i]));
        let x = choose|x: int| 0 <= x < rows.len() && rows[x] == out[i];
        assert(all.contains(all[x]));
        lemma_number(segs, all, x);
    }
}

proof fn lemma_live_entered(segs: Seq<segments::Segment>, sem: Seq<HybridHit>, j: int)
    requires
        0 <= j <= sem.len(),
        live_rows(segs, sem),
    ensures
        live_rows(segs, hybrid::entered(sem, j).rows),
    decreases j,
{
    if j > 0 {
        lemma_live_entered(segs, sem, j - 1);
        let u = hybrid::entered(sem, j - 1);
        assert(live_number(segs, sem[j - 1].doc_id));
        let docs = hybrid::docs_of(u.rows);
        if docs.contains(sem[j - 1].doc_id) {
            let at = docs.index_of(sem[j - 1].doc_id);
            assert(docs[at] == sem[j - 1].doc_id);
        }
    }
}

proof fn lemma_live_merged(
    segs: Seq<segments::Segment>,
    sem: Seq<HybridHit>,
    hits: Seq<SearchHit>,
    sims: Seq<i32>,
    j: int,
)
    requires
        0 <= j <= hits.len(),
        live_rows(segs, sem),
        forall|i: int| 0 <= i < hits.len() ==> live_number(segs, (#[trigger] hits[i]).doc_id),
    ensures
        live_rows(segs, hybrid::merged(sem, hits, sims, j).rows),
    decreases j,
{
    if j <= 0 {
        lemma_live_entered(segs, sem, sem.len() as int);
    } else {
        lemma_live_merged(segs, sem, hits, sims, j - 1);
        let u = hybrid::merged(sem, hits, sims, j - 1);
        assert(live_number(segs, hits[j - 1].doc_id));
        let docs = hybrid::docs_of(u.rows);
        if docs.contains(hits[j - 1].doc_id) {
            let at = docs.index_of(hits[j - 1].doc_id);
            assert(docs[at] == hits[j - 1].doc_id);
        }
    }
}

/// A ranked query over segments, in whatever mode, finds no tombstoned
/// document.
pub proof fn law_ranked_results_are_alive<F: Fn(usize, u32) -> i32>(
    index: SegmentedIndex,
    has: Seq<bool>,
    texts: Seq<Seq<char>>,
    top_k: int,
    opts: SearchOpts,
    sim: F,
    results: Seq<RankedHit>,
)
    requires
        index.wf(),
        top_k >= 0,
        has.len() == index.segments@.len(),
        base(index.segments@, index.segments@.len() as int) <= u32::MAX,
        segmented_run(index.segments@, has, texts, top_k, opts, sim, results),
    ensures
        forall|i: int| 0 <= i < results.len() ==> is_alive(index.segments@, #[trigger] results[i]),
{
    let segs = index.segments@;
    let n = segs.len() as int;
    let all = with_vectors(segs, has, n);
    let hits = choose|hits: Seq<HybridHit>| #[trigger]
        shows_numbered(segs, hits, results) && ranks_segmented(
            segs,
            has,
            texts,
            top_k,
            opts,
            sim,
            hits,
        );
    assert forall|s: int| 0 <= s < segs.len() implies (#[trigger] segs[s]).index.docs@.len()
        <= u32::MAX by {
        assert(segs[s].wf(index.title_weight as nat));
    }
    assert(live_rows(segs, hits)) by {
        if opts.mode == RankMode::Semantic {
            let (sims, sem) = choose|sims: Seq<i32>, sem: Seq<HybridHit>|
                #![trigger are_pair_sims(sim, all, sims), hybrid::best_rows(hybrid::similar_rows(numbers(segs, all), sims), hybrid::most(top_k, 1), sem)]
                {
                    &&& are_pair_sims(sim, all, sims)
                    &&& hybrid::best_rows(
                        hybrid::similar_rows(numbers(segs, all), sims),
                        hybrid::most(top_k, 1),
                        sem,
                    )
                    &&& hits == sem.take(hybrid::least(top_k, sem.len() as int))
                };
            lemma_live_candidates(segs, has, sims, hybrid::most(top_k, 1), sem);
            assert forall|i: int| 0 <= i < hits.len() implies live_number(
                segs,
                (#[trigger] hits[i]).doc_id,
            ) by {
                assert(hits[i] == sem[i]);
            }
        } else {
            let pool = hybrid::most(opts.semantic_candidates as int, top_k);
            let fusion = fusion_spec(opts);
            let (found, found_sims, sem) = choose|
                found: Seq<SegmentHit>,
                found_sims: Seq<i32>,
                sem: Seq<HybridHit>,
            | #[trigger]
                fuses_segmented(segs, has, texts, top_k, opts, sim, found, found_sims, sem, hits);
            let terms = searcher::distinct(texts);
            let listed = numbered_hits(segs, found);
            lemma_segment_hits(index, terms, pool as nat, found);
            assert forall|i: int| 0 <= i < listed.len() implies live_number(
                segs,
                (#[trigger] listed[i]).doc_id,
            ) by {
                let h = found[i];
                let pairs = hit_pairs(found);
                assert(pairs[i] == (h.segment, h.doc_id));
                lemma_number(segs, pairs, i);
                assert(segments::segment_match(segs, terms, h.segment as int, h.doc_id));
                assert(alive_at(segs, h.segment as int, h.doc_id as int));
            }
            if opts.mode != RankMode::Rerank {
                let sims = choose|sims: Seq<i32>| #[trigger]
                    are_pair_sims(sim, all, sims) && hybrid::best_rows(
                        hybrid::similar_rows(numbers(segs, all), sims),
                        hybrid::most(pool, 1),
                        sem,
                    );
                lemma_live_candidates(segs, has, sims, hybrid::most(pool, 1), sem);
            }
            lemma_live_merged(segs, sem, listed, found_sims, found.len() as int);
            let u = hybrid::merged(sem, listed, found_sims, found.len() as int);
            if top_k > 0 {
                assert forall|i: int| 0 <= i < hits.len() implies live_number(
                    segs,
                    (#[trigger] hits[i]).doc_id,
                ) by {
                    let x = hybrid::lemma_fused_from(
                        fusion,
                        u.rows,
                        u.bm25_rank,
                        u.sem_rank,
                        top_k,
                        hits,
                        i,
                    );
                    assert(live_number(segs, u.rows[x].doc_id));
                }
            }
        }
    }
    assert forall|i: int| 0 <= i < results.len() implies is_alive(segs, #[trigger] results[i]) by {
        let h = hits[i];
        assert(shows_hit(segs, h, results[i]));
        let (s, d) = choose|s: int, d: int| #[trigger]
            numbered(segs, h.doc_id as int, s, d) && {
                &&& results[i].id@ == segs[s].index.docs@[d].external_id@
                &&& results[i].title@ == segs[s].index.docs@[d].title@
                &&& results[i].score == h.score
                &&& results[i].bm25 == h.bm25
                &&& results[i].semantic == h.semantic
            };
        assert(live_number(segs, h.doc_id));
        let (t, e) = choose|t: int, e: int| #[trigger]
            numbered(segs, h.doc_id as int, t, e) && alive_at(segs, t, e);
        lemma_numbered_once(segs, h.doc_id as int, s, d, t, e);
        assert(alive_at(segs, s, d) && result_of(segs, s, d, results[i]));
    }
}

/// Document `d` of segment `s` has a vector and is not tombstoned, and `sim`
/// gave it the similarity `v`.
pub open spec fn rated<F: Fn(usize, u32) -> i32>(
    segs: Seq<segments::Segment>,
    has: Seq<bool>,
    sim: F,
    s: usize,
    d: u32,
    v: i32,
) -> bool {
    &&& alive_at(segs, s as int, d as int)
    &&& has[s as int]
    &&& call_ensures(sim, (s, d), v)
}

/// The result is of a document with that similarity.
pub open spec fn is_rated<F: Fn(usize, u32) -> i32>(
    segs: Seq<segments::Segment>,
    has: Seq<bool>,
    sim: F,
    r: RankedHit,
) -> bool {
    exists|s: usize, d: u32| #[trigger]
        rated(segs, has, sim, s, d, r.semantic) && result_of(segs, s as int, d as int, r)
}

/// Document `d` of segment `s` is among the results, or there are `top_k`
/// results at least as similar.
pub open spec fn found_or_beaten<F: Fn(usize, u32) -> i32>(
    segs: Seq<segments::Segment>,
    has: Seq<bool>,
    sim: F,
    top_k: int,
    results: Seq<RankedHit>,
    s: usize,
    d: u32,
) -> bool {
    ||| exists|i: int|
        0 <= i < results.len() && #[trigger] result_of(segs, s as int, d as int, results[i])
    ||| results.len() == top_k && exists|v: i32| #[trigger]
        rated(segs, has, sim, s, d, v) && forall|i: int|
            0 <= i < results.len() ==> (#[trigger] results[i]).semantic >= v
}

/// A semantic query over segments finds the most similar of the documents that
/// have vectors and are not tombstoned, the most similar first.
pub proof fn law_semantic_query_finds_the_nearest<F: Fn(usize, u32) -> i32>(
    index: SegmentedIndex,
    has: Seq<bool>,
    texts: Seq<Seq<char>>,
    top_k: int,
    opts: SearchOpts,
    sim: F,
    results: Seq<RankedHit>,
    s: usize,
    d: u32,
)
    requires
        index.wf(),
        top_k >= 0,
        opts.mode == RankMode::Semantic,
        has.len() == index.segments@.len(),
        base(index.segments@, index.segments@.len() as int) <= u32::MAX,
        segmented_run(index.segments@, has, texts, top_k, opts, sim, results),
    ensures
        results.len() <= top_k,
        forall|i: int, j: int|
            0 <= i < j < results.len() ==> (#[trigger] results[i]).semantic >= (
            #[trigger] results[j]).semantic,
        forall|i: int|
            0 <= i < results.len() ==> is_rated(index.segments@, has, sim, #[trigger] results[i]),
        alive_at(index.segments@, s as int, d as int) && has[s as int] ==> found_or_beaten(
            index.segments@,
            has,
            sim,
            top_k,
            results,
            s,
            d,
        ),
{
    let segs = index.segments@;
    let n = segs.len() as int;
    let all = with_vectors(segs, has, n);
    let hits = choose|hits: Seq<HybridHit>| #[trigger]
        shows_numbered(segs, hits, results) && ranks_segmented(
            segs,
            has,
            texts,
            top_k,
            opts,
            sim,
            hits,
        );
    assert forall|s: int| 0 <= s < segs.len() implies (#[trigger] segs[s]).index.docs@.len()
        <= u32::MAX by {
        assert(segs[s].wf(index.title_weight as nat));
    }
    let (sims, sem) = choose|sims: Seq<i32>, sem: Seq<HybridHit>|
        #![trigger are_pair_sims(sim, all, sims), hybrid::best_rows(hybrid::similar_rows(numbers(segs, all), sims), hybrid::most(top_k, 1), sem)]
        {
            &&& are_pair_sims(sim, all, sims)
            &&& hybrid::best_rows(
                hybrid::similar_rows(numbers(segs, all), sims),
                hybrid::most(top_k, 1),
                sem,
            )
            &&& hits == sem.take(hybrid::least(top_k, sem.len() as int))
        };
    let docs = numbers(segs, all);
    lemma_with_vectors(segs, has, n);
    assert forall|i: int| 0 <= i < all.len() implies (#[trigger] all[i]).0 < segs.len() && all[i].1
        < segs[all[i].0 as int].index.docs@.len() by {
        assert(all.contains(all[i]));
    }
    lemma_numbers_differ(segs, all);
    assert forall|i: int| 0 <= i < docs.len() implies (#[trigger] docs[i]) < base(segs, n) by {
        lemma_number(segs, all, i);
        lemma_base_step(segs, all[i].0 as int);
    }
    lemma_few_numbers(docs, base(segs, n) as int);
    hybrid::law_most_similar(docs, sims, hybrid::most(top_k, 1), sem);
    assert forall|i: int| 0 <= i < results.len() implies is_rated(
        segs,
        has,
        sim,
        #[trigger] results[i],
    ) && results[i].semantic == sem[i].semantic by {
        let h = hits[i];
        assert(h == sem[i]);
        assert(shows_hit(segs, h, results[i]));
        let (t, e) = choose|t: int, e: int| #[trigger]
            numbered(segs, h.doc_id as int, t, e) && {
                &&& results[i].id@ == segs[t].index.docs@[e].external_id@
                &&& results[i].title@ == segs[t].index.docs@[e].title@
                &&& results[i].score == h.score
                &&& results[i].bm25 == h.bm25
                &&& results[i].semantic == h.semantic
            };
        assert(hybrid::is_similar(docs, sims, sem[i]));
        let x = choose|x: int|
            0 <= x < docs.len() && docs[x] == h.doc_id && #[trigger] sims[x] == h.semantic;
        lemma_number(segs, all, x);
        lemma_numbered_once(segs, h.doc_id as int, t, e, all[x].0 as int, all[x].1 as int);
        assert(all.contains(all[x]));
        assert(rated(segs, has, sim, all[x].0, all[x].1, results[i].semantic));
    }
    assert forall|i: int, j: int| 0 <= i < j < results.len() implies (
    #[trigger] results[i]).semantic >= (#[trigger] results[j]).semantic by {
        assert(sem[i].semantic >= sem[j].semantic);
    }
    if alive_at(segs, s as int, d as int) && has[s as int] {
        assert(all.contains((s, d)));
        let x = choose|x: int| 0 <= x < all.len() && all[x] == (s, d);
        lemma_number(segs, all, x);
        let g = docs[x];
        if exists|i: int| 0 <= i < hits.len() && (#[trigger] hits[i]).doc_id == g {
            let i = choose|i: int| 0 <= i < hits.len() && (#[trigger] hits[i]).doc_id == g;
            assert(shows_hit(segs, hits[i], results[i]));
            let (t, e) = choose|t: int, e: int| #[trigger]
                numbered(segs, g as int, t, e) && {
                    &&& results[i].id@ == segs[t].index.docs@[e].external_id@
                    &&& results[i].title@ == segs[t].index.docs@[e].title@
                    &&& results[i].score == hits[i].score
                    &&& results[i].bm25 == hits[i].bm25
                    &&& results[i].semantic == hits[i].semantic
                };
            lemma_numbered_once(segs, g as int, t, e, s as int, d as int);
            assert(result_of(segs, s as int, d as int, results[i]));
        } else {
            let v = sims[x];
            assert(rated(segs, has, sim, s, d, v));
            if hybrid::docs_of(sem).contains(g) {
                let q = choose|q: int|
                    0 <= q < hybrid::docs_of(sem).len() && hybrid::docs_of(sem)[q] == g;
                if q < hits.len() {
                    assert(hits[q].doc_id == g);
                }
                assert(results.len() == top_k);
                assert(hybrid::is_similar(docs, sims, sem[q]));
                let y = choose|y: int|
                    0 <= y < docs.len() && docs[y] == sem[q].doc_id && #[trigger] sims[y]
                        == sem[q].semantic;
                assert(docs[y] == docs[x]);
                assert(y == x);
                assert forall|i: int| 0 <= i < results.len() implies (
                #[trigger] results[i]).semantic >= v by {
                    assert(sem[i].semantic >= sem[q].semantic);
                }
            } else {
                assert(!hybrid::docs_of(sem).contains(docs[x]));
                assert forall|i: int| 0 <= i < results.len() implies (
                #[trigger] results[i]).semantic >= v by {
                    assert(sem[i].semantic >= v);
                }
            }
        }
    }
}

/// There are no more different numbers below `n` than that.
proof fn lemma_few_numbers(docs: Seq<u32>, n: int)
    requires
        docs.no_duplicates(),
        0 <= n <= u32::MAX,
        forall|i: int| 0 <= i < docs.len() ==> (#[trigger] docs[i]) < n,
    ensures
        docs.len() <= n,
{
    let all = docs.map_values(|d: u32| d as int);
    assert forall|i: int, j: int| 0 <= i < all.len() && 0 <= j < all.len() && i != j implies all[i]
        != all[j] by {
        assert(docs[i] != docs[j]);
    }
    all.unique_seq_to_set();
    let range = vstd::set_lib::set_int_range(0, n);
    vstd::set_lib::lemma_int_range(0, n);
    assert(all.to_set().subset_of(range)) by {
        assert forall|v: int| all.to_set().contains(v) implies range.contains(v) by {
            let i = choose|i: int| 0 <= i < all.len() && all[i] == v;
            assert(all[i] == docs[i]);
        }
    }
    vstd::set_lib::lemma_len_subset(all.to_set(), range);
}

/// The fused score that the options ask for.
pub open spec fn asked_score(
    opts: SearchOpts,
    sem: Seq<HybridHit>,
    hits: Seq<SearchHit>,
    sims: Seq<i32>,
) -> spec_fn(u32, int, int, int) -> bool {
    match opts.fusion {
        FusionArg::Rrf => hybrid::rrf_score(
            if opts.rrf_k < 0 {
                0
            } else {
                opts.rrf_k as int
            },
        ),
        FusionArg::Weighted => hybrid::weighted_score(
            sem,
            hits,
            sims,
            if opts.alpha < 0 {
                0
            } else if opts.alpha > 0x100_0000 {
                0x100_0000
            } else {
                opts.alpha as int
            },
        ),
    }
}

/// Fusion as the options ask for it ranks by the score that they ask for.
proof fn lemma_asked(
    opts: SearchOpts,
    sem: Seq<HybridHit>,
    hits: Seq<SearchHit>,
    sims: Seq<i32>,
    k: int,
    out: Seq<HybridHit>,
)
    requires
        k >= 0,
        sem.len() + hits.len() < usize::MAX,
        hybrid::docs_of(sem).no_duplicates(),
        hybrid::found_docs(hits).no_duplicates(),
        forall|i: int| 0 <= i < sem.len() ==> (#[trigger] sem[i]).bm25 == 0,
        ({
            let u = hybrid::merged(sem, hits, sims, hits.len() as int);
            hybrid::is_fusion(fusion_spec(opts), u.rows, u.bm25_rank, u.sem_rank, k, out)
        }),
    ensures
        hybrid::ranks_merged(sem, hits, sims, asked_score(opts, sem, hits, sims), k, out),
{
    match fusion_spec(opts) {
        Fusion::Rrf { k: c } => hybrid::law_rank_fusion(sem, hits, sims, c, k, out),
        Fusion::Weighted { alpha } => hybrid::law_weighted_fusion(sem, hits, sims, alpha, k, out),
    }
}

proof fn lemma_existing(docs: Seq<u32>, n: int)
    requires
        docs.no_duplicates(),
    ensures
        existing(docs, n).no_duplicates(),
        forall|d: u32| #[trigger] existing(docs, n).contains(d) <==> docs.contains(d) && d < n,
    decreases docs.len(),
{
    if docs.len() > 0 {
        let front = docs.drop_last();
        let last = docs.last();
        assert forall|i: int, j: int|
            0 <= i < front.len() && 0 <= j < front.len() && i != j implies front[i] != front[j] by {
            assert(docs[i] != docs[j]);
        }
        lemma_existing(front, n);
        let head = existing(front, n);
        let all = existing(docs, n);
        assert(!front.contains(last)) by {
            if front.contains(last) {
                let i = choose|i: int| 0 <= i < front.len() && front[i] == last;
                assert(docs[i] == docs[docs.len() - 1]);
            }
        }
        assert forall|d: u32| docs.contains(d) <==> front.contains(d) || d == last by {
            if docs.contains(d) {
                let i = choose|i: int| 0 <= i < docs.len() && docs[i] == d;
                if i < front.len() {
                    assert(front[i] == d);
                }
            }
            if front.contains(d) {
                let i = choose|i: int| 0 <= i < front.len() && front[i] == d;
                assert(docs[i] == d);
            }
            if d == last {
                assert(docs[docs.len() - 1] == d);
            }
        }
        if last < n {
            assert(!head.contains(last));
            assert forall|i: int, j: int|
                0 <= i < all.len() && 0 <= j < all.len() && i != j implies all[i] != all[j] by {
                if i == head.len() {
                    assert(head.contains(head[j]));
                } else if j == head.len() {
                    assert(head.contains(head[i]));
                }
            }
            assert forall|d: u32| #[trigger] all.contains(d) <==> head.contains(d) || d == last by {
                if all.contains(d) {
                    let i = choose|i: int| 0 <= i < all.len() && all[i] == d;
                    if i < head.len() {
                        assert(head[i] == d);
                    }
                }
                if head.contains(d) {
                    let i = choose|i: int| 0 <= i < head.len() && head[i] == d;
                    assert(all[i] == d);
                }
                if d == last {
                    assert(all[head.len() as int] == d);
                }
            }
        }
    }
}

/// The candidates are different documents of the index: all of them if no
/// inverted file narrows them down.
proof fn lemma_pool(ivf: Option<IvfIndex>, keys: Seq<u32>, nprobe: int, n: int, docs: Seq<u32>)
    requires
        0 <= n <= u32::MAX,
        is_pool(ivf, keys, nprobe, n, docs),
    ensures
        docs.no_duplicates(),
        forall|i: int| 0 <= i < docs.len() ==> (#[trigger] docs[i]) < n,
        ivf is None ==> forall|d: u32| d < n ==> #[trigger] docs.contains(d),
        docs.len() <= n,
{
    match ivf {
        Some(x) => {
            let (clusters, all) = choose|clusters: Seq<u32>, all: Seq<u32>|
                #![trigger x.gathers(clusters, all), existing(all, n)]
                ivf::nearest(
                    keys,
                    x.opened(
                        if nprobe == 0 {
                            x.auto_nprobe_spec()
                        } else {
                            nprobe
                        },
                    ),
                    clusters,
                ) && x.gathers(clusters, all) && docs == existing(all, n);
            assert forall|i: int, j: int|
                0 <= i < all.len() && 0 <= j < all.len() && i != j implies all[i] != all[j] by {
                if i < j {
                    assert(all[i] < all[j]);
                } else {
                    assert(all[j] < all[i]);
                }
            }
            lemma_existing(all, n);
            assert forall|i: int| 0 <= i < docs.len() implies (#[trigger] docs[i]) < n by {
                assert(docs.contains(docs[i]));
            }
        },
        None => {
            assert forall|d: u32| d < n implies #[trigger] docs.contains(d) by {
                assert(docs[d as int] == d);
            }
        },
    }
    lemma_few_numbers(docs, n);
}

/// Lexical hits are of different documents.
proof fn lemma_lexical_distinct(index: Index, texts: Seq<Seq<char>>, k: int, found: Seq<SearchHit>)
    requires
        index.wf(),
        lexical(index, texts, k, found),
    ensures
        hybrid::found_docs(found).no_duplicates(),
        found.len() <= index.docs@.len(),
{
    let docs = hybrid::found_docs(found);
    assert forall|i: int, j: int|
        0 <= i < docs.len() && 0 <= j < docs.len() && i != j implies docs[i] != docs[j] by {
        if i < j {
            assert(block_max_wand::better(found[i], found[j]));
        } else {
            assert(block_max_wand::better(found[j], found[i]));
        }
    }
    lemma_found_below(index, texts, k, found);
    assert forall|i: int| 0 <= i < docs.len() implies (#[trigger] docs[i]) < index.docs@.len() by {
        assert(found[i].doc_id < index.docs@.len());
    }
    lemma_few_numbers(docs, index.docs@.len() as int);
}

/// What a hybrid query ranks: the lexical hits `found` and the most similar of
/// the candidates `docs`.
pub open spec fn ranks_both_sides<F: Fn(u32) -> i32, G: Fn(u32) -> i32>(
    index: Index,
    texts: Seq<Seq<char>>,
    top_k: int,
    opts: SearchOpts,
    sim: F,
    pool_sim: G,
    found: Seq<SearchHit>,
    found_sims: Seq<i32>,
    docs: Seq<u32>,
    sims: Seq<i32>,
    sem: Seq<HybridHit>,
    hits: Seq<HybridHit>,
) -> bool {
    let pool = if opts.semantic_candidates > top_k {
        opts.semantic_candidates as int
    } else {
        top_k
    };
    &&& lexical(index, texts, pool, found)
    &&& are_sims(sim, hit_docs(found), found_sims)
    &&& docs.no_duplicates()
    &&& are_sims(pool_sim, docs, sims)
    &&& hybrid::most_similar(docs, sims, pool, sem)
    &&& hybrid::ranks_merged(
        sem,
        found,
        found_sims,
        asked_score(opts, sem, found, found_sims),
        top_k,
        hits,
    )
}

/// A hybrid query ranks the best lexical hits and the most similar candidates
/// together, by the fused score that the options ask for. Without an inverted
/// file every document is a candidate.
pub proof fn law_hybrid_query_ranks_both_sides<F: Fn(u32) -> i32, G: Fn(u32) -> i32>(
    index: Index,
    ivf: Option<IvfIndex>,
    texts: Seq<Seq<char>>,
    top_k: int,
    opts: SearchOpts,
    keys: Seq<u32>,
    sim: F,
    pool_sim: G,
    hits: Seq<HybridHit>,
)
    requires
        index.wf(),
        top_k > 0,
        opts.mode == RankMode::Hybrid,
        2 * index.docs@.len() < usize::MAX,
        ranks(index, ivf, texts, top_k, opts, keys, sim, pool_sim, hits),
    ensures
        exists|
            found: Seq<SearchHit>,
            found_sims: Seq<i32>,
            docs: Seq<u32>,
            sims: Seq<i32>,
            sem: Seq<HybridHit>,
        | #[trigger]
            ranks_both_sides(
                index,
                texts,
                top_k,
                opts,
                sim,
                pool_sim,
                found,
                found_sims,
                docs,
                sims,
                sem,
                hits,
            ) && (ivf is None ==> forall|d: u32|
                d < index.docs@.len() ==> #[trigger] docs.contains(d)),
{
    let n = index.docs@.len() as int;
    let pool = hybrid::most(opts.semantic_candidates as int, top_k);
    let (found, found_sims, docs, sims, sem) = choose|
        found: Seq<SearchHit>,
        found_sims: Seq<i32>,
        docs: Seq<u32>,
        sims: Seq<i32>,
        sem: Seq<HybridHit>,
    | #[trigger]
        fuses_single(
            index,
            ivf,
            texts,
            top_k,
            opts,
            keys,
            sim,
            pool_sim,
            found,
            found_sims,
            docs,
            sims,
            sem,
            hits,
        );
    lemma_pool(ivf, keys, opts.nprobe as int, n, docs);
    lemma_lexical_distinct(index, texts, pool, found);
    hybrid::law_most_similar(docs, sims, pool, sem);
    hybrid::lemma_best_len(hybrid::similar_rows(docs, sims), pool, sem);
    lemma_similar_distinct(docs, sims, pool, sem);
    lemma_asked(opts, sem, found, found_sims, top_k, hits);
    assert(ranks_both_sides(
        index,
        texts,
        top_k,
        opts,
        sim,
        pool_sim,
        found,
        found_sims,
        docs,
        sims,
        sem,
        hits,
    ));
}

proof fn lemma_similar_distinct(docs: Seq<u32>, sims: Seq<i32>, k: int, out: Seq<HybridHit>)
    requires
        docs.no_duplicates(),
        docs.len() == sims.len(),
        hybrid::most_similar(docs, sims, k, out),
    ensures
        hybrid::docs_of(out).no_duplicates(),
{
    let all = hybrid::docs_of(out);
    assert forall|i: int, j: int| 0 <= i < all.len() && 0 <= j < all.len() && i != j implies all[i]
        != all[j] by {
        if all[i] == all[j] {
            assert(hybrid::is_similar(docs, sims, out[i]));
            assert(hybrid::is_similar(docs, sims, out[j]));
            let x = choose|x: int|
                0 <= x < docs.len() && docs[x] == out[i].doc_id && #[trigger] sims[x]
                    == out[i].semantic;
            let y = choose|y: int|
                0 <= y < docs.len() && docs[y] == out[j].doc_id && #[trigger] sims[y]
                    == out[j].semantic;
            assert(x == y);
            if i < j {
                assert(out[i].semantic > out[j].semantic || out[i].doc_id < out[j].doc_id);
            } else {
                assert(out[j].semantic > out[i].semantic || out[j].doc_id < out[i].doc_id);
            }
        }
    }
}

/// A semantic query over one index finds the most similar candidates, and at
/// least one if there is any. Without an inverted file every document is a
/// candidate.
pub proof fn law_semantic_query_ranks_by_similarity<F: Fn(u32) -> i32, G: Fn(u32) -> i32>(
    index: Index,
    ivf: Option<IvfIndex>,
    texts: Seq<Seq<char>>,
    top_k: int,
    opts: SearchOpts,
    keys: Seq<u32>,
    sim: F,
    pool_sim: G,
    hits: Seq<HybridHit>,
)
    requires
        index.wf(),
        top_k >= 0,
        opts.mode == RankMode::Semantic,
        ranks(index, ivf, texts, top_k, opts, keys, sim, pool_sim, hits),
    ensures
        exists|docs: Seq<u32>, sims: Seq<i32>|
            #![trigger are_sims(pool_sim, docs, sims)]
            {
                &&& are_sims(pool_sim, docs, sims)
                &&& docs.no_duplicates()
                &&& forall|i: int| 0 <= i < docs.len() ==> (#[trigger] docs[i]) < index.docs@.len()
                &&& ivf is None ==> forall|d: u32|
                    d < index.docs@.len() ==> #[trigger] docs.contains(d)
                &&& hybrid::most_similar(
                    docs,
                    sims,
                    if top_k > 1 {
                        top_k
                    } else {
                        1
                    },
                    hits,
                )
            },
{
    let (docs, sims) = choose|docs: Seq<u32>, sims: Seq<i32>|
        #![trigger are_sims(pool_sim, docs, sims)]
        {
            &&& is_pool(ivf, keys, opts.nprobe as int, index.docs@.len() as int, docs)
            &&& are_sims(pool_sim, docs, sims)
            &&& hybrid::best_rows(
                hybrid::similar_rows(docs, sims),
                hybrid::most(top_k, 1),
                hits,
            )
        };
    lemma_pool(ivf, keys, opts.nprobe as int, index.docs@.len() as int, docs);
    hybrid::law_most_similar(docs, sims, hybrid::most(top_k, 1), hits);
    assert(are_sims(pool_sim, docs, sims));
}

/// A query that reranks by weight keeps the lexical hits and ranks them by the
/// mix of their two scores.
pub proof fn law_rerank_query_ranks_the_lexical_hits<F: Fn(u32) -> i32, G: Fn(u32) -> i32>(
    index: Index,
    ivf: Option<IvfIndex>,
    texts: Seq<Seq<char>>,
    top_k: int,
    opts: SearchOpts,
    keys: Seq<u32>,
    sim: F,
    pool_sim: G,
    hits: Seq<HybridHit>,
)
    requires
        index.wf(),
        top_k > 0,
        opts.mode == RankMode::Rerank,
        opts.fusion == FusionArg::Weighted,
        2 * index.docs@.len() < usize::MAX,
        ranks(index, ivf, texts, top_k, opts, keys, sim, pool_sim, hits),
    ensures
        exists|found: Seq<SearchHit>, found_sims: Seq<i32>|
            #![trigger are_sims(sim, hit_docs(found), found_sims)]
            {
                &&& lexical(
                    index,
                    texts,
                    if opts.semantic_candidates > top_k {
                        opts.semantic_candidates as int
                    } else {
                        top_k
                    },
                    found,
                )
                &&& are_sims(sim, hit_docs(found), found_sims)
                &&& found.len() == 0 ==> hits.len() == 0
                &&& found.len() > 0 ==> hybrid::ranks_merged(
                    Seq::empty(),
                    found,
                    found_sims,
                    asked_score(opts, Seq::empty(), found, found_sims),
                    top_k,
                    hits,
                )
            },
{
    let pool = hybrid::most(opts.semantic_candidates as int, top_k);
    let (found, found_sims) = choose|found: Seq<SearchHit>, found_sims: Seq<i32>|
        #![trigger are_sims(sim, hit_docs(found), found_sims)]
        {
            &&& lexical(index, texts, pool, found)
            &&& are_sims(sim, hit_docs(found), found_sims)
            &&& if found.len() == 0 || top_k == 0 {
                hits.len() == 0
            } else {
                hybrid::is_reranking(
                    fusion_spec(opts),
                    hybrid::rows_of(found, found_sims),
                    top_k,
                    hits,
                )
            }
        };
    lemma_lexical_distinct(index, texts, pool, found);
    if found.len() > 0 {
        if let Fusion::Weighted { alpha } = fusion_spec(opts) {
            hybrid::law_weighted_reranking(found, found_sims, alpha, top_k, hits);
        }
    }
    assert(are_sims(sim, hit_docs(found), found_sims));
}

/// The hits `flat` are those of the segments, their documents counted through.
pub open spec fn counts_through(
    segs: Seq<segments::Segment>,
    found: Seq<SegmentHit>,
    flat: Seq<SearchHit>,
) -> bool {
    &&& flat.len() == found.len()
    &&& forall|i: int|
        0 <= i < flat.len() ==> (#[trigger] flat[i]).score == found[i].score && numbered(
            segs,
            flat[i].doc_id as int,
            found[i].segment as int,
            found[i].doc_id as int,
        )
}

/// Number `g` is that of a document with a vector that is not tombstoned, and
/// `v` its similarity.
pub open spec fn rated_number<F: Fn(usize, u32) -> i32>(
    segs: Seq<segments::Segment>,
    has: Seq<bool>,
    sim: F,
    g: u32,
    v: i32,
) -> bool {
    exists|s: usize, d: u32|
        {
            &&& #[trigger] numbered(segs, g as int, s as int, d as int)
            &&& has[s as int]
            &&& !segments::bit(segs[s as int].deleted@, d as int)
            &&& call_ensures(sim, (s, d), v)
        }
}

/// The documents `docs`, by number, are those with a vector that are not
/// tombstoned, and `sims` their similarities.
pub open spec fn rates_the_living<F: Fn(usize, u32) -> i32>(
    segs: Seq<segments::Segment>,
    has: Seq<bool>,
    sim: F,
    docs: Seq<u32>,
    sims: Seq<i32>,
) -> bool {
    &&& sims.len() == docs.len()
    &&& docs.no_duplicates()
    &&& forall|x: int|
        0 <= x < docs.len() ==> rated_number(segs, has, sim, #[trigger] docs[x], sims[x])
    &&& forall|g: u32, s: int, d: int| #[trigger]
        numbered(segs, g as int, s, d) && has[s] && !segments::bit(segs[s].deleted@, d)
            ==> docs.contains(g)
}

/// What a query over segments ranks: the lexical hits `found` and, unless they
/// are all that is ranked, the most similar of the documents with vectors.
pub open spec fn ranks_both_segmented<F: Fn(usize, u32) -> i32>(
    segs: Seq<segments::Segment>,
    has: Seq<bool>,
    texts: Seq<Seq<char>>,
    top_k: int,
    opts: SearchOpts,
    sim: F,
    found: Seq<SegmentHit>,
    found_sims: Seq<i32>,
    flat: Seq<SearchHit>,
    docs: Seq<u32>,
    sims: Seq<i32>,
    sem: Seq<HybridHit>,
    hits: Seq<HybridHit>,
) -> bool {
    let pool = if opts.semantic_candidates > top_k {
        opts.semantic_candidates as int
    } else {
        top_k
    };
    &&& segments::is_global_top_k(found, segs, searcher::distinct(texts), pool as nat)
    &&& found_sims.len() == found.len()
    &&& forall|i: int|
        0 <= i < found.len() ==> call_ensures(
            sim,
            (found[i].segment, found[i].doc_id),
            #[trigger] found_sims[i],
        )
    &&& counts_through(segs, found, flat)
    &&& opts.mode == RankMode::Rerank ==> sem.len() == 0
    &&& opts.mode != RankMode::Rerank ==> rates_the_living(segs, has, sim, docs, sims)
        && hybrid::most_similar(docs, sims, pool, sem)
    &&& hybrid::ranks_merged(
        sem,
        flat,
        found_sims,
        asked_score(opts, sem, flat, found_sims),
        top_k,
        hits,
    )
}

/// A hybrid query over segments ranks the best lexical hits and the most similar
/// documents together, by the fused score that the options ask for; reranking
/// ranks the lexical hits alone.
pub proof fn law_segmented_query_ranks_both_sides<F: Fn(usize, u32) -> i32>(
    index: SegmentedIndex,
    has: Seq<bool>,
    texts: Seq<Seq<char>>,
    top_k: int,
    opts: SearchOpts,
    sim: F,
    hits: Seq<HybridHit>,
)
    requires
        index.wf(),
        top_k > 0,
        opts.mode != RankMode::Semantic,
        has.len() == index.segments@.len(),
        base(index.segments@, index.segments@.len() as int) <= u32::MAX,
        2 * base(index.segments@, index.segments@.len() as int) < usize::MAX,
        ranks_segmented(index.segments@, has, texts, top_k, opts, sim, hits),
    ensures
        exists|
            found: Seq<SegmentHit>,
            found_sims: Seq<i32>,
            flat: Seq<SearchHit>,
            docs: Seq<u32>,
            sims: Seq<i32>,
            sem: Seq<HybridHit>,
        | #[trigger]
            ranks_both_segmented(
                index.segments@,
                has,
                texts,
                top_k,
                opts,
                sim,
                found,
                found_sims,
                flat,
                docs,
                sims,
                sem,
                hits,
            ),
{
    let segs = index.segments@;
    let n = segs.len() as int;
    let all = with_vectors(segs, has, n);
    let docs = numbers(segs, all);
    let pool = hybrid::most(opts.semantic_candidates as int, top_k);
    assert forall|s: int| 0 <= s < segs.len() implies (#[trigger] segs[s]).index.docs@.len()
        <= u32::MAX by {
        assert(segs[s].wf(index.title_weight as nat));
    }
    let (found, found_sims, sem) = choose|
        found: Seq<SegmentHit>,
        found_sims: Seq<i32>,
        sem: Seq<HybridHit>,
    | #[trigger]
        fuses_segmented(segs, has, texts, top_k, opts, sim, found, found_sims, sem, hits);
    let flat = numbered_hits(segs, found);
    lemma_segment_hits(index, searcher::distinct(texts), pool as nat, found);
    lemma_flat_hits(segs, searcher::distinct(texts), pool as nat, found);
    assert forall|i: int| 0 <= i < found.len() implies call_ensures(
        sim,
        (found[i].segment, found[i].doc_id),
        #[trigger] found_sims[i],
    ) by {
        assert(hit_pairs(found)[i] == (found[i].segment, found[i].doc_id));
    }
    let sims = if opts.mode == RankMode::Rerank {
        Seq::empty()
    } else {
        choose|sims: Seq<i32>| #[trigger]
            are_pair_sims(sim, all, sims) && hybrid::best_rows(
                hybrid::similar_rows(numbers(segs, all), sims),
                hybrid::most(pool, 1),
                sem,
            )
    };
    if opts.mode != RankMode::Rerank {
        lemma_rated_candidates(segs, has, sim, sims);
        hybrid::law_most_similar(docs, sims, pool, sem);
        hybrid::lemma_best_len(hybrid::similar_rows(docs, sims), pool, sem);
        lemma_similar_distinct(docs, sims, pool, sem);
    } else {
        assert(hybrid::docs_of(sem).no_duplicates());
    }
    lemma_asked(opts, sem, flat, found_sims, top_k, hits);
    assert(ranks_both_segmented(
        segs,
        has,
        texts,
        top_k,
        opts,
        sim,
        found,
        found_sims,
        flat,
        docs,
        sims,
        sem,
        hits,
    ));
}

proof fn lemma_flat_hits(
    segs: Seq<segments::Segment>,
    terms: Seq<Seq<char>>,
    k: nat,
    found: Seq<SegmentHit>,
)
    requires
        segs.len() <= usize::MAX,
        base(segs, segs.len() as int) <= u32::MAX,
        segments::is_global_top_k(found, segs, terms, k),
        pairs_exist(segs, hit_pairs(found)),
    ensures
        counts_through(segs, found, numbered_hits(segs, found)),
        hybrid::found_docs(numbered_hits(segs, found)).no_duplicates(),
        found.len() <= base(segs, segs.len() as int),
{
    let flat = numbered_hits(segs, found);
    let pairs = hit_pairs(found);
    let total = base(segs, segs.len() as int) as int;
    assert forall|i: int, j: int|
        0 <= i < pairs.len() && 0 <= j < pairs.len() && i != j implies pairs[i] != pairs[j] by {
        if i < j {
            assert(segments::ranks_before(found[i], found[j]));
        } else {
            assert(segments::ranks_before(found[j], found[i]));
        }
    }
    lemma_numbers_differ(segs, pairs);
    assert(hybrid::found_docs(flat) =~= numbers(segs, pairs));
    assert forall|i: int| 0 <= i < flat.len() implies (#[trigger] flat[i]).score == found[i].score
        && numbered(
        segs,
        flat[i].doc_id as int,
        found[i].segment as int,
        found[i].doc_id as int,
    ) by {
        assert(pairs[i].0 < segs.len());
        lemma_number(segs, pairs, i);
    }
    let docs = numbers(segs, pairs);
    assert forall|i: int| 0 <= i < docs.len() implies (#[trigger] docs[i]) < total by {
        assert(pairs[i].0 < segs.len());
        lemma_number(segs, pairs, i);
        lemma_base_step(segs, pairs[i].0 as int);
    }
    lemma_few_numbers(docs, total);
}

proof fn lemma_rated_candidates<F: Fn(usize, u32) -> i32>(
    segs: Seq<segments::Segment>,
    has: Seq<bool>,
    sim: F,
    sims: Seq<i32>,
)
    requires
        segs.len() <= u32::MAX,
        has.len() == segs.len(),
        base(segs, segs.len() as int) <= u32::MAX,
        forall|s: int| 0 <= s < segs.len() ==> (#[trigger] segs[s]).index.docs@.len() <= u32::MAX,
        are_pair_sims(sim, with_vectors(segs, has, segs.len() as int), sims),
    ensures
        rates_the_living(
            segs,
            has,
            sim,
            numbers(segs, with_vectors(segs, has, segs.len() as int)),
            sims,
        ),
        sims.len() <= base(segs, segs.len() as int),
{
    let all = with_vectors(segs, has, segs.len() as int);
    let docs = numbers(segs, all);
    let total = base(segs, segs.len() as int) as int;
    lemma_with_vectors(segs, has, segs.len() as int);
    assert forall|i: int| 0 <= i < all.len() implies (#[trigger] all[i]).0 < segs.len() && all[i].1
        < segs[all[i].0 as int].index.docs@.len() by {
        assert(all.contains(all[i]));
    }
    lemma_numbers_differ(segs, all);
    assert forall|x: int| 0 <= x < docs.len() implies rated_number(
        segs,
        has,
        sim,
        #[trigger] docs[x],
        sims[x],
    ) && docs[x] < total by {
        assert(all.contains(all[x]));
        lemma_number(segs, all, x);
        lemma_base_step(segs, all[x].0 as int);
        assert(numbered(segs, docs[x] as int, all[x].0 as int, all[x].1 as int));
        assert(call_ensures(sim, (all[x].0, all[x].1), sims[x]));
    }
    assert forall|g: u32, s: int, d: int| #[trigger]
        numbered(segs, g as int, s, d) && has[s] && !segments::bit(
            segs[s].deleted@,
            d,
        ) implies docs.contains(g) by {
        let p = (s as usize, d as u32);
        assert(alive_at(segs, p.0 as int, p.1 as int));
        assert(all.contains(p));
        let x = choose|x: int| 0 <= x < all.len() && all[x] == p;
        lemma_number(segs, all, x);
        assert(docs[x] == g);
    }
    lemma_few_numbers(docs, total);
}

/// `clusters` are the `m` clusters with the highest keys, the lower number first
/// among equals.
pub open spec fn best_clusters(keys: Seq<u32>, m: int, clusters: Seq<u32>) -> bool {
    &&& clusters.len() == m
    &&& forall|i: int| 0 <= i < clusters.len() ==> (#[trigger] clusters[i]) < keys.len()
    &&& forall|c: u32, i: int|
        #![trigger clusters.contains(c), clusters[i]]
        c < keys.len() && !clusters.contains(c) && 0 <= i < clusters.len()
            ==> keys[clusters[i] as int] > keys[c as int] || (keys[clusters[i] as int]
            == keys[c as int] && clusters[i] < c)
}

/// With an inverted file the candidates are the documents of the clusters that
/// are most like the query: as many clusters as asked for, or a quarter of them,
/// from one to eight, if the count is left open.
pub proof fn law_candidates_come_from_the_nearest_clusters(
    x: IvfIndex,
    keys: Seq<u32>,
    nprobe: int,
    num_docs: int,
    docs: Seq<u32>,
)
    requires
        is_pool(Some(x), keys, nprobe, num_docs, docs),
        x.faithful(),
        x.num_clusters >= 1,
        keys.len() == x.num_clusters,
        nprobe >= 0,
    ensures
        exists|clusters: Seq<u32>|
            {
                &&& #[trigger] best_clusters(keys, clusters.len() as int, clusters)
                &&& nprobe == 0 && x.num_clusters < 8 ==> clusters.len() == 1
                &&& nprobe == 0 && 8 <= x.num_clusters <= 32 ==> clusters.len() == x.num_clusters / 4
                &&& nprobe == 0 && x.num_clusters > 32 ==> clusters.len() == 8
                &&& 1 <= nprobe <= x.num_clusters ==> clusters.len() == nprobe
                &&& nprobe > x.num_clusters ==> clusters.len() == x.num_clusters
                &&& forall|d: u32| #[trigger]
                    docs.contains(d) <==> d < num_docs && d < x.num_docs && clusters.contains(
                        x.assignment@[d as int],
                    )
            },
{
    let m = x.opened(
        if nprobe == 0 {
            x.auto_nprobe_spec()
        } else {
            nprobe
        },
    );
    let (clusters, all) = choose|clusters: Seq<u32>, all: Seq<u32>|
        #![trigger x.gathers(clusters, all), existing(all, num_docs)]
        ivf::nearest(keys, m, clusters) && x.gathers(clusters, all) && docs == existing(
            all,
            num_docs,
        );
    assert forall|c: u32, i: int|
        #![trigger clusters.contains(c), clusters[i]]
        c < keys.len() && !clusters.contains(c) && 0 <= i < clusters.len() implies keys[clusters[i] as int]
        > keys[c as int] || (keys[clusters[i] as int] == keys[c as int] && clusters[i] < c) by {
        ivf::law_nearest_clusters(keys, m, clusters, c);
    }
    ivf::law_nearest_clusters(keys, m, clusters, 0);
    assert(best_clusters(keys, clusters.len() as int, clusters));
    ivf::law_probed_documents(x, clusters, all);
    assert(all.no_duplicates()) by {
        assert forall|i: int, j: int| 0 <= i < all.len() && 0 <= j < all.len() && i != j implies all[i]
            != all[j] by {
            if i < j {
                assert(all[i] < all[j]);
            } else {
                assert(all[j] < all[i]);
            }
        }
    }
    lemma_existing(all, num_docs);
}

} // verus!
