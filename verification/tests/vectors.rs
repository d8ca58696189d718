//! Vectors, quantizers, graphs, fused rankings, and the files they live in.

use hips::block_max_wand::SearchHit;
use hips::coreml;
use hips::coreml::{Family, Shape};
use hips::embcache::{key_for, quantizer_id, EmbedCache};
use hips::embedder;
use hips::embedder::{EmbedUse, QueryCache};
use hips::embeddings::{
    f16_to_f32, f32_to_f16, order_key, write_f16, EmbeddingStore, EmbeddingsError,
};
use hips::external::{
    build_index_external, encode_term, merge_shards, spill, ExternalBuilder, ExternalError, Merger,
    TermTables, Triple,
};
use hips::hnsw::{build_if_large, BuildError, HnswError, HnswIndex, Neighbor, MIN_DOCS};
use hips::hybrid;
use hips::hybrid::Fusion;
use hips::indexer::{build_index, build_index_weighted, DocTokens, InputDoc, SearchableIndex, terms_fit};
use hips::ivf;
use hips::ivf::{IvfError, IvfIndex};
use hips::migrate;
use hips::postings::Posting;
use hips::pq;
use hips::pq::{estimated_candidates, worth_using, PqError, PqIndex};
use hips::query;
use hips::query::{FusionArg, PqMode, QueryError, RankMode, SearchOpts};
use hips::reorder::ReorderStrategy;
use hips::searcher::{AnyIndex, IndexKind};
use hips::segments::{
    bit_is_set, leftover, read_tombstones, set_bit, write_tombstones, Leftover, SegmentedIndex,
};
use hips::vectors;

fn bits(v: &[f32]) -> Vec<u32> {
    v.iter().map(|x| x.to_bits()).collect()
}

fn l2_normalize(v: &mut [f32]) {
    let norm = v.iter().map(|x| x * x).sum::<f32>().sqrt();
    if norm > 0.0 {
        for x in v {
            *x /= norm;
        }
    }
}

fn store_of(vectors: &[Vec<f32>]) -> EmbeddingStore {
    let rows: Vec<Vec<u32>> = vectors.iter().map(|v| bits(v)).collect();
    let bytes = write_f16(vectors[0].len() as u32, &rows).unwrap();
    EmbeddingStore::open(bytes).unwrap()
}

fn row(store: &EmbeddingStore, doc: u32) -> Vec<f32> {
    let mut out = vec![0u32; store.dim() as usize];
    store.copy_f32(doc, &mut out);
    out.into_iter().map(f32::from_bits).collect()
}

fn rows(store: &EmbeddingStore) -> Vec<Vec<f32>> {
    (0..store.num_docs()).map(|d| row(store, d)).collect()
}

fn cosine(a: &[f32], b: &[f32]) -> f32 {
    a.iter().zip(b).map(|(x, y)| x * y).sum()
}

fn sim(x: f32) -> i32 {
    (x * 16777216.0) as i32
}

// --- halves and sidecars ---------------------------------------------------

#[test]
fn f16_roundtrip_unit_range() {
    for x in [-1.0f32, -0.5, -0.036, 0.0, 0.036, 0.5, 1.0] {
        let back = f32::from_bits(f16_to_f32(f32_to_f16(x.to_bits())));
        assert!((back - x).abs() < 0.001, "{x} -> {back}");
    }
}

#[test]
fn halves_widen_exactly() {
    assert_eq!(f32::from_bits(f16_to_f32(0x3c00)), 1.0);
    assert_eq!(f32::from_bits(f16_to_f32(0xc000)), -2.0);
    assert_eq!(f32::from_bits(f16_to_f32(0x0001)), 2.0f32.powi(-24));
    assert_eq!(f32::from_bits(f16_to_f32(0x7c00)), f32::INFINITY);
    assert!(f32::from_bits(f16_to_f32(0x7c01)).is_nan());
    assert_eq!(f32_to_f16(1.0f32.to_bits()), 0x3c00);
    assert_eq!(f32_to_f16(1e9f32.to_bits()), 0x7c00);
}

#[test]
fn rounding_carries_into_the_exponent() {
    // The largest single below one half, and the one below one quarter.
    assert_eq!(f32_to_f16(0x3eff_ffff), 0x3800);
    assert_eq!(f32_to_f16(0x3e7f_ffff), 0x3400);
    assert_eq!(f32_to_f16(0xbeff_ffff), 0xb800);
    let mut bits = 0u32;
    while bits <= 1.0f32.to_bits() {
        for b in [bits, bits | 0x8000_0000] {
            let x = f32::from_bits(b);
            let back = f32::from_bits(f16_to_f32(f32_to_f16(b)));
            assert!((back - x).abs() < 0.001, "{x} -> {back}");
        }
        bits += 4093;
    }
}

#[test]
fn order_keys_order_numbers() {
    let numbers = [-3.0f32, -0.5, 0.0, 0.25, 0.5, 7.0];
    for pair in numbers.windows(2) {
        assert!(order_key(pair[0].to_bits()) < order_key(pair[1].to_bits()));
    }
}

#[test]
fn sidecars_read_back() {
    let store = store_of(&[vec![1.0, 0.0, 0.0, 0.0], vec![0.6, 0.8, 0.0, 0.0]]);
    assert_eq!(store.num_docs(), 2);
    assert!(store.dtype_f16());
    let q = [1.0f32, 0.0, 0.0, 0.0];
    let s0 = cosine(&row(&store, 0), &q);
    let s1 = cosine(&row(&store, 1), &q);
    assert!((s0 - 1.0).abs() < 0.002, "self cosine {s0}");
    assert!(s1 < s0, "orthogonal-ish {s1} vs {s0}");
}

#[test]
fn damaged_sidecars_are_refused() {
    let good = write_f16(2, &vec![bits(&[1.0, 0.0])]).unwrap();
    assert!(EmbeddingStore::open(good.clone()).is_ok());
    let open = |b: Vec<u8>| EmbeddingStore::open(b).err();
    assert_eq!(open(Vec::new()), Some(EmbeddingsError::NotASidecar));
    let mut b = good.clone();
    b[8] = 9;
    assert_eq!(open(b), Some(EmbeddingsError::UnsupportedVersion(9)));
    let mut b = good.clone();
    b.pop();
    assert_eq!(open(b), Some(EmbeddingsError::Truncated));
    assert_eq!(
        write_f16(3, &vec![bits(&[1.0, 0.0])]).err(),
        Some(EmbeddingsError::DimMismatch)
    );
}

// --- the embedding cache ---------------------------------------------------

#[test]
fn roundtrips_vectors_and_codes_through_disk() {
    let mut cache = EmbedCache::new(4);
    cache.set_quantizer(0xABCD, 2);
    let k = key_for("fn alpha() {}");
    cache.insert(k, &bits(&[0.5, -0.25, 0.0, 1.0]));
    cache.set_quant(k, 7, &[3, 9]);
    let bytes = cache.save();

    let back = EmbedCache::load(&bytes, 4);
    assert_eq!(back.len(), 1);
    assert_eq!(back.quantizer(), 0xABCD);
    let v = back.get(k).unwrap();
    assert!((f32::from_bits(v[0]) - 0.5).abs() < 0.001);
    let (cluster, codes) = back.get_quant(k).unwrap();
    assert_eq!((cluster, codes), (7, &[3u8, 9][..]));

    // A different dim must not be reinterpreted.
    assert!(EmbedCache::load(&bytes, 8).is_empty());
}

#[test]
fn retraining_invalidates_codes_but_keeps_vectors() {
    let mut cache = EmbedCache::new(4);
    cache.set_quantizer(1, 2);
    let k = key_for("x");
    cache.insert(k, &bits(&[1.0, 0.0, 0.0, 0.0]));
    cache.set_quant(k, 5, &[1, 2]);
    assert!(cache.get_quant(k).is_some());

    cache.set_quantizer(2, 2);
    assert!(cache.get_quant(k).is_none(), "codes must not survive");
    assert!(cache.get(k).is_some(), "vector must survive");
}

#[test]
fn quantizer_id_tracks_parameters() {
    let quantizer_id = |c: &[f32], b: &[f32]| quantizer_id(&bits(c), &bits(b));
    let a = quantizer_id(&[1.0, 0.0], &[0.5]);
    assert_eq!(a, quantizer_id(&[1.0, 0.0], &[0.5]));
    assert_ne!(a, quantizer_id(&[1.0, 0.1], &[0.5]));
    assert_ne!(a, quantizer_id(&[1.0, 0.0], &[0.25]));
}

#[test]
fn keys_separate_by_length() {
    assert_ne!(key_for("abc"), key_for("abcd"));
    assert_eq!(key_for("abc"), key_for("abc"));
}

#[test]
fn only_live_keys_are_kept() {
    let mut cache = EmbedCache::new(2);
    cache.insert(1, &bits(&[1.0, 0.0]));
    cache.insert(2, &bits(&[0.0, 1.0]));
    cache.insert(3, &bits(&[0.0, 1.0, 2.0]));
    assert_eq!(cache.len(), 2, "a vector of another dimension is not taken");
    cache.retain_keys(&std::collections::HashSet::from([2]));
    assert_eq!(cache.len(), 1);
    assert!(!cache.contains(1));
    assert!(cache.contains(2));
}

#[test]
fn encoding_the_misses_is_enough() {
    let mut cache = EmbedCache::new(2);
    let texts: Vec<String> = ["a", "b", "a", "c"].iter().map(|s| s.to_string()).collect();
    cache.insert(key_for("b"), &bits(&[0.0, 1.0]));
    let plan = vectors::plan_encoding(&cache, &texts);
    assert!(!plan.misses.contains(&1));
    let made: Vec<Vec<u32>> = plan.misses.iter().map(|_| bits(&[1.0, 0.0])).collect();
    vectors::store_vectors(&mut cache, &plan.keys, &plan.misses, &made);
    let all = vectors::cached_vectors(&cache, &plan.keys).unwrap();
    assert_eq!(all.len(), 4);
    assert_eq!(all[1], bits(&[0.0, 1.0]));
    assert_eq!(all[3], bits(&[1.0, 0.0]));
    assert_eq!(
        vectors::cached_vectors(&EmbedCache::new(2), &plan.keys).err(),
        Some(0)
    );
}

#[test]
fn key_tables_read_back() {
    let keys = vec![7u64, u64::MAX, 0];
    let bytes = vectors::write_keys(&keys);
    assert_eq!(bytes.len(), 24);
    assert_eq!(vectors::read_keys(&bytes), keys);
}

#[test]
fn quantizing_reuses_what_is_known() {
    let mut cache = EmbedCache::new(2);
    cache.set_quantizer(9, 1);
    cache.insert(1, &bits(&[1.0, 0.0]));
    cache.insert(2, &bits(&[0.0, 1.0]));
    cache.set_quant(1, 4, &[8]);
    let keys = [1u64, 2];
    let fresh = vectors::plan_quantizing(&cache, &keys);
    assert_eq!(fresh, vec![1]);
    let q = vectors::quantize(&mut cache, &keys, &fresh, &[(5, vec![6])]);
    assert_eq!(q.assignment, vec![4, 5]);
    assert_eq!(q.codes, vec![8, 6]);
    assert!(vectors::plan_quantizing(&cache, &keys).is_empty());
    assert_eq!(vectors::clusters_to_train(3, 100), 3);
    assert_eq!(vectors::clusters_to_train(0, 100), ivf::default_num_clusters(100));
    assert!(!vectors::quantizer_fits(10, 4, 1000, true));
}

// --- clusters and codes ----------------------------------------------------

fn two_clusters() -> Vec<u8> {
    let centroids = bits(&[1.0, 0.0, 0.0, 0.0, 0.0, 1.0, 0.0, 0.0]);
    ivf::write_with_centroids(&[10, 10, 10, 10], &centroids, &[0, 0, 1, 1], 4, 4, 2).unwrap()
}

#[test]
fn few_documents_have_few_clusters() {
    for n in 0..4 {
        assert_eq!(ivf::default_num_clusters(n), 1);
    }
    assert_eq!(ivf::default_num_clusters(4), 2);
    for n in 2..200 {
        assert!(ivf::default_num_clusters(n) <= (n / 2).max(1));
    }
}

#[test]
fn documents_of_clusters_ascend_and_come_once() {
    let ivf = IvfIndex::open(&two_clusters()).unwrap();
    assert_eq!(ivf.docs_in_clusters(&[1, 0]), vec![0, 1, 2, 3]);
    assert_eq!(ivf.docs_in_clusters(&[0, 0]), vec![0, 1]);
    assert_eq!(ivf.docs_in_clusters(&[1]), vec![2, 3]);
    assert!(ivf.docs_in_clusters(&[]).is_empty());
}

#[test]
fn clusters_read_back_and_are_probed() {
    let ivf = IvfIndex::open(&two_clusters()).unwrap();
    assert!(ivf.is_consistent());
    assert_eq!(ivf.num_clusters(), 2);
    assert_eq!(ivf.num_docs(), 4);
    assert_eq!(ivf.cluster_of(0), ivf.cluster_of(1));
    assert_ne!(ivf.cluster_of(0), ivf.cluster_of(2));
    let probed = ivf.probe(&[order_key(1.0f32.to_bits()), order_key(0)], 1);
    assert_eq!(probed, vec![0, 1]);
    let c = ivf::read_centroids(&two_clusters()).unwrap();
    assert_eq!((c.k, c.dim), (2, 4));
    assert_eq!(f32::from_bits(c.values[0]), 1.0);
    assert_eq!(ivf::assign_one(&[3, 9, 9]), 1);
    let docs = hybrid::pool_docs(Some(&ivf), &[1, 2], 1, 4);
    assert_eq!(docs, vec![2, 3]);
    assert_eq!(hybrid::pool_docs(None, &[], 1, 3), vec![0, 1, 2]);
}

#[test]
fn damaged_cluster_files_are_refused() {
    let good = two_clusters();
    assert_eq!(IvfIndex::open(&[]).err(), Some(IvfError::NotAnIvfFile));
    let mut b = good.clone();
    b[8] = 7;
    assert_eq!(IvfIndex::open(&b).err(), Some(IvfError::UnsupportedVersion(7)));
    assert_eq!(
        IvfIndex::open(&good[..40]).err(),
        Some(IvfError::TruncatedBeforeBlocks)
    );
    // The postings behind the tables are looked at when they are used.
    let cut = IvfIndex::open(&good[..good.len() - 1]).unwrap();
    assert!(!cut.is_consistent());
    assert_eq!(
        ivf::write_with_centroids(&[], &[], &[], 0, 4, 2).err(),
        Some(IvfError::NoDocuments)
    );
    assert_eq!(
        ivf::write_with_centroids(&[1], &bits(&[1.0]), &[0, 0], 2, 1, 1).err(),
        Some(IvfError::LengthsMismatch)
    );
}

#[test]
fn candidate_estimate_drives_the_pq_decision() {
    // Full scan: every document is a candidate.
    assert_eq!(estimated_candidates(5_000, 0, 0), 5_000);
    // IVF: a query opens nprobe of num_clusters lists.
    assert_eq!(estimated_candidates(32_000, 256, 8), 1_000);
    assert_eq!(estimated_candidates(800, 57, 8), 112);
    // nprobe cannot exceed the cluster count.
    assert_eq!(estimated_candidates(1_000, 10, 99), 1_000);

    // A small repo scores far too few documents for ADC to pay for its
    // table build; a large one clears the bar.
    assert!(!worth_using(estimated_candidates(800, 57, 8)));
    assert!(!worth_using(estimated_candidates(13_000, 228, 8)));
    assert!(worth_using(estimated_candidates(31_000, 256, 8)));
    assert!(worth_using(estimated_candidates(1_000_000, 256, 8)));
}

#[test]
fn codes_read_back() {
    let (m, sub, ks) = (2usize, 1usize, 2usize);
    let books: Vec<u32> = bits(&vec![0.5; m * 256 * sub]);
    let bytes = pq::write_with_codebooks(&books, &[0, 1, 1, 0, 1, 1], 3, m, sub, ks).unwrap();
    let index = PqIndex::open(bytes.clone()).unwrap();
    assert_eq!(index.codes_of(1), &[1, 0]);
    assert_eq!(index.m(), 2);
    assert_eq!(index.ks_used(), 2);
    let back = pq::read_codebooks(bytes.clone()).unwrap();
    assert_eq!((back.m, back.sub, back.ks_used), (m, sub, ks));
    assert_eq!(PqIndex::open(Vec::new()).err(), Some(PqError::NotAPqFile));
    let mut cut = bytes;
    cut.pop();
    assert_eq!(PqIndex::open(cut).err(), Some(PqError::Truncated));
    assert_eq!(
        pq::write_with_codebooks(&books, &[0], 3, m, sub, ks).err(),
        Some(PqError::CodesMismatch)
    );
}

#[test]
fn trained_quantizers_are_remembered() {
    let clusters = IvfIndex::open(&two_clusters()).unwrap();
    let books: Vec<u32> = bits(&vec![0.5; 2 * 256]);
    let bytes = pq::write_with_codebooks(&books, &[0, 1, 1, 0, 1, 1, 0, 0], 4, 2, 1, 2).unwrap();
    let codes = PqIndex::open(bytes).unwrap();
    let mut cache = EmbedCache::new(4);
    cache.insert(11, &bits(&[1.0, 0.0, 0.0, 0.0]));
    cache.insert(13, &bits(&[0.0, 1.0, 0.0, 0.0]));
    vectors::seed_quantizer(&mut cache, 77, 2, &[11, 12, 13, 14], &clusters, &codes);
    assert_eq!(cache.quantizer(), 77);
    assert_eq!(cache.get_quant(11), Some((0, &[0u8, 1][..])));
    assert_eq!(cache.get_quant(13), Some((1, &[1u8, 1][..])));
    assert!(cache.get_quant(12).is_none());
}

// --- the graph -------------------------------------------------------------

fn random_vectors(n: usize) -> Vec<Vec<f32>> {
    let mut random = 17u64;
    (0..n)
        .map(|_| {
            let mut v: Vec<_> = (0..32)
                .map(|_| {
                    random ^= random << 13;
                    random ^= random >> 7;
                    random ^= random << 17;
                    (random >> 40) as f32 / 8388608.0 - 1.0
                })
                .collect();
            l2_normalize(&mut v);
            v
        })
        .collect()
}

fn key(x: f32) -> u32 {
    order_key(x.to_bits())
}

fn graph_of(rows: &[Vec<f32>], generation: (u64, u128)) -> HnswIndex {
    let pair = |a: u32, b: u32| key(cosine(&rows[a as usize], &rows[b as usize]));
    let finite = vec![true; rows.len()];
    HnswIndex::build(rows.len() as u32, 32, generation, &finite, &pair).unwrap()
}

#[test]
fn roundtrip_recall_and_tombstone_fallback() {
    let data = random_vectors(2064);
    let store = store_of(&data[..2048]);
    let docs = rows(&store);
    let graph = graph_of(&docs, (1, 2));
    let bytes = graph.save();
    let loaded = HnswIndex::open(&bytes, 2048, 32, (1, 2)).unwrap();
    let mut recovered = 0;
    for query in &data[2048..] {
        let score = |d: u32| key(cosine(&docs[d as usize], query));
        let mut truth: Vec<Neighbor> = (0..2048)
            .map(|id| Neighbor {
                doc_id: id,
                score: score(id),
            })
            .collect();
        truth.sort_by(|a, b| (b.score, a.doc_id).cmp(&(a.score, b.doc_id)));
        let found = loaded.search(&score, 10, 128, &|_| true);
        assert_eq!(
            found.hits,
            graph.search(&score, 10, 128, &|_| true).hits
        );
        assert!(!found.exact_fallback);
        recovered += found
            .hits
            .iter()
            .filter(|h| truth[..10].contains(h))
            .count();
    }
    assert!(recovered >= 152, "held-out recall@10: {recovered}/160");
    let score = |d: u32| key(cosine(&docs[d as usize], &data[2048]));
    let only_two = loaded.search(&score, 10, 32, &|id| id >= 2046);
    assert!(only_two.exact_fallback);
    assert_eq!(only_two.hits.len(), 2);
    assert!(only_two.hits.iter().all(|h| h.doc_id >= 2046));
    let zero = |d: u32| key(cosine(&docs[d as usize], &data[0]));
    let all_dead = loaded.search(&zero, 10, 32, &|_| false);
    assert!(all_dead.hits.is_empty());
    assert!(loaded.search(&zero, 0, 32, &|_| true).hits.is_empty());
    // Large ef uses the same exact scoring and deterministic tie order.
    let exhaustive = loaded.search(&score, 2048, 2048, &|_| true);
    assert_eq!(exhaustive.hits.len(), 2048);
}

#[test]
fn rejects_corrupt_and_stale_graphs() {
    let docs = rows(&store_of(&random_vectors(32)));
    let graph = graph_of(&docs, (5, 6));
    let bytes = graph.save();
    let open = |b: &[u8]| HnswIndex::open(b, 32, 32, (5, 6));
    for len in [0, 8, 43, bytes.len() - 1] {
        assert!(open(&bytes[..len]).is_err());
    }
    let mut corrupt = bytes.clone();
    corrupt[44] = 255; // first node's layer count
    assert!(open(&corrupt).is_err());
    // Same dimensions/count but a different immutable generation must fail.
    assert!(!graph.matches(32, 32, (5, 7)));
    assert!(graph.matches(32, 32, (5, 6)));
    assert_eq!(
        HnswIndex::open(&bytes, 32, 32, (5, 7)).err(),
        Some(HnswError::Stale)
    );
}

#[test]
fn graphs_need_finite_vectors() {
    let pair = |_: u32, _: u32| 0u32;
    assert_eq!(
        HnswIndex::build(0, 32, (0, 0), &[], &pair).err(),
        Some(BuildError::Empty)
    );
    assert_eq!(
        HnswIndex::build(2, 32, (0, 0), &[true, false], &pair).err(),
        Some(BuildError::NonFinite(1))
    );
    assert!(build_if_large(MIN_DOCS, 32, (0, 0), None));
    assert!(build_if_large(MIN_DOCS, 32, (0, 0), Some(&[])));
    assert!(!build_if_large(MIN_DOCS - 1, 32, (0, 0), None));
}

#[test]
fn a_graph_is_built_once() {
    let finite = vec![true; MIN_DOCS as usize];
    let pair = |a: u32, b: u32| a.abs_diff(b);
    let graph = HnswIndex::build(MIN_DOCS, 32, (3, 4), &finite, &pair).unwrap();
    let bytes = graph.save();
    assert!(!build_if_large(MIN_DOCS, 32, (3, 4), Some(&bytes)));
    assert!(build_if_large(MIN_DOCS, 32, (3, 5), Some(&bytes)));
    assert!(build_if_large(MIN_DOCS + 1, 32, (3, 4), Some(&bytes)));
}

// --- fused rankings --------------------------------------------------------

fn fusion_store() -> EmbeddingStore {
    // doc 0 aligned with query, doc 1 orthogonal, doc 2 in between
    let mut d0 = vec![1.0f32, 0.0, 0.0, 0.0];
    let mut d1 = vec![0.0, 1.0, 0.0, 0.0];
    let mut d2 = vec![0.6, 0.8, 0.0, 0.0];
    l2_normalize(&mut d0);
    l2_normalize(&mut d1);
    l2_normalize(&mut d2);
    store_of(&[d0, d1, d2])
}

fn one(x: f64) -> i64 {
    (x * 16777216.0) as i64
}

#[test]
fn weighted_fusion_promotes_semantic_match() {
    let store = fusion_store();
    let query = [1.0f32, 0.0, 0.0, 0.0];
    // BM25 ranked doc1 first (wrong), doc0 second (right).
    let bm25 = [
        SearchHit {
            doc_id: 1,
            score: 10 << 24,
        },
        SearchHit {
            doc_id: 0,
            score: 1 << 24,
        },
    ];
    let sims: Vec<i32> = bm25
        .iter()
        .map(|h| sim(cosine(&row(&store, h.doc_id), &query)))
        .collect();
    let bm25_only = hybrid::rerank(&bm25, &sims, Fusion::weighted(one(1.0)), 2);
    assert_eq!(bm25_only[0].doc_id, 1);

    let hybrid = hybrid::rerank(&bm25, &sims, Fusion::weighted(one(0.3)), 2);
    assert_eq!(hybrid[0].doc_id, 0, "semantic should override weak BM25");

    let rrf = hybrid::rerank(&bm25, &sims, Fusion::rrf(one(60.0)), 2);
    assert_eq!(rrf[0].doc_id, 0);
}

#[test]
fn merge_recovers_encoder_hit_that_bm25_missed() {
    let store = fusion_store();
    let query = [1.0f32, 0.0, 0.0, 0.0];
    // Lexical retriever never saw doc 0; the encoder should still.
    let bm25 = [SearchHit {
        doc_id: 1,
        score: 10 << 24,
    }];
    let all: Vec<i32> = (0..3).map(|d| sim(cosine(&row(&store, d), &query))).collect();
    let sem = hybrid::brute_force_semantic(&all, 3);
    let merged = hybrid::merge_retrieve(&bm25, &all[1..2], &sem, Fusion::weighted(one(0.2)), 2);
    assert_eq!(merged[0].doc_id, 0);
    assert!(merged[0].bm25 == 0);
}

// --- ranked queries --------------------------------------------------------

fn doc(id: &str, body: &str) -> DocTokens {
    DocTokens {
        doc: InputDoc {
            id: id.to_string(),
            title: id.to_string(),
            body: body.to_string(),
        },
        title_tokens: Vec::new(),
        body_tokens: body.split(' ').map(str::to_string).collect(),
    }
}

fn terms(text: &str) -> Vec<String> {
    text.split(' ').map(str::to_string).collect()
}

#[test]
fn ranked_queries_follow_their_mode() {
    let docs = vec![doc("d0", "alpha"), doc("d1", "beta"), doc("d2", "beta gamma")];
    let index = build_index(&docs, false, 128, ReorderStrategy::Keep);
    let store = fusion_store();
    let open = |embeddings: Option<EmbeddingStore>| {
        let index = build_index(&docs, false, 128, ReorderStrategy::Keep);
        AnyIndex::open(
            IndexKind::Single(Box::new(index)),
            false,
            0,
            embeddings,
            None,
            None,
            Vec::new(),
        )
    };
    assert_eq!(index.num_docs(), 3);
    let any = open(Some(store));
    let sims = [16777216i32, 0, 10066329];
    let by_doc = |d: u32| sims[d as usize];
    let by_segment = |_: usize, d: u32| sims[d as usize];
    let opts = SearchOpts {
        mode: RankMode::Semantic,
        ..SearchOpts::default()
    };
    let run = query::run_ranked_with(
        &any,
        &terms("beta"),
        2,
        &opts,
        &[],
        &by_segment,
        &by_doc,
        &by_doc,
    )
    .ok()
    .unwrap();
    let ids: Vec<&str> = run.results.iter().map(|r| r.id.as_str()).collect();
    assert_eq!(ids, ["d0", "d2"]);
    let rerank = SearchOpts {
        mode: RankMode::Rerank,
        fusion: FusionArg::Weighted,
        ..opts
    };
    let run = query::run_ranked_with(
        &any,
        &terms("beta"),
        5,
        &rerank,
        &[],
        &by_segment,
        &by_doc,
        &by_doc,
    )
    .ok()
    .unwrap();
    let ids: Vec<&str> = run.results.iter().map(|r| r.id.as_str()).collect();
    assert_eq!(ids, ["d2", "d1"], "only what BM25 found");
    let bare = open(None);
    let failed = query::run_ranked_with(
        &bare,
        &terms("beta"),
        5,
        &opts,
        &[],
        &by_segment,
        &by_doc,
        &by_doc,
    );
    assert_eq!(failed.err(), Some(QueryError::NoEmbeddings));
    assert!(query::choose_pq(&any, &SearchOpts { pq: PqMode::Force, ..opts }).is_none());
    assert_eq!(query::require_semantic(false), Err(QueryError::NoEncoder));
    assert_eq!(query::require_semantic(true), Ok(()));
}

#[test]
fn misspelt_queries_are_corrected() {
    let docs: Vec<DocTokens> = (0..4).map(|i| doc(&format!("d{i}"), "pizza montreal")).collect();
    let index = build_index(&docs, false, 128, ReorderStrategy::Keep);
    let mut any = AnyIndex::open(
        IndexKind::Single(Box::new(index)),
        false,
        123,
        None,
        None,
        None,
        Vec::new(),
    );
    assert_eq!(any.size_bytes(), 123);
    assert_eq!(any.term_df("pizza"), 4);
    let out = any.search(&terms("pizzza"), 10);
    assert_eq!(out.results.len(), 4);
    assert!(out.corrected.unwrap().contains("pizza"));
    let out = any.search(&terms("pizza"), 10);
    assert!(out.corrected.is_none());
}

// --- segments --------------------------------------------------------------

#[test]
fn stored_segments_open_as_they_were() {
    let docs = [doc("a", "alpha beta"), doc("b", "beta")];
    let mut index = SegmentedIndex::new(false, 1, false);
    index.add_documents(&docs).ok().unwrap();
    assert!(index.delete_document("a"));
    let dead = write_tombstones(&index.segments[0].deleted);
    let mut opened = SegmentedIndex::new(false, 1, false);
    opened.next_segment = 7;
    assert!(opened.open_segment("seg-000003".to_string(), &docs, &dead).is_ok());
    assert_eq!(opened.segment_names(), vec!["seg-000003".to_string()]);
    assert_eq!(opened.num_docs_live(), 1);
    assert!(!opened.is_live(0, 0));
    assert!(opened.is_live(0, 1));
    assert!(opened.open_segment("seg-000004".to_string(), &[], &dead).is_err());
    // The next segment goes by the number that was stored.
    assert_eq!(opened.update_document(doc("b", "gamma")), "seg-000007");
    assert_eq!(opened.num_docs_live(), 1);
    assert!(!opened.is_live(0, 1));
    let hits = opened.search_hits_raw(&terms("gamma"), 5);
    assert_eq!((hits[0].segment, hits[0].doc_id), (1, 0));
    assert!(opened.search_hits_raw(&terms("alpha"), 5).is_empty());
}

#[test]
fn leftovers_are_collected() {
    let listed = vec!["seg-000001".to_string()];
    assert_eq!(leftover("seg-000001", true, &listed), Leftover::Keep);
    assert_eq!(leftover("seg-000002", true, &listed), Leftover::RemoveDir);
    assert_eq!(leftover("seg-000002", false, &listed), Leftover::Keep);
    assert_eq!(leftover("seg-000001.del", false, &listed), Leftover::Keep);
    assert_eq!(leftover("seg-000002.del", false, &listed), Leftover::RemoveFile);
    assert_eq!(leftover("repo.json", false, &listed), Leftover::Keep);
    assert_eq!(leftover("other", true, &listed), Leftover::Keep);
}

#[test]
fn tombstones_round_trip() {
    let mut words = vec![0u64; 3];
    set_bit(&mut words, 0);
    set_bit(&mut words, 129);
    let back = read_tombstones(&write_tombstones(&words), 130);
    assert!(bit_is_set(&back, 0));
    assert!(bit_is_set(&back, 129));
    assert!(!bit_is_set(&back, 64));
    assert!(!bit_is_set(&back, 5000));
}

#[test]
fn segments_are_updated_and_merged() {
    let mut index = SegmentedIndex::new(false, 1, false);
    let first = vec![doc("a", "alpha beta"), doc("b", "beta")];
    assert!(index.room_for(&first));
    index.add_documents(&first).unwrap();
    // An unchanged batch is a no-op.
    assert_eq!(index.upsert_documents(&first), (0, 0, 2));
    assert_eq!(index.num_segments(), 1);
    let second = vec![doc("b", "gamma"), doc("c", "beta")];
    assert_eq!(index.upsert_documents(&second), (1, 1, 0));
    assert_eq!(index.num_docs_live(), 3);
    assert_eq!(index.num_segments(), 2);
    assert!(index.delete_document("a"));
    assert!(!index.delete_document("a"));
    let (hits, _) = index.search_core(&terms("beta"), 10);
    assert_eq!(hits.len(), 1);
    assert_eq!(index.doc_summary_in(hits[0].segment, hits[0].doc_id).id, "c");
    assert!(index.can_merge());
    index.merge_all();
    assert_eq!(index.num_segments(), 1);
    assert_eq!(index.num_docs_live(), 2);
    assert_eq!(index.term_df("beta"), 1);
    assert_eq!(index.term_df("gamma"), 1);
    let mut fresh = SegmentedIndex::new(false, 1, false);
    assert!(fresh.add_documents(&[]).is_err());
}

#[test]
fn merging_builds_afresh() {
    let mut index = SegmentedIndex::new(false, 1, false);
    index.add_documents(&[doc("a", "alpha beta"), doc("b", "beta")]).unwrap();
    index.add_documents(&[doc("c", "gamma beta")]).unwrap();
    index.delete_document("a");
    index.merge_all();
    let fresh = build_index_weighted(
        &[doc("b", "beta"), doc("c", "gamma beta")],
        false,
        1,
        128,
        ReorderStrategy::Keep,
    );
    let merged = &index.segments[0].index;
    assert_eq!(merged.terms.names, vec!["beta", "gamma"]);
    assert_eq!(merged.terms.names, fresh.terms.names);
    assert_eq!((merged.block_size, merged.avg_doc_len), (fresh.block_size, fresh.avg_doc_len));
    for (m, f) in merged.posting_lists.iter().zip(&fresh.posting_lists) {
        assert_eq!((&m.postings, m.idf), (&f.postings, f.idf));
    }
}

#[test]
fn a_second_merge_changes_nothing() {
    let mut index = SegmentedIndex::new(false, 1, false);
    index.add_documents(&[doc("a", "alpha beta"), doc("b", "beta")]).unwrap();
    index.add_documents(&[doc("c", "beta")]).unwrap();
    index.delete_document("b");
    index.merge_all();
    let ids = |x: &SegmentedIndex| {
        (0..x.num_docs_in(0) as u32).map(|d| x.doc_summary_in(0, d).id).collect::<Vec<_>>()
    };
    assert_eq!(ids(&index), vec!["a", "c"]);
    assert_eq!(index.term_df("beta"), 2);
    let (name, next) = (index.segments[0].name.clone(), index.next_segment);
    index.merge_all();
    assert_eq!((index.segments[0].name.clone(), index.next_segment), (name, next));
    assert_eq!(ids(&index), vec!["a", "c"]);
}

#[test]
fn terms_of_tombstoned_documents_still_weigh_something() {
    let mut index = SegmentedIndex::new(false, 1, false);
    index.add_documents(&[doc("a", "alpha"), doc("b", "alpha"), doc("c", "alpha")]).unwrap();
    index.delete_document("a");
    index.delete_document("b");
    // Three documents hold the term, one is alive.
    assert_eq!(index.term_df("alpha"), 3);
    let (hits, stats) = index.search_core(&terms("alpha"), 10);
    assert_eq!(hits.len(), 1);
    assert!(hits[0].score > 0);
    assert_eq!((stats.num_docs_total, stats.num_docs_scored), (1, 3));
    assert_eq!(stats.num_postings_visited, 3);
}

#[test]
fn upserts_count_every_id_once() {
    let mut index = SegmentedIndex::new(false, 1, false);
    index.add_documents(&[doc("a", "alpha"), doc("b", "beta")]).unwrap();
    let batch = [doc("a", "one"), doc("b", "beta"), doc("c", "x"), doc("a", "two")];
    let (added, updated, unchanged) = index.upsert_documents(&batch);
    assert_eq!((added, updated, unchanged), (1, 1, 1));
    assert_eq!(index.num_docs_live(), 3);
    // The last document of the id counts.
    assert!(index.search_core(&terms("one"), 5).0.is_empty());
    assert_eq!(index.search_core(&terms("two"), 5).0.len(), 1);
    assert_eq!(index.upsert_documents(&batch), (0, 0, 3));
}

#[test]
fn an_upserted_batch_stays() {
    let mut index = SegmentedIndex::new(false, 1, false);
    let batch = [doc("a", "alpha"), doc("b", "beta gamma")];
    assert_eq!(index.upsert_documents(&batch), (2, 0, 0));
    assert_eq!(index.upsert_documents(&batch), (0, 0, 2));
    assert_eq!((index.num_segments(), index.num_docs_live()), (1, 2));
}

#[test]
fn merging_carries_the_keys() {
    let mut index = SegmentedIndex::new(false, 1, false);
    index.add_documents(&[doc("a", "alpha"), doc("b", "beta")]).unwrap();
    index.add_documents(&[doc("c", "gamma")]).unwrap();
    index.delete_document("a");
    let keys = vectors::merge_segments(&mut index, &vec![vec![1, 2], vec![3]]);
    assert_eq!(keys.ok(), Some(vec![2, 3]));
    let mut index = SegmentedIndex::new(false, 1, false);
    index.add_documents(&[doc("a", "alpha")]).unwrap();
    index.add_documents(&[doc("c", "gamma")]).unwrap();
    assert!(matches!(
        vectors::merge_segments(&mut index, &vec![vec![1], vec![]]),
        Err(vectors::MergeError::NoKey(1))
    ));
    let mut empty = SegmentedIndex::new(false, 1, false);
    assert!(matches!(
        vectors::merge_segments(&mut empty, &Vec::new()),
        Err(vectors::MergeError::SegmentsLeft(0))
    ));
}

// --- building on disk ------------------------------------------------------

#[test]
fn spilled_shards_merge_to_full_lists() {
    let t = |term, doc, tf| Triple { term, doc, tf };
    let shards = vec![
        spill(&vec![t(1, 0, 2), t(0, 0, 1), t(1, 1, 1)]),
        spill(&vec![t(1, 2, 5)]),
    ];
    let slices: Vec<&[u8]> = shards.iter().map(Vec::as_slice).collect();
    let mut merger = Merger::open(&slices).ok().unwrap();
    assert_eq!(merger.next_list().ok().unwrap(), vec![Posting { doc_id: 0, tf: 1 }]);
    assert_eq!(
        merger.next_list().ok().unwrap(),
        vec![
            Posting { doc_id: 0, tf: 2 },
            Posting { doc_id: 1, tf: 1 },
            Posting { doc_id: 2, tf: 5 }
        ]
    );
    let cut = [&slices[0][..slices[0].len() - 1]];
    let mut merger = Merger::open(&cut).ok().unwrap();
    assert!(merger.next_list().is_err() || merger.next_list().is_err());
    assert_eq!(merge_shards(&cut, 2, &[3, 2, 5], 128).err(), Some(ExternalError::TruncatedShard));
    // Backwards, the lists do not ascend; document 2 is not among two.
    let backwards = [slices[1], slices[0]];
    assert_eq!(merge_shards(&backwards, 2, &[3, 2, 5], 128).err(), Some(ExternalError::OutOfOrder));
    assert_eq!(merge_shards(&slices, 2, &[3, 2], 128).err(), Some(ExternalError::OutOfOrder));
    let merged = merge_shards(&slices, 2, &[3, 2, 5], 128).ok().unwrap();
    assert_eq!(merged.tables.term_dfs, vec![1, 3]);
    assert_eq!(merged.tables.region_offsets[2], merged.packed.len() as u64);
}

#[test]
fn chunks_spill_when_the_buffer_is_full() {
    let mut b = ExternalBuilder::new(1, 3);
    assert!(b.add_chunk(&[doc("a", "alpha beta")]).is_none());
    let shard = b.add_chunk(&[doc("b", "beta")]).unwrap();
    assert_eq!(shard, spill(&vec![
        Triple { term: 0, doc: 0, tf: 1 },
        Triple { term: 1, doc: 0, tf: 1 },
        Triple { term: 1, doc: 1, tf: 1 },
    ]));
    assert!(b.spill_pending().is_none());
}

#[test]
fn external_and_memory_builds_agree() {
    let docs = [
        doc("a", "zeta alpha beta alpha"),
        doc("b", "beta gamma"),
        doc("c", "alpha"),
    ];
    let memory = build_index_weighted(&docs, true, 2, 128, ReorderStrategy::Keep);
    let built = build_index_external(&docs, 2, 128, 2).ok().unwrap();
    assert_eq!(built.doc_lens, vec![4, 2, 1]);
    assert_eq!(built.avg_doc_len, memory.avg_doc_len());
    assert_eq!(built.terms.names.len(), memory.num_terms());
    let names: Vec<&str> =
        built.name_to_slot.iter().map(|&s| built.terms.names[s as usize].as_str()).collect();
    assert_eq!(names, vec!["alpha", "beta", "gamma", "zeta"]);
    for (slot, name) in built.terms.names.iter().enumerate() {
        let list = &memory.posting_list_for(name).unwrap().postings;
        assert_eq!(built.merged.tables.term_dfs[slot] as usize, list.len());
        let e = encode_term(list, &built.doc_lens, 128);
        let from = built.merged.tables.region_offsets[slot] as usize;
        let to = built.merged.tables.region_offsets[slot + 1] as usize;
        assert_eq!(&built.merged.packed[from..to], e.bytes.as_slice());
    }
    assert!(build_index_external(&[], 1, 128, 2).ok().unwrap().merged.packed.is_empty());
}

#[test]
fn external_builds_count_terms_postings_and_shards() {
    let titled = |id: &str, title: &str, body: &str| DocTokens {
        title_tokens: terms(title),
        ..doc(id, body)
    };
    let docs = [
        titled("d0", "pizza place", "cheap pizza pizza montreal"),
        titled("d2", "pizza oven", "wood fired pizza"),
    ];
    let built = build_index_external(&docs, 1, 128, 1000).ok().unwrap();
    assert_eq!(built.doc_lens, vec![6, 5]);
    assert_eq!(
        built.terms.names,
        vec!["pizza", "place", "cheap", "montreal", "oven", "wood", "fired"]
    );
    assert_eq!(built.merged.tables.num_postings, 8);
    assert_eq!(built.num_shards, 1);
    assert_eq!(build_index_external(&docs, 1, 128, 1).ok().unwrap().num_shards, 1);
    assert_eq!(build_index_external(&[], 1, 128, 1).ok().unwrap().num_shards, 0);
    assert!(terms_fit(&docs));
}

#[test]
fn term_tables_grow_with_the_terms() {
    let mut b = ExternalBuilder::new(1, 1);
    b.add_document(&doc("a", "alpha beta alpha"));
    b.add_document(&doc("b", "beta"));
    assert!(b.must_spill());
    let shard = b.spill_pending().unwrap();
    let mut merger = Merger::open(&[shard.as_slice()]).ok().unwrap();
    let mut tables = TermTables::new();
    for _ in 0..2 {
        let list = merger.next_list().ok().unwrap();
        let e = encode_term(&list, &[3, 1], 128);
        tables.push_term(&e);
    }
    assert_eq!(tables.num_postings, 3);
    assert_eq!(tables.term_dfs, vec![1, 2]);
    assert_eq!(tables.term_max_tfs, vec![2, 1]);
    assert_eq!(tables.term_min_lens, vec![3, 1]);
}

#[test]
fn other_formats_are_not_migrated() {
    assert_eq!(
        migrate::read_v3(&[0; 300]).err(),
        Some(migrate::MigrateError::NotOldFormat)
    );
    assert_eq!(migrate::read_v3(&[]).err(), Some(migrate::MigrateError::NotOldFormat));
    assert_eq!(migrate::id_bytes(&[9, 2, 0, b'a', b'b', 7], 1), Some(&b"ab"[..]));
    assert_eq!(migrate::id_bytes(&[9, 2, 0, b'a'], 1), None);
    assert_eq!(migrate::id_bytes(&[9], 0), None);
}

#[test]
fn migration_recomputes_the_bounds() {
    let docs = [doc("a", "alpha beta alpha"), doc("b", "beta")];
    let built = build_index_external(&docs, 1, 128, 100).ok().unwrap();
    let t = &built.merged.tables;
    let words = |v: &[u32]| v.iter().flat_map(|x| x.to_le_bytes()).collect::<Vec<u8>>();
    let longs = |v: &[u64]| v.iter().flat_map(|x| x.to_le_bytes()).collect::<Vec<u8>>();
    let records = [1, 0, b'a', 2, 0, b'b', b'b'];
    let mut sections: Vec<Vec<u8>> = vec![Vec::new(); migrate::V3_NUM_SECTIONS];
    sections[migrate::V3_DOC_LENS] = words(&built.doc_lens);
    sections[migrate::V3_DOC_OFFSETS] = longs(&[0, 3, 7]);
    sections[migrate::V3_TERM_DFS] = words(&t.term_dfs);
    sections[migrate::V3_REGION_OFFSETS] = longs(&t.region_offsets);
    sections[migrate::V3_BLOCK_ROWS] = words(&t.block_rows);
    sections[migrate::V3_NAME_TO_SLOT] = words(&built.name_to_slot);
    sections[migrate::V3_BLOCK_MAX_DOC_IDS] = words(&t.block_max_doc_ids);
    sections[migrate::V3_BLOCK_BYTE_OFFSETS] = words(&t.block_byte_offsets);
    let mut header = longs(&[3, 0, 0, 128, 1, 0]);
    let mut body: Vec<u8> = Vec::new();
    for section in &sections {
        let at = migrate::V3_HEADER_BYTES + body.len();
        header.extend(longs(&[at as u64, section.len() as u64]));
        body.extend(section);
    }
    let meta = [b"MVPSRCH3".to_vec(), header, body].concat();
    let new = migrate::migrate_v3_to_v4(&meta, &built.merged.packed, &records).ok().unwrap();
    assert_eq!(new.pairs.block_max_tfs, t.block_max_tfs);
    assert_eq!(new.pairs.block_min_lens, t.block_min_lens);
    assert_eq!(new.pairs.term_max_tfs, t.term_max_tfs);
    assert_eq!(new.pairs.term_min_lens, t.term_min_lens);
    assert_eq!(new.ids, vec![b"a".to_vec(), b"bb".to_vec()]);
    assert!(new.meta.remove_stopwords);
    // What is not read may point anywhere.
    let mut odd = meta.clone();
    for section in [5, 8] {
        let at = 8 + 48 + 16 * section;
        odd[at..at + 16].fill(0xff);
    }
    let same = migrate::migrate_v3_to_v4(&odd, &built.merged.packed, &records).ok().unwrap();
    assert_eq!(same.pairs.block_max_tfs, new.pairs.block_max_tfs);
    assert_eq!(same.pairs.term_min_lens, new.pairs.term_min_lens);
    // A record behind the end, and postings that are not there.
    let damaged = Some(migrate::MigrateError::Damaged);
    assert_eq!(migrate::migrate_v3_to_v4(&meta, &built.merged.packed, &records[..6]).err(), damaged);
    assert_eq!(migrate::migrate_v3_to_v4(&meta, &[], &records).err(), damaged);
    assert_eq!(
        migrate::migrate_v3_to_v4(&meta[..meta.len() - 1], &built.merged.packed, &records).err(),
        damaged
    );
    let mut other = meta.clone();
    other[8] = 4;
    assert_eq!(
        migrate::migrate_v3_to_v4(&other, &built.merged.packed, &records).err(),
        Some(migrate::MigrateError::UnexpectedVersion)
    );
}

// --- the encoder -----------------------------------------------------------

#[test]
fn queries_are_encoded_behind_their_prefix_and_once() {
    let mut cache = QueryCache::new();
    let text = embedder::query_text("find it");
    assert_eq!(text, format!("{}find it", embedder::QUERY_PREFIX));
    assert!(text.starts_with("Represent this query for searching relevant code: "));
    let encode = |t: String| if t == text { Some(vec![t.len() as u32]) } else { None };
    let made = embedder::embed_query(&mut cache, "find it", &encode);
    assert_eq!(made.ok(), Some(vec![text.len() as u32]));
    let none = |_: String| None;
    let known = embedder::embed_query(&mut cache, "find it", &none);
    assert_eq!(known.ok(), Some(vec![text.len() as u32]));
    assert!(embedder::embed_query(&mut cache, "other", &none).is_err());
    assert!(cache.get("other").is_none());
    assert!(matches!(
        embedder::look_up(&mut cache, "other"),
        embedder::QueryStep::Encode(t) if t == embedder::query_text("other")
    ));
}

fn shape(batch: usize, seq: usize) -> Shape {
    Shape { batch, seq, file: 0 }
}

#[test]
fn partial_families_cannot_silently_shorten_documents() {
    let query_only = Family { docs: vec![], query: Some(shape(1, 64)) };
    assert!(!query_only.supports_documents(512));
    assert!(query_only.supports_queries(64));
    assert!(!query_only.supports_queries(128));
    let partial = Family { docs: vec![shape(8, 128)], query: None };
    assert!(!partial.supports_documents(512));
    assert!(partial.choose_shape(129, 1, &[true]).is_err());
    let mixed = Family { docs: vec![shape(8, 64), shape(4, 512)], query: None };
    assert!(mixed.supports_documents(512));
    assert_eq!(mixed.doc_batch(), 4);
}

#[test]
fn model_names_and_shapes() {
    let found = [
        coreml::parse_model_name("nonsense"),
        Some((8, 512)),
        Some((1, 64)),
        Some((8, 128)),
    ];
    assert_eq!(found[0], None);
    let family = coreml::family(&found).unwrap();
    assert_eq!(family.query, Some(Shape { batch: 1, seq: 64, file: 2 }));
    assert_eq!(family.docs.len(), 2);
    assert_eq!(family.docs[0].seq, 128);
    assert_eq!(family.choose_shape(100, 3, &[true, true]).unwrap().seq, 128);
    assert_eq!(family.choose_shape(100, 3, &[false, true]).unwrap().seq, 512);
    assert_eq!(
        family.choose_shape(600, 3, &[true, true]),
        Err(coreml::ShapeError::TooLong)
    );
    assert_eq!(
        family.choose_shape(100, 3, &[false, false]),
        Err(coreml::ShapeError::NoneStable)
    );
    assert_eq!(
        family.choose_shape(100, 9, &[true, true]),
        Err(coreml::ShapeError::BatchTooLarge)
    );
    assert!(coreml::family(&[None]).is_none());
    assert_eq!(family.query_fits(64).unwrap().file, 2);
    assert!(family.query_fits(65).is_none());
    assert_eq!(coreml::model_dir("/c/hips"), "/c/hips/coreml");
    // Queries need the portable model unless the other has one for them.
    assert!(embedder::portable_needed(true, EmbedUse::Query, false));
    assert!(!embedder::portable_needed(true, EmbedUse::Query, true));
    assert!(!embedder::portable_needed(true, EmbedUse::Index, false));
    assert!(embedder::portable_needed(false, EmbedUse::Index, true));
    let padded = coreml::pad_rows(&vec![vec![1, 2], vec![3]], 3, 3);
    assert_eq!(padded.len(), 9);
    assert_eq!(padded[0], 1);
    assert_eq!(padded[3], 3);
}

#[test]
fn token_bucketing_preserves_rows_ids_masks_and_truncation() {
    // Byte length gives the opposite order to actual token length.
    let texts = ["a b c d e", "long_identifier_without_spaces", "a b"];
    let lens: Vec<u64> = texts
        .iter()
        .map(|t| t.split(' ').count().min(3) as u64)
        .collect();
    let plain = embedder::prepare_window(&lens, 1024, false);
    let sorted = embedder::prepare_window(&lens, 1024, true);
    assert_eq!(sorted, vec![1025, 1026, 1024]);
    assert_eq!(plain, vec![1024, 1025, 1026]);
    for i in sorted {
        assert_eq!(lens[i - 1024], lens[plain[i - 1024] - 1024]);
        assert!(lens[i - 1024] <= 3);
    }
}

#[test]
fn embedding_keeps_the_order_of_the_rows() {
    // More rows than one window, the lengths falling.
    let lens: Vec<u64> = (0..1500u64).rev().collect();
    let number = |rows: &[usize]| {
        assert!(rows.len() <= 7);
        Some(rows.iter().map(|&r| vec![r as u32]).collect::<Vec<_>>())
    };
    let expected: Vec<Vec<u32>> = (0..1500).map(|r| vec![r]).collect();
    assert_eq!(embedder::embed_docs_with(&lens, 7, true, &number), Ok(expected.clone()));
    assert_eq!(embedder::embed_docs_with(&lens, 7, false, &number), Ok(expected));
    // A batch size of nothing is one row; few rows are one batch, as they are.
    let single = |rows: &[usize]| if rows.len() == 1 { Some(vec![vec![1]]) } else { None };
    assert_eq!(embedder::embed_docs_with(&[5, 4], 0, true, &single), Ok(vec![vec![1], vec![1]]));
    let in_order = |rows: &[usize]| {
        if rows == [0usize, 1, 2] { Some(vec![vec![9], vec![8], vec![7]]) } else { None }
    };
    assert_eq!(
        embedder::embed_docs_with(&[3, 2, 1], 8, true, &in_order),
        Ok(vec![vec![9], vec![8], vec![7]])
    );
    assert_eq!(embedder::embed_docs_with(&[], 8, true, &in_order), Ok(vec![]));
    assert_eq!(
        embedder::embed_docs_with(&[1, 1], 8, true, &in_order),
        Err(embedder::EmbedError::Encoder)
    );
    let short = |_: &[usize]| Some(Vec::new());
    assert_eq!(
        embedder::embed_docs_with(&[1, 1], 1, true, &short),
        Err(embedder::EmbedError::BatchSize)
    );
}

#[test]
fn bucketing_is_invisible() {
    let lens = [9u64, 2, 5];
    let ids = embedder::prepare_window(&lens, 0, true);
    let made: Vec<Vec<u32>> = ids.iter().map(|&i| vec![i as u32]).collect();
    let mut out = vec![Vec::new(); 3];
    assert!(embedder::scatter(&mut out, &ids, made));
    assert_eq!(out, vec![vec![0], vec![1], vec![2]]);
    assert!(!embedder::scatter(&mut out, &ids, Vec::new()));
    assert_eq!(embedder::take_unmasked(&[5, 6, 7], &[1, 1, 0]), vec![5, 6]);
    assert_eq!(embedder::token_cap(EmbedUse::Query, Some("999")), 64);
    assert_eq!(embedder::token_cap(EmbedUse::Index, Some("99")), 99);
    assert_eq!(embedder::token_cap(EmbedUse::Index, Some("0")), 512);
    assert_eq!(embedder::batch_size(None), 4);
}

#[test]
fn queries_are_remembered_up_to_a_limit() {
    let mut cache = QueryCache::new();
    assert!(cache.get("q").is_none());
    cache.put("q".to_string(), vec![1]);
    assert_eq!(cache.get("q"), Some(vec![1]));
    for i in 0..embedder::QUERY_CACHE_CAP {
        cache.put(format!("q{i}"), vec![i as u32]);
    }
    assert!(cache.get("q").is_none(), "the oldest has left");
    assert_eq!(cache.get("q0"), Some(vec![0]));
}
