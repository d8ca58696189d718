//! Scoring, posting lists, indexing, searching and spelling.

use hips::block_max_wand;
use hips::block_max_wand::{SearchHit, Threshold, TopK};
use hips::bm25;
use hips::bm25::{idf, term_contribution, AVG_UNIT, ONE};
use hips::compress::{
    bits_needed, block_tf, check_block, decode_block, decode_block_docs, encode_block, BitReader,
    BitWriter,
};
use hips::hash;
use hips::indexer::{
    build_index, build_index_weighted, content_hash, jsonl_lines, DocTokens, Index, InputDoc,
    SearchableIndex,
};
use hips::interner::Interner;
use hips::logarithm;
use hips::maxscore;
use hips::postings::{build_blocks, Posting, PostingList, DEFAULT_BLOCK_SIZE};
use hips::reorder::{bisect, bp_order, bp_order_gpu, swap_by_gains, ReorderStrategy};
use hips::searcher::{query_terms, search};
use hips::spell::{osa_distance, SpellCorrector};

const K1: f64 = 1.2;
const B: f64 = 0.75;

fn fixed(x: f64) -> u64 {
    (x * f64::from(ONE)) as u64
}

fn as_real(x: u64) -> f64 {
    x as f64 / f64::from(ONE)
}

// --- scoring ---------------------------------------------------------------

#[test]
fn top_k_keeps_best_scores() {
    let mut top_k = TopK::new(3);
    for (doc_id, score) in [(0, 1.0), (1, 5.0), (2, 3.0), (3, 4.0), (4, 0.5)] {
        top_k.insert(doc_id, fixed(score));
    }
    let hits = top_k.into_sorted_hits();
    let ids: Vec<u32> = hits.iter().map(|h| h.doc_id).collect();
    assert_eq!(ids, vec![1, 3, 2]);
    assert_eq!(hits[0].score, fixed(5.0));
}

#[test]
fn top_k_threshold_tracks_kth_score() {
    let mut top_k = TopK::new(2);
    assert_eq!(top_k.threshold(), Threshold::NegInfinity);
    top_k.insert(0, fixed(2.0));
    assert_eq!(top_k.threshold(), Threshold::NegInfinity);
    top_k.insert(1, fixed(5.0));
    assert_eq!(top_k.threshold(), Threshold::Score(fixed(2.0)));
    top_k.insert(2, fixed(3.0));
    assert_eq!(top_k.threshold(), Threshold::Score(fixed(3.0)));
    // Equal to threshold: rejected (must strictly beat it).
    assert!(!top_k.insert(3, fixed(3.0)));
    assert!(!top_k.threshold().beaten_by(fixed(3.0)));
    assert!(top_k.threshold().beaten_by(fixed(3.0) + 1));
}

#[test]
fn top_k_breaks_ties_by_smaller_doc_id() {
    let mut top_k = TopK::new(2);
    top_k.insert(7, fixed(1.0));
    top_k.insert(3, fixed(1.0));
    top_k.insert(5, fixed(2.0));
    let hits = top_k.into_sorted_hits();
    let ids: Vec<u32> = hits.iter().map(|h| h.doc_id).collect();
    // Doc 7 and 3 tie at 1.0; the larger doc_id (7) is evicted first.
    assert_eq!(ids, vec![5, 3]);
}

#[test]
fn top_k_of_a_run_is_the_best_of_the_run() {
    let run = [(0, 2), (3, 9), (4, 2), (7, 9), (8, 5), (9, 2)];
    for k in 0..=run.len() {
        let mut top_k = TopK::new(k);
        for (doc_id, score) in run {
            top_k.insert(doc_id, score);
        }
        let mut best = run.to_vec();
        best.sort_by_key(|&(d, s)| (std::cmp::Reverse(s), d));
        best.truncate(k);
        let hits: Vec<(u32, u64)> =
            top_k.into_sorted_hits().iter().map(|h| (h.doc_id, h.score)).collect();
        assert_eq!(hits, best);
    }
}

#[test]
fn top_k_zero_returns_nothing() {
    let mut top_k = TopK::new(0);
    assert!(!top_k.insert(0, fixed(10.0)));
    assert!(top_k.into_sorted_hits().is_empty());
}

#[test]
fn idf_matches_formula() {
    // N = 100, df = 10 -> ln(1 + 90.5 / 10.5)
    let expected = (1.0 + 90.5f64 / 10.5).ln();
    assert!((as_real(u64::from(idf(100, 10))) - expected).abs() < 1e-6);
}

#[test]
fn idf_positive_even_for_ubiquitous_terms() {
    assert!(idf(100, 100) > 0);
    assert!(idf(1, 1) > 0);
    assert_eq!(idf(4_000_000_000, 4_000_000_000), 1);
    // Tombstoned documents count until they are merged away.
    assert_eq!(idf(3, 5), 1);
    assert_eq!(idf(0, 1), 1);
}

#[test]
fn idf_decreases_with_document_frequency() {
    assert!(idf(1000, 1) > idf(1000, 10));
    assert!(idf(1000, 10) > idf(1000, 500));
}

#[test]
fn term_contribution_matches_formula() {
    let idf = fixed(2.0) as u32;
    let expected = 2.0 * (3.0 * (K1 + 1.0)) / (3.0 + K1 * (1.0 - B + B * 120.0 / 100.0));
    let got = as_real(term_contribution(idf, 3, 120, 100 * AVG_UNIT));
    assert!((got - expected).abs() < 1e-6);
}

#[test]
fn term_contribution_increases_with_tf_and_saturates() {
    let idf = fixed(1.5) as u32;
    let c1 = term_contribution(idf, 1, 100, 100 * AVG_UNIT);
    let c2 = term_contribution(idf, 2, 100, 100 * AVG_UNIT);
    let c100 = term_contribution(idf, 100, 100, 100 * AVG_UNIT);
    assert!(c2 > c1);
    // Saturation: contribution is bounded by idf * (k1 + 1).
    assert!(as_real(c100) < 1.5 * (K1 + 1.0));
}

#[test]
fn term_contribution_penalizes_long_docs() {
    let idf = fixed(1.5) as u32;
    let short = term_contribution(idf, 2, 50, 100 * AVG_UNIT);
    let long = term_contribution(idf, 2, 400, 100 * AVG_UNIT);
    assert!(short > long);
}

#[test]
fn logarithms_are_close() {
    for n in [1u64, 2, 3, 10, 1000, 123_456_789] {
        let got = logarithm::log2(n) as f64 / f64::from(1u32 << 24);
        assert!((got - (n as f64).log2()).abs() < 1e-5, "{n}");
    }
}

// --- posting blocks --------------------------------------------------------

#[test]
fn bits_needed_basics() {
    assert_eq!(bits_needed(0), 0);
    assert_eq!(bits_needed(1), 1);
    assert_eq!(bits_needed(2), 2);
    assert_eq!(bits_needed(255), 8);
    assert_eq!(bits_needed(256), 9);
    assert_eq!(bits_needed(u32::MAX), 32);
}

#[test]
fn bit_writer_reader_round_trip() {
    let values: Vec<(u32, u8)> = vec![
        (0, 0),
        (1, 1),
        (5, 3),
        (255, 8),
        (12345, 14),
        (0, 0),
        (u32::MAX, 32),
        (7, 5),
    ];
    let mut buf = Vec::new();
    let mut writer = BitWriter::new(&mut buf);
    for &(v, bits) in &values {
        writer.write(v, bits);
    }
    writer.finish();
    let mut reader = BitReader::new(&buf);
    for &(v, bits) in &values {
        assert_eq!(reader.read(bits), v, "value {v} at {bits} bits");
    }
}

fn round_trip(postings: &[Posting]) {
    let mut bytes = Vec::new();
    encode_block(postings, &mut bytes);
    assert!(check_block(&bytes));
    let mut decoded = Vec::new();
    let consumed = decode_block(&bytes, &mut decoded);
    assert_eq!(consumed, bytes.len());
    assert_eq!(decoded, postings);

    let mut docs = Vec::new();
    decode_block_docs(&bytes, &mut docs);
    let expected_docs: Vec<u32> = postings.iter().map(|p| p.doc_id).collect();
    assert_eq!(docs, expected_docs);
    for (i, p) in postings.iter().enumerate() {
        assert_eq!(block_tf(&bytes, i), p.tf, "tf at index {i}");
    }
}

#[test]
fn encode_decode_round_trip() {
    round_trip(&[Posting { doc_id: 0, tf: 1 }]);
    round_trip(&[Posting { doc_id: 4_000_000_000, tf: 9999 }]);
    round_trip(&[
        Posting { doc_id: 3, tf: 1 },
        Posting { doc_id: 4, tf: 2 },
        Posting { doc_id: 5, tf: 1 },
    ]);
    // Dense run: gaps of 1, tf of 1 -> 0-bit payload for both streams.
    let dense: Vec<Posting> = (100..228).map(|d| Posting { doc_id: d, tf: 1 }).collect();
    let mut bytes = Vec::new();
    encode_block(&dense, &mut bytes);
    assert_eq!(bytes.len(), 8, "dense block should be header-only");
    round_trip(&dense);
}

#[test]
fn encode_decode_round_trip_random() {
    let mut state = 0xabcdef99u64;
    let mut next = move || {
        state = state
            .wrapping_mul(6364136223846793005)
            .wrapping_add(1442695040888963407);
        (state >> 33) as u32
    };
    for _ in 0..200 {
        let count = 1 + (next() as usize % 128);
        let mut doc_id = next() % 1000;
        let mut postings = Vec::with_capacity(count);
        for _ in 0..count {
            postings.push(Posting { doc_id, tf: 1 + next() % 50 });
            doc_id += 1 + next() % 5000;
        }
        round_trip(&postings);
    }
}

#[test]
fn consecutive_blocks_decode_independently() {
    let a: Vec<Posting> = (0..50)
        .map(|d| Posting { doc_id: d * 7, tf: 1 + d % 3 })
        .collect();
    let b: Vec<Posting> = (1000..1100).map(|d| Posting { doc_id: d, tf: 2 }).collect();
    let mut bytes = Vec::new();
    encode_block(&a, &mut bytes);
    let offset = bytes.len();
    encode_block(&b, &mut bytes);

    let mut decoded = Vec::new();
    decode_block(&bytes, &mut decoded);
    assert_eq!(decoded, a);
    decode_block(&bytes[offset..], &mut decoded);
    assert_eq!(decoded, b);
}

#[test]
fn damaged_blocks_are_noticed() {
    assert!(!check_block(&[]));
    assert!(!check_block(&[0; 8]));
    let mut bytes = Vec::new();
    encode_block(&[Posting { doc_id: 1, tf: 7 }, Posting { doc_id: 90, tf: 3 }], &mut bytes);
    assert!(check_block(&bytes));
    assert!(!check_block(&bytes[..8]));
}

fn posting(doc_id: u32, tf: u32) -> Posting {
    Posting { doc_id, tf }
}

#[test]
fn build_sorts_postings_by_doc_id() {
    let doc_lens = vec![10u32; 6];
    let list = PostingList::build(
        vec![posting(5, 1), posting(1, 2), posting(3, 1)],
        6,
        &doc_lens,
        2,
    );
    let ids: Vec<u32> = list.postings.iter().map(|p| p.doc_id).collect();
    assert_eq!(ids, vec![1, 3, 5]);
    assert_eq!(list.term_max_tf, 2);
    assert_eq!(list.term_min_len, 10);
}

#[test]
fn blocks_cover_all_postings_with_correct_bounds() {
    let doc_lens = vec![10u32; 300];
    let postings: Vec<Posting> = (0..250).map(|i| posting(i, 1 + i % 3)).collect();
    let (max_doc_ids, max_tfs, min_lens) = build_blocks(&postings, &doc_lens, 128);

    assert_eq!(max_doc_ids.len(), 2);
    assert_eq!(max_tfs.len(), 2);
    assert_eq!(min_lens.len(), 2);
    // Block ranges are derived from the fixed block size; the stored
    // max_doc_id must be the last doc of each derived range.
    assert_eq!(max_doc_ids[0], 127);
    assert_eq!(max_doc_ids[1], 249);
    assert_eq!(max_tfs[0], 3);
    assert_eq!(min_lens[0], 10);
}

#[test]
fn block_max_score_bounds_every_contribution_in_block() {
    let mut state = 0x12345678u64;
    let mut next = move || {
        state = state
            .wrapping_mul(6364136223846793005)
            .wrapping_add(1442695040888963407);
        (state >> 33) as u32
    };
    let num_docs = 1000usize;
    let doc_lens: Vec<u32> = (0..num_docs).map(|_| 5 + next() % 200).collect();
    let avg = doc_lens.iter().map(|&l| f64::from(l)).sum::<f64>() / num_docs as f64;
    let mut postings = Vec::new();
    for doc_id in 0..num_docs as u32 {
        if next() % 3 == 0 {
            postings.push(posting(doc_id, 1 + next() % 10));
        }
    }
    let block_size = 32;
    let (max_doc_ids, max_tfs, min_lens) = build_blocks(&postings, &doc_lens, block_size);

    for (extra_docs, avg_scale) in [(0usize, 1.0f64), (5000, 1.6), (0, 0.5)] {
        let n = num_docs + extra_docs;
        let idf_now = bm25::idf(n, postings.len());
        let avg_now = (avg * avg_scale * f64::from(AVG_UNIT)) as u32;
        for (b, chunk) in postings.chunks(block_size).enumerate() {
            let bound = bm25::term_contribution(idf_now, max_tfs[b], min_lens[b], avg_now);
            for p in chunk {
                let contribution = bm25::term_contribution(
                    idf_now,
                    p.tf,
                    doc_lens[p.doc_id as usize],
                    avg_now,
                );
                assert!(
                    bound >= contribution,
                    "block bound {bound} < contribution {contribution} (n={n})"
                );
                assert!(p.doc_id <= max_doc_ids[b]);
            }
        }
    }
}

// --- hashing and names -----------------------------------------------------

#[test]
fn fnv_matches_published_values() {
    assert_eq!(hash::fnv1a(b""), 0xcbf29ce484222325);
    assert_eq!(hash::fnv1a(b"a"), 0xaf63dc4c8601ec8c);
    assert_eq!(hash::fnv1a(b"foobar"), 0x85944171f73967e8);
    let mut h = hash::Fnv1a::new();
    h.write(b"foo");
    h.write(b"bar");
    assert_eq!(h.finish(), 0x85944171f73967e8);
}

#[test]
fn interned_terms_keep_their_ids() {
    let mut names = Interner::new();
    assert_eq!(names.get_or_insert("pizza"), 0);
    assert_eq!(names.get_or_insert("sushi"), 1);
    assert_eq!(names.get_or_insert("pizza"), 0);
    assert_eq!(names.get("sushi"), Some(1));
    assert_eq!(names.get("ramen"), None);
    assert_eq!(names.len(), 2);
}

// --- the index -------------------------------------------------------------

fn words(text: &str) -> Vec<String> {
    text.split(|c: char| !c.is_alphanumeric())
        .filter(|w| !w.is_empty())
        .map(str::to_lowercase)
        .collect()
}

fn doc(id: &str, title: &str, body: &str) -> DocTokens {
    DocTokens {
        doc: InputDoc {
            id: id.to_owned(),
            title: title.to_owned(),
            body: body.to_owned(),
        },
        title_tokens: words(title),
        body_tokens: words(body),
    }
}

fn small_index() -> Index {
    let docs = vec![
        doc("d0", "pizza place", "cheap pizza pizza montreal"),
        doc("d1", "sushi bar", "fresh sushi downtown"),
        doc("d2", "pizza oven", "wood fired pizza"),
    ];
    build_index(&docs, false, DEFAULT_BLOCK_SIZE, ReorderStrategy::Keep)
}

fn counters(s: &hips::block_max_wand::SearchStats) -> [usize; 4] {
    [s.num_postings_visited, s.num_blocks_visited, s.num_blocks_skipped, s.num_docs_scored]
}

#[test]
fn counters_count_the_work() {
    let index = small_index();
    let of = |query: &str, k| counters(&search(&index, &words(query), k).stats);
    assert_eq!(of("pizza", 10), [2, 1, 0, 2]);
    assert_eq!(of("pizza", 0), [0, 0, 0, 0]);
    assert_eq!(of("pizza sushi", 10), [3, 2, 0, 3]);
    assert_eq!(of("nothing", 10), [0, 0, 0, 0]);

    // The first document cannot be beaten: the rest is not looked at.
    let docs: Vec<DocTokens> = (0..300)
        .map(|i| doc(&format!("d{i}"), "", if i == 0 { "a a a a" } else { "a b c d" }))
        .collect();
    let index = build_index(&docs, false, 128, ReorderStrategy::Keep);
    assert_eq!(counters(&search(&index, &words("a"), 1).stats), [2, 1, 0, 1]);

    // The first two blocks cannot beat their first document, the third can.
    let body = |i: usize| match i {
        0 => "a a a a b c d e",
        257 => "a a a a a b c d",
        _ => "a b c d e f g h",
    };
    let docs: Vec<DocTokens> =
        (0..258).map(|i| doc(&format!("d{i}"), "", body(i))).collect();
    let index = build_index(&docs, false, 128, ReorderStrategy::Keep);
    let (hits, stats) = hips::block_max_wand::search(&index, &words("a"), 1);
    assert_eq!(hits[0].doc_id, 257);
    assert_eq!(counters(&stats), [5, 3, 2, 3]);
    // MaxScore does not look at blocks: every document is scored.
    let (hits, stats) = hips::maxscore::search(&index, &words("a"), 1);
    assert_eq!(hits[0].doc_id, 257);
    assert_eq!(counters(&stats), [258, 3, 0, 258]);
}

#[test]
fn repeated_terms_change_no_answer() {
    let index = small_index();
    let once = search(&index, &words("pizza montreal"), 10);
    let often = search(&index, &words("pizza pizza montreal pizza"), 10);
    let rows = |o: &hips::searcher::SearchOutcome| {
        o.results.iter().map(|r| (r.id.clone(), r.score)).collect::<Vec<_>>()
    };
    assert_eq!(rows(&once), rows(&often));
    assert_eq!(once.stats.num_query_terms, often.stats.num_query_terms);
    assert_eq!(once.stats.num_docs_scored, often.stats.num_docs_scored);
    assert_eq!(once.stats.num_postings_visited, often.stats.num_postings_visited);
    assert_eq!(once.stats.num_blocks_visited, often.stats.num_blocks_visited);
    assert_eq!(once.stats.num_blocks_skipped, often.stats.num_blocks_skipped);
}

#[test]
fn builds_document_metadata_and_averages() {
    let index = small_index();
    assert_eq!(index.num_docs(), 3);
    assert_eq!(index.doc_summary(0).id, "d0");
    assert_eq!(index.doc_len(0), 6); // "pizza place cheap pizza pizza montreal"
    assert_eq!(index.doc_len(1), 5);
    assert_eq!(index.doc_len(2), 5);
    let expected_avg = (6.0 + 5.0 + 5.0) / 3.0;
    let avg = f64::from(index.avg_doc_len()) / f64::from(AVG_UNIT);
    assert!((avg - expected_avg).abs() < 1e-3);
}

#[test]
fn computes_term_frequencies_and_document_frequencies() {
    let index = small_index();
    let pizza = index.posting_list_for("pizza").expect("pizza indexed");
    assert_eq!(pizza.df(), 2); // d0 and d2
    let d0 = pizza.postings.iter().find(|p| p.doc_id == 0).unwrap();
    assert_eq!(d0.tf, 3); // once in title, twice in body
    let d2 = pizza.postings.iter().find(|p| p.doc_id == 2).unwrap();
    assert_eq!(d2.tf, 2);
    assert!(index.posting_list_for("nonexistent").is_none());
}

#[test]
fn posting_lists_are_sorted_by_doc_id() {
    let docs: Vec<DocTokens> = (0..3000)
        .map(|i| doc(&format!("doc-{i}"), "", &format!("common word{}", i % 7)))
        .collect();
    let index = build_index(&docs, false, DEFAULT_BLOCK_SIZE, ReorderStrategy::Keep);
    let common = index.posting_list_for("common").unwrap();
    assert_eq!(common.df(), 3000);
    for pair in common.postings.windows(2) {
        assert!(pair[0].doc_id < pair[1].doc_id);
    }
    // Blocks must tile the full posting list: ceil(df / block_size)
    // entries, the last one covering the final doc_id.
    assert_eq!(
        common.block_max_doc_ids.len(),
        common.postings.len().div_ceil(DEFAULT_BLOCK_SIZE)
    );
    assert_eq!(
        *common.block_max_doc_ids.last().unwrap(),
        common.postings.last().unwrap().doc_id
    );
}

#[test]
fn title_weight_boosts_title_matches() {
    // Two docs of identical length; "pizza" appears once in d0's title
    // and once in d1's body. With weight 1 they tie; with weight 3 the
    // title match must rank first.
    let docs = vec![
        doc("d0", "pizza guide", "food and other words here"),
        doc("d1", "eating guide", "pizza and other words here"),
    ];
    let unweighted =
        build_index_weighted(&docs, false, 1, DEFAULT_BLOCK_SIZE, ReorderStrategy::Keep);
    let boosted = build_index_weighted(&docs, false, 3, DEFAULT_BLOCK_SIZE, ReorderStrategy::Keep);

    let tf = |index: &Index, doc: u32| {
        let list = index.posting_list_for("pizza").unwrap();
        list.postings.iter().find(|p| p.doc_id == doc).unwrap().tf
    };
    assert_eq!(tf(&unweighted, 0), 1);
    assert_eq!(tf(&boosted, 0), 3); // title occurrence counts triple
    assert_eq!(tf(&boosted, 1), 1); // body occurrence unchanged

    let results = search(&boosted, &words("pizza"), 2).results;
    assert_eq!(results[0].id, "d0", "title match must outrank body match");
    assert!(results[0].score > results[1].score);
}

#[test]
fn documents_stand_on_lines() {
    let text = "{\"id\":\"a\"}\n\n  \n{\"id\":\"b\"}";
    let lines = jsonl_lines(text);
    assert_eq!(lines.len(), 2);
    assert_eq!(lines[0], (1, "{\"id\":\"a\"}".to_string()));
    assert_eq!(lines[1].0, 4);
    assert_eq!(lines[1].1, "{\"id\":\"b\"}");
}

#[test]
fn content_hashes_tell_title_from_body() {
    assert_ne!(content_hash("a", "b"), content_hash("b", "a"));
    assert_eq!(content_hash("a", "b"), content_hash("a", "b"));
    assert_ne!(content_hash("ab", ""), content_hash("a", "b"));
}

#[test]
fn reordering_keeps_what_a_search_finds() {
    let docs: Vec<DocTokens> = (0..200)
        .map(|i| {
            let topic = if i % 2 == 0 { "alpha beta gamma" } else { "delta epsilon zeta" };
            doc(&format!("doc-{:03}", 199 - i), "", &format!("{topic} w{}", i % 5))
        })
        .collect();
    for strategy in [ReorderStrategy::Keep, ReorderStrategy::Path, ReorderStrategy::Bp] {
        let index = build_index(&docs, false, 16, strategy);
        let out = search(&index, &words("alpha w3"), 200).results;
        let mut ids: Vec<(u64, String)> = out.iter().map(|r| (r.score, r.id.clone())).collect();
        ids.sort();
        let plain = build_index(&docs, false, 16, ReorderStrategy::Keep);
        let mut expected: Vec<(u64, String)> = search(&plain, &words("alpha w3"), 200)
            .results
            .iter()
            .map(|r| (r.score, r.id.clone()))
            .collect();
        expected.sort();
        assert_eq!(ids, expected);
    }
}

#[test]
fn both_algorithms_find_the_same() {
    let docs: Vec<DocTokens> = (0..500)
        .map(|i| {
            doc(
                &format!("d{i}"),
                "",
                &format!("a{} b{} c{} common filler{}", i % 3, i % 7, i % 11, i % 2),
            )
        })
        .collect();
    let index = build_index(&docs, false, 8, ReorderStrategy::Keep);
    let terms = words("a1 b2 c3 common filler1");
    let (wand, _) = block_max_wand::search(&index, &terms, 10);
    let (other, _) = maxscore::search(&index, &terms, 10);
    assert_eq!(wand, other);
    assert_eq!(wand.len(), 10);
    let best: &SearchHit = &wand[0];
    assert!(best.score >= wand[9].score);
}

fn pizza_index() -> Index {
    let docs = vec![
        doc(
            "doc-0",
            "Cheap pizza in Montreal",
            "The best cheap pizza montreal has to offer",
        ),
        doc("doc-1", "Sushi guide", "Fresh sushi downtown"),
    ];
    build_index(&docs, true, DEFAULT_BLOCK_SIZE, ReorderStrategy::Keep)
}

#[test]
fn deduplicates_query_terms() {
    assert_eq!(query_terms(&words("pizza Pizza PIZZA cheap")), vec!["pizza", "cheap"]);
}

#[test]
fn resolves_external_ids() {
    let index = pizza_index();
    let outcome = search(&index, &words("cheap pizza montreal"), 10);
    assert_eq!(outcome.results.len(), 1);
    assert_eq!(outcome.results[0].id, "doc-0");
    assert_eq!(outcome.results[0].title, "Cheap pizza in Montreal");
    assert!(outcome.results[0].score > 0);
    assert_eq!(outcome.stats.num_query_terms, 3);
}

#[test]
fn work_is_counted_once() {
    let index = pizza_index();
    let terms = words("cheap pizza montreal");
    for stats in [
        search(&index, &terms, 10).stats,
        maxscore::search(&index, &terms, 10).1,
    ] {
        assert_eq!(stats.num_docs_total, 2);
        assert_eq!(stats.num_docs_scored, 1);
        assert_eq!(stats.num_postings_visited, 3);
        assert_eq!(stats.num_blocks_visited, 3);
        assert_eq!(stats.num_blocks_skipped, 0);
    }
}

#[test]
fn empty_or_unknown_query_returns_no_results() {
    let index = pizza_index();
    assert!(search(&index, &words(""), 10).results.is_empty());
    assert!(search(&index, &words("zebra unicorn"), 10).results.is_empty());
}

// --- reordering ------------------------------------------------------------

fn is_permutation(order: &[u32], n: usize) -> bool {
    let mut seen = vec![false; n];
    for &d in order {
        if seen[d as usize] {
            return false;
        }
        seen[d as usize] = true;
    }
    order.len() == n
}

fn log_gap_cost(order: &[u32], doc_terms: &[Vec<u32>]) -> f64 {
    let num_terms = doc_terms.iter().flatten().max().map_or(0, |&t| t + 1) as usize;
    let mut new_pos = vec![0u32; doc_terms.len()];
    for (pos, &doc) in order.iter().enumerate() {
        new_pos[doc as usize] = pos as u32;
    }
    let mut term_positions: Vec<Vec<u32>> = vec![Vec::new(); num_terms];
    for (doc, terms) in doc_terms.iter().enumerate() {
        for &t in terms {
            term_positions[t as usize].push(new_pos[doc]);
        }
    }
    let mut total = 0.0f64;
    for positions in &mut term_positions {
        positions.sort_unstable();
        for pair in positions.windows(2) {
            total += f64::from(pair[1] - pair[0]).log2();
        }
    }
    total
}

fn interleaved_corpus(n: usize) -> Vec<Vec<u32>> {
    (0..n)
        .map(|i| {
            let base = if i % 2 == 0 { 0u32 } else { 50 };
            (0..10).map(|j| base + (i as u32 * 3 + j) % 50).collect()
        })
        .collect()
}

#[test]
fn bp_returns_a_permutation() {
    let docs = interleaved_corpus(500);
    let order = bp_order(&docs);
    assert!(is_permutation(&order, docs.len()));
}

#[test]
fn bp_reduces_log_gap_cost_on_clustered_corpus() {
    let docs = interleaved_corpus(2000);
    let identity: Vec<u32> = (0..docs.len() as u32).collect();
    let order = bp_order(&docs);

    let before = log_gap_cost(&identity, &docs);
    let after = log_gap_cost(&order, &docs);
    assert!(
        after < before * 0.8,
        "BP should cut log-gap cost noticeably: before={before:.0}, after={after:.0}"
    );
}

#[test]
fn bp_handles_tiny_and_empty_inputs() {
    assert!(bp_order(&Vec::new()).is_empty());
    let one = vec![vec![1u32, 2]];
    assert_eq!(bp_order(&one), vec![0]);
    let few: Vec<Vec<u32>> = (0..5).map(|i| vec![i as u32]).collect();
    assert!(is_permutation(&bp_order(&few), 5));
}

#[test]
fn gains_from_elsewhere_only_rearrange() {
    let docs = interleaved_corpus(400);
    // Whatever is said about the gains.
    let noise = |order: &Vec<u32>, side: &Vec<bool>| -> Vec<i64> {
        order
            .iter()
            .zip(side)
            .map(|(&d, &s)| i64::from(d % 13) - if s { 6 } else { 5 })
            .collect()
    };
    let order = bp_order_gpu(&docs, 64, &noise);
    assert!(is_permutation(&order, docs.len()));
    // Below the limit nothing is asked.
    assert_eq!(bp_order_gpu(&docs, 1000, &noise), bp_order(&docs));
    let start: Vec<u32> = (0..400).collect();
    assert_eq!(bisect(start, &docs, 0), bp_order(&docs));
}

#[test]
fn gpu_bp_returns_a_permutation_and_reduces_cost() {
    const MIN_PARTITION: usize = 8192;
    // Large enough that the top levels actually ask for gains.
    let docs = interleaved_corpus(2 * MIN_PARTITION);
    let cost = |deg: f64, n: f64| if deg > 0.0 { deg * (n / (deg + 1.0)).log2() } else { 0.0 };
    let gains = |order: &Vec<u32>, side: &Vec<bool>| -> Vec<i64> {
        let right = side.iter().filter(|&&s| s).count() as f64;
        let left = side.len() as f64 - right;
        let mut degrees = vec![(0.0, 0.0); 100];
        for (&d, &s) in order.iter().zip(side) {
            for &t in &docs[d as usize] {
                let both: &mut (f64, f64) = &mut degrees[t as usize];
                *(if s { &mut both.1 } else { &mut both.0 }) += 1.0;
            }
        }
        let gain = |d: u32, s: bool| -> f64 {
            let (from_n, to_n) = if s { (right, left) } else { (left, right) };
            let of_term = |t: &u32| {
                let (l, r) = degrees[*t as usize];
                let (from, to) = if s { (r, l) } else { (l, r) };
                cost(from, from_n) + cost(to, to_n) - cost(from - 1.0, from_n) - cost(to + 1.0, to_n)
            };
            docs[d as usize].iter().map(of_term).sum()
        };
        order.iter().zip(side).map(|(&d, &s)| (gain(d, s) * 1e6) as i64).collect()
    };
    let order = bp_order_gpu(&docs, MIN_PARTITION, &gains);

    let mut seen = vec![false; docs.len()];
    for &d in &order {
        assert!(!seen[d as usize], "duplicate doc in permutation");
        seen[d as usize] = true;
    }
    assert_eq!(order.len(), docs.len());

    let identity: Vec<u32> = (0..docs.len() as u32).collect();
    let before = log_gap_cost(&identity, &docs);
    let after = log_gap_cost(&order, &docs);
    assert!(
        after < before * 0.8,
        "GPU BP should cut log-gap cost: before={before:.0}, after={after:.0}"
    );
}

#[test]
fn swapping_takes_the_best_pairs() {
    let mut side = vec![false, false, true, true];
    let any = swap_by_gains(&mut side, &vec![5, -1, 3, -2]);
    assert!(any);
    assert_eq!(side, vec![true, false, false, true]);
    let mut side = vec![false, true];
    assert!(!swap_by_gains(&mut side, &vec![1, -1]));
    assert_eq!(side, vec![false, true]);
}

// --- spelling --------------------------------------------------------------

fn corrector() -> SpellCorrector {
    SpellCorrector::build(
        [
            ("pizza", 10),
            ("pirates", 8),
            ("montreal", 5),
            ("cart", 9),
            ("care", 4),
            ("rare", 1), // too rare: never a target
        ]
        .map(|(t, df)| (t.to_string(), df))
        .to_vec(),
    )
}

fn ed(a: &str, b: &str) -> usize {
    osa_distance(&a.chars().collect::<Vec<_>>(), &b.chars().collect::<Vec<_>>())
}

#[test]
fn osa_distance_counts_edits_and_transpositions() {
    assert_eq!(ed("pizza", "pizza"), 0);
    assert_eq!(ed("pizzza", "pizza"), 1); // deletion
    assert_eq!(ed("piza", "pizza"), 1); // insertion
    assert_eq!(ed("pizca", "pizza"), 1); // substitution
    assert_eq!(ed("piarte", "pirate"), 1); // adjacent transposition
    assert_eq!(ed("", "abc"), 3);
    assert_eq!(ed("kitten", "sitting"), 3);
}

#[test]
fn corrections_are_closest_then_most_frequent() {
    let build = |v: &[(&str, u32)]| {
        SpellCorrector::build(v.iter().map(|(t, df)| (t.to_string(), *df)).collect())
    };
    let all = build(&[("cart", 9), ("care", 4), ("carts", 90), ("carx", 1), ("caxx", 2)]);
    // "carts" is two edits away, "cart" and "care" are one.
    assert_eq!(all.correct("carz"), Some("cart"));
    assert_eq!(all.correct("caxx"), None, "targets are two edits away, the budget is one");
    assert_eq!(all.correct("ca"), None, "too short");
    let frequent = build(&[("cart", 9), ("care", 4), ("carts", 90)]);
    for w in ["carz", "caxx", "carx", "cartss", "ca"] {
        assert_eq!(all.correct(w), frequent.correct(w));
    }
}

#[test]
fn osa_distance_measures() {
    for (a, b) in [("pizza", "piza"), ("piarte", "pirate"), ("", "abc"), ("ab", "ba")] {
        assert_eq!(ed(a, b), ed(b, a));
        assert!(ed(a, b) > 0);
        assert!(ed(a, b) <= a.len().max(b.len()));
        assert!(ed(a, b) >= a.len().abs_diff(b.len()));
    }
}

#[test]
fn corrects_single_and_double_typos() {
    let c = corrector();
    assert_eq!(c.correct("pizzza"), Some("pizza")); // ed 1
    assert_eq!(c.correct("piraets"), Some("pirates")); // transposition
    assert_eq!(c.correct("montrael"), Some("montreal")); // transposition
    assert_eq!(c.correct("montraeal"), Some("montreal")); // ed 2, long word
}

#[test]
fn respects_length_scaled_budget() {
    let c = corrector();
    assert_eq!(c.correct("ca"), None); // too short to correct at all
    assert_eq!(c.correct("czrt"), Some("cart")); // ed 1 on a 4-char word: ok
    assert_eq!(c.correct("czzt"), None); // ed 2 on a 4-char word: refused
    assert_eq!(c.correct("zzzzzz"), None); // nothing close
}

#[test]
fn ties_break_by_document_frequency() {
    let c = corrector();
    // "carx" is ed 1 from both "cart" (df 9) and "care" (df 4).
    assert_eq!(c.correct("carx"), Some("cart"));
}

#[test]
fn low_df_terms_are_not_correction_targets() {
    // "rare" (df 1) is excluded, so a typo of it finds nothing.
    let c = SpellCorrector::build(vec![("rare".to_string(), 1)]);
    assert_eq!(c.correct("raer"), None);
}
