//! Query benchmark: percentiles, and the counters that show how little of the
//! corpus each query touches.

use crate::block_max_wand;
use crate::block_max_wand::SearchStats;
use crate::indexer::SearchableIndex;
use crate::searcher;
use crate::sums;
use vstd::prelude::*;

verus! {

/// The rank of a percentile among `n` sorted values, from 1: the smallest
/// with at least that share at or below it.
pub open spec fn percentile_rank(n: int, pct: int) -> int {
    let up = (pct * n + 99) / 100;
    if up < 1 {
        1
    } else if up > n {
        n
    } else {
        up
    }
}

/// A percentile of sorted values, if there are any.
pub fn percentile<T: Copy>(sorted: &[T], pct: u32) -> (v: Option<T>)
    ensures
        sorted@.len() == 0 ==> v is None,
        sorted@.len() > 0 ==> v == Some(
            sorted@[percentile_rank(sorted@.len() as int, pct as int) - 1],
        ),
{
    let n: usize = sorted.len();
    if n == 0 {
        return None;
    }
    assert(pct * n <= u32::MAX * u64::MAX) by (nonlinear_arith)
        requires
            pct <= u32::MAX,
            n <= u64::MAX,
    ;
    let scaled: u128 = pct as u128 * n as u128;
    let up: u128 = (scaled + 99) / 100;
    let rank: usize = if up < 1 {
        1
    } else if up > n as u128 {
        n
    } else {
        up as usize
    };
    Some(sorted[rank - 1])
}

/// The counters of all queries together.
pub struct Totals {
    pub num_queries: usize,
    pub postings_visited: u128,
    pub docs_scored: u128,
    pub blocks_visited: u128,
    pub blocks_skipped: u128,
}

pub open spec fn postings_fn(stats: Seq<SearchStats>) -> spec_fn(int) -> nat {
    |i: int| stats[i].num_postings_visited as nat
}

pub open spec fn scored_fn(stats: Seq<SearchStats>) -> spec_fn(int) -> nat {
    |i: int| stats[i].num_docs_scored as nat
}

pub open spec fn visited_fn(stats: Seq<SearchStats>) -> spec_fn(int) -> nat {
    |i: int| stats[i].num_blocks_visited as nat
}

pub open spec fn skipped_fn(stats: Seq<SearchStats>) -> spec_fn(int) -> nat {
    |i: int| stats[i].num_blocks_skipped as nat
}

/// Add up the counters of all queries.
pub fn tally(stats: &[SearchStats]) -> (t: Totals)
    ensures
        t.num_queries == stats@.len(),
        t.postings_visited == sums::total(postings_fn(stats@), stats@.len()),
        t.docs_scored == sums::total(scored_fn(stats@), stats@.len()),
        t.blocks_visited == sums::total(visited_fn(stats@), stats@.len()),
        t.blocks_skipped == sums::total(skipped_fn(stats@), stats@.len()),
{
    let n: usize = stats.len();
    let mut t = Totals {
        num_queries: n,
        postings_visited: 0,
        docs_scored: 0,
        blocks_visited: 0,
        blocks_skipped: 0,
    };
    let mut i: usize = 0;
    while i < n
        invariant
            i <= n,
            n == stats@.len(),
            t.num_queries == n,
            t.postings_visited == sums::total(postings_fn(stats@), i as nat),
            t.docs_scored == sums::total(scored_fn(stats@), i as nat),
            t.blocks_visited == sums::total(visited_fn(stats@), i as nat),
            t.blocks_skipped == sums::total(skipped_fn(stats@), i as nat),
            t.postings_visited <= i * u64::MAX,
            t.docs_scored <= i * u64::MAX,
            t.blocks_visited <= i * u64::MAX,
            t.blocks_skipped <= i * u64::MAX,
        decreases n - i,
    {
        assert(i * u64::MAX + u64::MAX <= u128::MAX) by (nonlinear_arith)
            requires
                i <= u64::MAX,
        ;
        assert((i + 1) * u64::MAX == i * u64::MAX + u64::MAX) by (nonlinear_arith);
        t.postings_visited = t.postings_visited + stats[i].num_postings_visited as u128;
        t.docs_scored = t.docs_scored + stats[i].num_docs_scored as u128;
        t.blocks_visited = t.blocks_visited + stats[i].num_blocks_visited as u128;
        t.blocks_skipped = t.blocks_skipped + stats[i].num_blocks_skipped as u128;
        i += 1;
    }
    t
}

/// How many postings a term has.
pub open spec fn df_of<I: SearchableIndex + ?Sized>(index: &I, t: Seq<char>) -> nat {
    match index.model(t) {
        Some(m) => m.list.len(),
        None => 0,
    }
}

pub open spec fn dfs<I: SearchableIndex + ?Sized>(index: &I, terms: Seq<Seq<char>>) -> spec_fn(
    int,
) -> nat {
    |i: int| df_of(index, terms[i])
}

/// The postings of all terms of a query: what evaluating one term after the
/// other would visit.
pub fn term_postings<I: SearchableIndex + ?Sized>(index: &I, tokens: &[String]) -> (n: u128)
    requires
        index.wf(),
    ensures
        n == sums::total(
            dfs(index, searcher::distinct(block_max_wand::texts(tokens@))),
            searcher::distinct(block_max_wand::texts(tokens@)).len(),
        ),
{
    let terms = searcher::query_terms(tokens);
    let ghost texts = block_max_wand::texts(terms@);
    let count: usize = terms.len();
    let mut n: u128 = 0;
    let mut i: usize = 0;
    while i < count
        invariant
            i <= count,
            count == terms@.len(),
            texts == block_max_wand::texts(terms@),
            index.wf(),
            n == sums::total(dfs(index, texts), i as nat),
            n <= i * u64::MAX,
        decreases count - i,
    {
        assert(i * u64::MAX + u64::MAX <= u128::MAX) by (nonlinear_arith)
            requires
                i <= u64::MAX,
        ;
        assert((i + 1) * u64::MAX == i * u64::MAX + u64::MAX) by (nonlinear_arith);
        assert(texts[i as int] == terms@[i as int]@);
        if let Some(t) = index.term_postings(terms[i].as_str()) {
            n = n + t.df as u128;
        }
        i += 1;
    }
    n
}

/// The percentile of a sorted list is the first element that at least that
/// share of the list does not exceed: nearest rank.
pub proof fn law_percentile(n: int, pct: int)
    requires
        0 < n,
        0 <= pct <= 100,
    ensures
        1 <= percentile_rank(n, pct) <= n,
        percentile_rank(n, pct) * 100 >= pct * n,
        percentile_rank(n, pct) > 1 ==> (percentile_rank(n, pct) - 1) * 100 < pct * n,
{
    let x = pct * n;
    assert(0 <= x <= 100 * n) by (nonlinear_arith)
        requires
            x == pct * n,
            0 <= pct <= 100,
            0 < n,
    ;
}

} // verus!
