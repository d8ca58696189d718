//! A navigable small-world graph over document vectors.
//!
//! Every document is a node with links on one or more levels. A search
//! descends greedily through the upper levels, then explores the lowest one
//! best first. Documents that were deleted are walked through and not
//! returned. If that leaves too few, all documents are scored.
//!
//! Similarities come from the caller, as integers that order as they do.

use crate::codec;
use crate::table;
use std::collections::HashSet;
use vstd::arithmetic::power2::*;
use vstd::prelude::*;
use vstd::std_specs::bits::*;

verus! {

/// Fewer documents than this are scored exhaustively.
pub const MIN_DOCS: u32 = 8192;

/// The default width of a search.
pub const DEFAULT_EF: usize = 128;

/// Links per node and level. The lowest level has twice as many.
pub const M: usize = 16;

/// The width of the searches that place a node.
pub const EF_BUILD: usize = 128;

/// The highest level.
pub const MAX_LEVEL: usize = 16;

/// A document and how similar it is.
#[derive(Clone, Copy, Debug, PartialEq, Eq, Structural)]
pub struct Neighbor {
    pub doc_id: u32,
    pub score: u32,
}

/// `a` ranks before `b`: by score, then by smaller id.
pub open spec fn closer(a: Neighbor, b: Neighbor) -> bool {
    a.score > b.score || (a.score == b.score && a.doc_id < b.doc_id)
}

fn is_closer(a: Neighbor, b: Neighbor) -> (r: bool)
    ensures
        r == closer(a, b),
{
    a.score > b.score || (a.score == b.score && a.doc_id < b.doc_id)
}

// ---------------------------------------------------------------------------
// Similarities
// ---------------------------------------------------------------------------

/// `f` gives a score for every document below `n`, always the same.
pub open spec fn scores_docs<F: Fn(u32) -> u32>(f: F, n: int) -> bool {
    &&& forall|d: u32| d < n ==> call_requires(f, (d,))
    &&& forall|d: u32, a: u32, b: u32|
        call_ensures(f, (d,), a) && call_ensures(f, (d,), b) ==> a == b
}

/// The score that `f` gives `d`.
pub open spec fn score_by<F: Fn(u32) -> u32>(f: F, d: u32) -> u32 {
    choose|k: u32| call_ensures(f, (d,), k)
}

/// The scores that `f` gives.
pub open spec fn scores_of<F: Fn(u32) -> u32>(f: F) -> spec_fn(u32) -> u32 {
    |d: u32| score_by(f, d)
}

/// `f` gives every document below `n` its score.
spec fn gives<F: Fn(u32) -> u32>(f: F, score: spec_fn(u32) -> u32, n: int) -> bool {
    &&& forall|d: u32| d < n ==> call_requires(f, (d,))
    &&& forall|d: u32, k: u32| #[trigger] call_ensures(f, (d,), k) ==> k == score(d)
}

/// `d` with its score.
pub open spec fn scored(score: spec_fn(u32) -> u32, d: u32) -> Neighbor {
    Neighbor { doc_id: d, score: score(d) }
}

/// `f` says of every document below `n` whether it is live, always the same.
pub open spec fn tells_live<L: Fn(u32) -> bool>(f: L, n: int) -> bool {
    &&& forall|d: u32| d < n ==> call_requires(f, (d,))
    &&& forall|d: u32, a: bool, b: bool|
        call_ensures(f, (d,), a) && call_ensures(f, (d,), b) ==> a == b
}

/// `f` does not say that `d` is dead.
pub open spec fn live_by<L: Fn(u32) -> bool>(f: L, d: u32) -> bool {
    !call_ensures(f, (d,), false)
}

/// What `f` says of who is live.
pub open spec fn lives_of<L: Fn(u32) -> bool>(f: L) -> spec_fn(u32) -> bool {
    |d: u32| live_by(f, d)
}

/// `f` says of every document below `n` whether it is live.
spec fn knows<L: Fn(u32) -> bool>(f: L, lives: spec_fn(u32) -> bool, n: int) -> bool {
    &&& forall|d: u32| d < n ==> call_requires(f, (d,))
    &&& forall|d: u32, b: bool| #[trigger] call_ensures(f, (d,), b) ==> b == lives(d)
}

/// `f` gives a score for every pair of documents below `n`, always the same.
pub open spec fn scores_pairs<P: Fn(u32, u32) -> u32>(f: P, n: int) -> bool {
    &&& forall|a: u32, b: u32| a < n && b < n ==> call_requires(f, (a, b))
    &&& forall|a: u32, b: u32, x: u32, y: u32|
        call_ensures(f, (a, b), x) && call_ensures(f, (a, b), y) ==> x == y
}

/// The score that `f` gives the pair.
pub open spec fn pair_by<P: Fn(u32, u32) -> u32>(f: P, a: u32, b: u32) -> u32 {
    choose|k: u32| call_ensures(f, (a, b), k)
}

/// How similar documents are to `center`.
pub open spec fn likeness<P: Fn(u32, u32) -> u32>(f: P, center: u32) -> spec_fn(u32) -> u32 {
    |d: u32| pair_by(f, center, d)
}

/// A count that does not go beyond what its type can hold.
pub open spec fn capped(n: int) -> int {
    if n < u64::MAX {
        n
    } else {
        u64::MAX as int
    }
}

fn bump(count: &mut u64)
    ensures
        *final(count) == capped(*old(count) + 1),
{
    if *count < u64::MAX {
        *count = *count + 1;
    }
}

/// Score `d`, and count that.
fn score_doc<F: Fn(u32) -> u32>(
    f: &F,
    d: u32,
    count: &mut u64,
    Ghost(score): Ghost<spec_fn(u32) -> u32>,
    Ghost(n): Ghost<int>,
) -> (r: Neighbor)
    requires
        gives(*f, score, n),
        d < n,
    ensures
        r == scored(score, d),
        *final(count) == capped(*old(count) + 1),
{
    bump(count);
    let k: u32 = f(d);
    assert(call_ensures(*f, (d,), k));
    Neighbor { doc_id: d, score: k }
}

// ---------------------------------------------------------------------------
// Ranked neighbors
// ---------------------------------------------------------------------------

/// Every item ranks before those that follow it.
pub open spec fn ranked(s: Seq<Neighbor>) -> bool {
    forall|i: int, j: int| 0 <= i < j < s.len() ==> closer(#[trigger] s[i], #[trigger] s[j])
}

/// Some item is document `d`.
pub open spec fn lists(s: Seq<Neighbor>, d: u32) -> bool {
    exists|i: int| 0 <= i < s.len() && (#[trigger] s[i]).doc_id == d
}

/// Put `n` among ranked neighbors of other documents.
fn place(items: &mut Vec<Neighbor>, n: Neighbor)
    requires
        ranked(old(items)@),
        !lists(old(items)@, n.doc_id),
    ensures
        ranked(final(items)@),
        final(items)@.len() == old(items)@.len() + 1,
        forall|i: int|
            0 <= i < final(items)@.len() ==> (#[trigger] final(items)@[i]) == n
                || old(items)@.contains(final(items)@[i]),
        forall|i: int|
            0 <= i < old(items)@.len() ==> final(items)@.contains(#[trigger] old(items)@[i]),
        final(items)@.contains(n),
        forall|d: u32| #[trigger]
            lists(final(items)@, d) == (d == n.doc_id || lists(old(items)@, d)),
{
    let ghost before = items@;
    let mut at: usize = items.len();
    while at > 0 && is_closer(n, items[at - 1])
        invariant
            items@ == before,
            at <= before.len(),
            ranked(before),
            forall|j: int| at <= j < before.len() ==> closer(n, #[trigger] before[j]),
        decreases at,
    {
        at -= 1;
    }
    items.insert(at, n);
    proof {
        assert(items@ =~= before.insert(at as int, n));
        if at > 0 {
            assert(before[at - 1].doc_id != n.doc_id);
        }
        assert forall|i: int, j: int| 0 <= i < j < items@.len() implies closer(
            #[trigger] items@[i],
            #[trigger] items@[j],
        ) by {
            if j == at {
                assert(closer(before[at - 1], n));
                if i < at - 1 {
                    assert(closer(before[i], before[at - 1]));
                }
            } else if i == at {
                assert(closer(n, before[j - 1]));
            }
        }
        assert forall|i: int| 0 <= i < items@.len() implies (#[trigger] items@[i]) == n
            || before.contains(items@[i]) by {
            if i < at {
                assert(items@[i] == before[i]);
            } else if i > at {
                assert(items@[i] == before[i - 1]);
            }
        }
        assert forall|i: int| 0 <= i < before.len() implies items@.contains(
            #[trigger] before[i],
        ) by {
            if i < at {
                assert(items@[i] == before[i]);
            } else {
                assert(items@[i + 1] == before[i]);
            }
        }
        assert(items@[at as int] == n);
        assert forall|d: u32| #[trigger] lists(items@, d) == (d == n.doc_id || lists(before, d)) by {
            if lists(items@, d) {
                let i = choose|i: int| 0 <= i < items@.len() && (#[trigger] items@[i]).doc_id == d;
                if i < at {
                    assert(before[i].doc_id == d);
                } else if i > at {
                    assert(before[i - 1].doc_id == d);
                }
            }
            if lists(before, d) {
                let i = choose|i: int| 0 <= i < before.len() && (#[trigger] before[i]).doc_id == d;
                if i < at {
                    assert(items@[i].doc_id == d);
                } else {
                    assert(items@[i + 1].doc_id == d);
                }
            }
            if d == n.doc_id {
                assert(items@[at as int].doc_id == d);
            }
        }
    }
}

// ---------------------------------------------------------------------------
// The graph
// ---------------------------------------------------------------------------

/// The links of node `v` on level `l`.
pub open spec fn edges(links: Seq<Vec<Vec<u32>>>, v: int, l: int) -> Seq<u32> {
    links[v]@[l]@
}

/// Node `v` stands on level `l`.
pub open spec fn on_level(links: Seq<Vec<Vec<u32>>>, v: int, l: int) -> bool {
    0 <= v < links.len() && 0 <= l < links[v]@.len()
}

/// How many links a node may have on level `l`.
pub open spec fn cap_of(l: int) -> int {
    if l == 0 {
        2 * M
    } else {
        M as int
    }
}

/// The links of `v` on level `l` lead to other nodes of that level, each
/// once, and are no more than allowed.
pub open spec fn edges_ok(links: Seq<Vec<Vec<u32>>>, v: int, l: int) -> bool {
    let e = edges(links, v, l);
    &&& e.len() <= cap_of(l)
    &&& e.no_duplicates()
    &&& forall|j: int|
        0 <= j < e.len() ==> (#[trigger] e[j]) != v && on_level(links, e[j] as int, l)
}

/// Every node stands on some level, links are in order.
pub open spec fn graph_ok(links: Seq<Vec<Vec<u32>>>) -> bool {
    &&& links.len() <= u32::MAX
    &&& forall|v: int|
        0 <= v < links.len() ==> 1 <= (#[trigger] links[v])@.len() <= MAX_LEVEL + 1
    &&& forall|v: int, l: int| #[trigger] on_level(links, v, l) ==> edges_ok(links, v, l)
}

/// `entry` is a node that stands on every level that is used.
pub open spec fn entry_ok(links: Seq<Vec<Vec<u32>>>, entry: int) -> bool {
    &&& 0 <= entry < links.len()
    &&& forall|v: int|
        0 <= v < links.len() ==> (#[trigger] links[v])@.len() <= links[entry]@.len()
}

/// Some node links to `d` on level `l`.
pub open spec fn has_link(links: Seq<Vec<Vec<u32>>>, d: u32, l: int) -> bool {
    exists|v: int| #[trigger] on_level(links, v, l) && edges(links, v, l).contains(d)
}

/// The best of `x` and the first `j` of `e`.
pub open spec fn best_among(score: spec_fn(u32) -> u32, e: Seq<u32>, x: Neighbor, j: int) -> Neighbor
    decreases j,
{
    if j <= 0 {
        x
    } else {
        let b = best_among(score, e, x, j - 1);
        let c = scored(score, e[j - 1]);
        if closer(c, b) {
            c
        } else {
            b
        }
    }
}

/// The best of `x` and what it links to on `level`.
pub open spec fn step(
    links: Seq<Vec<Vec<u32>>>,
    score: spec_fn(u32) -> u32,
    level: int,
    x: Neighbor,
) -> Neighbor {
    let e = edges(links, x.doc_id as int, level);
    best_among(score, e, x, e.len() as int)
}

proof fn lemma_best_among(score: spec_fn(u32) -> u32, e: Seq<u32>, x: Neighbor, j: int)
    requires
        0 <= j <= e.len(),
    ensures
        best_among(score, e, x, j) == x || (closer(best_among(score, e, x, j), x) && exists|i: int|
            0 <= i < j && best_among(score, e, x, j) == scored(score, #[trigger] e[i])),
        forall|i: int|
            0 <= i < j ==> !closer(scored(score, #[trigger] e[i]), best_among(score, e, x, j)),
    decreases j,
{
    if j > 0 {
        lemma_best_among(score, e, x, j - 1);
        let c = scored(score, e[j - 1]);
    }
}

/// A step goes to something better, or nowhere.
pub proof fn lemma_step(
    links: Seq<Vec<Vec<u32>>>,
    score: spec_fn(u32) -> u32,
    level: int,
    x: Neighbor,
)
    ensures
        step(links, score, level, x) == x || closer(step(links, score, level, x), x),
{
    let e = edges(links, x.doc_id as int, level);
    lemma_best_among(score, e, x, e.len() as int);
}

/// Where a walk from `x` on `level` ends that goes from a node to the best
/// that it links to, until there is no better one.
pub open spec fn walk(
    links: Seq<Vec<Vec<u32>>>,
    score: spec_fn(u32) -> u32,
    level: int,
    x: Neighbor,
) -> Neighbor
    decreases u32::MAX - x.score, x.doc_id,
{
    let next = step(links, score, level, x);
    if next.doc_id == x.doc_id {
        x
    } else {
        proof {
            lemma_step(links, score, level, x);
        }
        walk(links, score, level, next)
    }
}

/// How many similarities that walk computes.
pub open spec fn walk_cost(
    links: Seq<Vec<Vec<u32>>>,
    score: spec_fn(u32) -> u32,
    level: int,
    x: Neighbor,
) -> nat
    decreases u32::MAX - x.score, x.doc_id,
{
    let next = step(links, score, level, x);
    edges(links, x.doc_id as int, level).len() + if next.doc_id == x.doc_id {
        0
    } else {
        proof {
            lemma_step(links, score, level, x);
        }
        walk_cost(links, score, level, next)
    }
}

/// Where the walks on the levels from `from` down to the one above `to` end.
pub open spec fn descent(
    links: Seq<Vec<Vec<u32>>>,
    score: spec_fn(u32) -> u32,
    x: Neighbor,
    from: int,
    to: int,
) -> Neighbor
    decreases from - to,
{
    if from <= to {
        x
    } else {
        descent(links, score, walk(links, score, from, x), from - 1, to)
    }
}

/// How many similarities those walks compute.
pub open spec fn descent_cost(
    links: Seq<Vec<Vec<u32>>>,
    score: spec_fn(u32) -> u32,
    x: Neighbor,
    from: int,
    to: int,
) -> nat
    decreases from - to,
{
    if from <= to {
        0
    } else {
        walk_cost(links, score, from, x) + descent_cost(
            links,
            score,
            walk(links, score, from, x),
            from - 1,
            to,
        )
    }
}

/// Walk to better and better neighbors on a level, until there is none.
fn greedy<F: Fn(u32) -> u32>(
    links: &Vec<Vec<Vec<u32>>>,
    f: &F,
    start: Neighbor,
    level: usize,
    count: &mut u64,
    Ghost(score): Ghost<spec_fn(u32) -> u32>,
) -> (best: Neighbor)
    requires
        graph_ok(links@),
        gives(*f, score, links@.len() as int),
        on_level(links@, start.doc_id as int, level as int),
        start == scored(score, start.doc_id),
    ensures
        best == walk(links@, score, level as int, start),
        on_level(links@, best.doc_id as int, level as int),
        best == scored(score, best.doc_id),
        best == start || has_link(links@, best.doc_id, level as int),
        *final(count) == capped(*old(count) + walk_cost(links@, score, level as int, start)),
{
    let ghost n = links@.len() as int;
    let ghost lv = level as int;
    let mut best: Neighbor = start;
    let ghost mut spent: nat = 0;
    loop
        invariant
            n == links@.len(),
            lv == level,
            graph_ok(links@),
            gives(*f, score, n),
            on_level(links@, best.doc_id as int, lv),
            best == scored(score, best.doc_id),
            best == start || has_link(links@, best.doc_id, lv),
            walk(links@, score, lv, start) == walk(links@, score, lv, best),
            walk_cost(links@, score, lv, start) == spent + walk_cost(links@, score, lv, best),
            *count == capped(*old(count) + spent),
        decreases u32::MAX - best.score, best.doc_id,
    {
        let old_best: Neighbor = best;
        let from: usize = best.doc_id as usize;
        let ghost e = edges(links@, from as int, lv);
        assert(edges_ok(links@, from as int, lv));
        let degree: usize = links[from][level].len();
        let mut j: usize = 0;
        while j < degree
            invariant
                n == links@.len(),
                lv == level,
                graph_ok(links@),
                gives(*f, score, n),
                on_level(links@, from as int, lv),
                e == edges(links@, from as int, lv),
                edges_ok(links@, from as int, lv),
                j <= degree == e.len(),
                best == best_among(score, e, old_best, j as int),
                on_level(links@, best.doc_id as int, lv),
                best == scored(score, best.doc_id),
                best == old_best || has_link(links@, best.doc_id, lv),
                *count == capped(*old(count) + spent + j),
            decreases degree - j,
        {
            let id: u32 = links[from][level][j];
            assert(id == e[j as int]);
            let candidate = score_doc(f, id, count, Ghost(score), Ghost(n));
            if is_closer(candidate, best) {
                assert(e.contains(id));
                best = candidate;
            }
            j += 1;
        }
        proof {
            lemma_best_among(score, e, old_best, degree as int);
            assert(best == step(links@, score, lv, old_best));
        }
        if best.doc_id == old_best.doc_id {
            assert(best == old_best);
            return best;
        }
        proof {
            spent = spent + e.len();
        }
    }
}

// ---------------------------------------------------------------------------
// Exploring a level
// ---------------------------------------------------------------------------

/// The pool is full, and its last item ranks before `x`.
pub open spec fn outranked(pool: Seq<Neighbor>, ef: int, x: Neighbor) -> bool {
    pool.len() == ef && closer(pool.last(), x)
}

/// Every link of `v` on `level` leads into `seen`.
pub open spec fn expanded(links: Seq<Vec<Vec<u32>>>, level: int, seen: Set<u32>, v: u32) -> bool {
    forall|j: int|
        0 <= j < edges(links, v as int, level).len() ==> seen.contains(
            #[trigger] edges(links, v as int, level)[j],
        )
}

/// `d` is an entry, or some node that was seen links to it.
pub open spec fn reached(
    links: Seq<Vec<Vec<u32>>>,
    level: int,
    entries: Seq<u32>,
    seen: Set<u32>,
    d: u32,
) -> bool {
    entries.contains(d) || exists|v: u32| #[trigger]
        seen.contains(v) && edges(links, v as int, level).contains(d)
}

/// A best-first exploration of `level` from `entries` that came to its end
/// with `pool`: what was seen and is live is in the pool or ranks behind all
/// of a full pool, and the links of what was seen were followed, unless it
/// ranks behind all of a full pool. Nothing else was seen.
pub open spec fn explored(
    links: Seq<Vec<Vec<u32>>>,
    score: spec_fn(u32) -> u32,
    lives: spec_fn(u32) -> bool,
    entries: Seq<u32>,
    ef: int,
    level: int,
    pool: Seq<Neighbor>,
    seen: Set<u32>,
) -> bool {
    &&& ranked(pool)
    &&& pool.len() <= ef
    &&& seen.finite()
    &&& forall|i: int|
        0 <= i < pool.len() ==> {
            &&& (#[trigger] pool[i]) == scored(score, pool[i].doc_id)
            &&& seen.contains(pool[i].doc_id)
            &&& lives(pool[i].doc_id)
        }
    &&& forall|i: int| 0 <= i < entries.len() ==> seen.contains(#[trigger] entries[i])
    &&& forall|s: u32| #[trigger]
        seen.contains(s) ==> on_level(links, s as int, level) && reached(
            links,
            level,
            entries,
            seen,
            s,
        )
    &&& forall|s: u32| #[trigger]
        seen.contains(s) && lives(s) ==> lists(pool, s) || outranked(
            pool,
            ef,
            scored(score, s),
        )
    &&& forall|s: u32| #[trigger]
        seen.contains(s) ==> expanded(links, level, seen, s) || outranked(
            pool,
            ef,
            scored(score, s),
        )
}

/// Enroll `n` in the pool; the last item leaves if there are too many.
fn enroll(pool: &mut Vec<Neighbor>, n: Neighbor, ef: usize)
    requires
        ef >= 1,
        ranked(old(pool)@),
        old(pool)@.len() <= ef,
        !lists(old(pool)@, n.doc_id),
        old(pool)@.len() == ef ==> closer(n, old(pool)@.last()),
    ensures
        ranked(final(pool)@),
        final(pool)@.len() == if old(pool)@.len() < ef {
            (old(pool)@.len() + 1) as int
        } else {
            ef as int
        },
        forall|i: int|
            0 <= i < final(pool)@.len() ==> (#[trigger] final(pool)@[i]) == n
                || old(pool)@.contains(final(pool)@[i]),
        forall|x: Neighbor| #[trigger]
            outranked(old(pool)@, ef as int, x) ==> outranked(final(pool)@, ef as int, x),
        forall|i: int|
            0 <= i < old(pool)@.len() ==> lists(final(pool)@, (#[trigger] old(pool)@[i]).doc_id)
                || outranked(final(pool)@, ef as int, old(pool)@[i]),
        lists(final(pool)@, n.doc_id),
{
    let ghost before = pool@;
    place(pool, n);
    let ghost all = pool@;
    if pool.len() > ef {
        let _ = pool.pop();
        proof {
            let last = all[ef as int];
            assert(pool@ =~= all.drop_last());
            assert forall|i: int, j: int| 0 <= i < j < pool@.len() implies closer(
                #[trigger] pool@[i],
                #[trigger] pool@[j],
            ) by {
                assert(closer(all[i], all[j]));
            }
            assert(closer(all[ef - 1], all[ef as int]));
            // The item that leaves is the one that was last.
            let k = choose|k: int| 0 <= k < all.len() && all[k] == before.last();
            assert(all.contains(before[ef - 1]));
            assert(k < ef ==> closer(all[k], last));
            if last != before.last() {
                if last != n {
                    assert(before.contains(last));
                    let m = choose|m: int| 0 <= m < before.len() && before[m] == last;
                    assert(closer(before[m], before[ef - 1]));
                }
            }
            assert(last == before.last());
            assert forall|i: int| 0 <= i < before.len() implies lists(
                pool@,
                (#[trigger] before[i]).doc_id,
            ) || outranked(pool@, ef as int, before[i]) by {
                assert(all.contains(before[i]));
                let m = choose|m: int| 0 <= m < all.len() && all[m] == before[i];
                if m < ef {
                    assert(pool@[m].doc_id == before[i].doc_id);
                } else {
                    assert(closer(pool@.last(), before[i]));
                }
            }
            let m = choose|m: int| 0 <= m < all.len() && all[m] == n;
            assert(m != ef);
            assert(pool@[m].doc_id == n.doc_id);
            assert forall|x: Neighbor| #[trigger] outranked(before, ef as int, x) implies outranked(
                pool@,
                ef as int,
                x,
            ) by {
                assert(closer(pool@.last(), before.last()));
            }
        }
    } else {
        proof {
            assert forall|i: int| 0 <= i < before.len() implies lists(
                pool@,
                (#[trigger] before[i]).doc_id,
            ) || outranked(pool@, ef as int, before[i]) by {
                assert(pool@.contains(before[i]));
                let m = choose|m: int| 0 <= m < pool@.len() && pool@[m] == before[i];
                assert(pool@[m].doc_id == before[i].doc_id);
            }
        }
    }
}

/// What every step of an exploration keeps. `open` is the node whose links
/// are being followed.
spec fn exploring(
    links: Seq<Vec<Vec<u32>>>,
    score: spec_fn(u32) -> u32,
    lives: spec_fn(u32) -> bool,
    entries: Seq<u32>,
    ef: int,
    level: int,
    pool: Seq<Neighbor>,
    frontier: Seq<Neighbor>,
    seen: Set<u32>,
    done: Set<u32>,
    open: Option<u32>,
) -> bool {
    &&& ranked(pool)
    &&& pool.len() <= ef
    &&& ranked(frontier)
    &&& forall|i: int|
        0 <= i < pool.len() ==> {
            &&& (#[trigger] pool[i]) == scored(score, pool[i].doc_id)
            &&& seen.contains(pool[i].doc_id)
            &&& lives(pool[i].doc_id)
        }
    &&& forall|i: int|
        0 <= i < frontier.len() ==> {
            &&& (#[trigger] frontier[i]) == scored(score, frontier[i].doc_id)
            &&& seen.contains(frontier[i].doc_id)
        }
    &&& forall|s: u32| #[trigger]
        seen.contains(s) ==> on_level(links, s as int, level) && reached(
            links,
            level,
            entries,
            seen,
            s,
        )
    &&& forall|s: u32| #[trigger]
        seen.contains(s) && lives(s) ==> lists(pool, s) || outranked(
            pool,
            ef,
            scored(score, s),
        )
    &&& forall|s: u32| #[trigger]
        seen.contains(s) ==> done.contains(s) || open == Some(s) || lists(frontier, s)
            || outranked(pool, ef, scored(score, s))
    &&& forall|s: u32| #[trigger]
        done.contains(s) ==> seen.contains(s) && expanded(links, level, seen, s)
}

/// A document that was not seen is scored and taken in.
fn take_in<F: Fn(u32) -> u32, L: Fn(u32) -> bool>(
    links: &Vec<Vec<Vec<u32>>>,
    f: &F,
    live: &L,
    id: u32,
    ef: usize,
    level: usize,
    pool: &mut Vec<Neighbor>,
    frontier: &mut Vec<Neighbor>,
    count: &mut u64,
    Ghost(score): Ghost<spec_fn(u32) -> u32>,
    Ghost(lives): Ghost<spec_fn(u32) -> bool>,
    Ghost(entries): Ghost<Seq<u32>>,
    Ghost(seen): Ghost<Set<u32>>,
    Ghost(done): Ghost<Set<u32>>,
    Ghost(open): Ghost<Option<u32>>,
)
    requires
        ef >= 1,
        graph_ok(links@),
        gives(*f, score, links@.len() as int),
        knows(*live, lives, links@.len() as int),
        on_level(links@, id as int, level as int),
        !seen.contains(id),
        reached(links@, level as int, entries, seen, id),
        exploring(
            links@,
            score,
            lives,
            entries,
            ef as int,
            level as int,
            old(pool)@,
            old(frontier)@,
            seen,
            done,
            open,
        ),
    ensures
        exploring(
            links@,
            score,
            lives,
            entries,
            ef as int,
            level as int,
            final(pool)@,
            final(frontier)@,
            seen.insert(id),
            done,
            open,
        ),
        *final(count) == capped(*old(count) + 1),
{
    let ghost n = links@.len() as int;
    let ghost pool0 = pool@;
    let ghost frontier0 = frontier@;
    let ghost more = seen.insert(id);
    let size: usize = pool.len();
    let x = score_doc(f, id, count, Ghost(score), Ghost(n));
    proof {
        if lists(pool@, id) {
            let i = choose|i: int| 0 <= i < pool@.len() && (#[trigger] pool@[i]).doc_id == id;
            assert(seen.contains(pool@[i].doc_id));
        }
        if lists(frontier@, id) {
            let i = choose|i: int|
                0 <= i < frontier@.len() && (#[trigger] frontier@[i]).doc_id == id;
            assert(seen.contains(frontier@[i].doc_id));
        }
        assert forall|s: u32| #[trigger] done.contains(s) implies expanded(
            links@,
            level as int,
            more,
            s,
        ) by {
            assert(expanded(links@, level as int, seen, s));
        }
    }
    if size < ef || is_closer(x, pool[size - 1]) {
        place(frontier, x);
        let alive: bool = live(id);
        if alive {
            enroll(pool, x, ef);
        }
        proof {
            assert(call_ensures(*live, (id,), alive));
            lemma_taken_in(
                links@,
                score,
                lives,
                entries,
                ef as int,
                level as int,
                pool0,
                frontier0,
                pool@,
                frontier@,
                seen,
                done,
                open,
                id,
                alive,
            );
        }
    } else {
        proof {
            lemma_reached_more(links@, level as int, entries, seen, id);
            assert(closer(pool@.last(), x)) by {
                assert(seen.contains(pool@[size - 1].doc_id));
            }
            assert forall|s: u32| #[trigger] more.contains(s) && lives(s) implies lists(
                pool@,
                s,
            ) || outranked(pool@, ef as int, scored(score, s)) by {
                if s != id {
                    assert(seen.contains(s));
                }
            }
            assert forall|s: u32| #[trigger] more.contains(s) implies done.contains(s) || open
                == Some(s) || lists(frontier@, s) || outranked(
                pool@,
                ef as int,
                scored(score, s),
            ) by {
                if s != id {
                    assert(seen.contains(s));
                }
            }
        }
    }
}

proof fn lemma_reached_more(
    links: Seq<Vec<Vec<u32>>>,
    level: int,
    entries: Seq<u32>,
    seen: Set<u32>,
    id: u32,
)
    requires
        reached(links, level, entries, seen, id),
        forall|s: u32| #[trigger]
            seen.contains(s) ==> reached(links, level, entries, seen, s),
    ensures
        forall|s: u32| #[trigger]
            seen.insert(id).contains(s) ==> reached(links, level, entries, seen.insert(id), s),
{
    let more = seen.insert(id);
    assert forall|s: u32| #[trigger] more.contains(s) implies reached(
        links,
        level,
        entries,
        more,
        s,
    ) by {
        assert(reached(links, level, entries, seen, s)) by {
            if s != id {
                assert(seen.contains(s));
            }
        }
        if !entries.contains(s) {
            let v = choose|v: u32| #[trigger]
                seen.contains(v) && edges(links, v as int, level).contains(s);
            assert(more.contains(v));
        }
    }
}

proof fn lemma_taken_in(
    links: Seq<Vec<Vec<u32>>>,
    score: spec_fn(u32) -> u32,
    lives: spec_fn(u32) -> bool,
    entries: Seq<u32>,
    ef: int,
    level: int,
    pool0: Seq<Neighbor>,
    frontier0: Seq<Neighbor>,
    pool: Seq<Neighbor>,
    frontier: Seq<Neighbor>,
    seen: Set<u32>,
    done: Set<u32>,
    open: Option<u32>,
    id: u32,
    alive: bool,
)
    requires
        ef >= 1,
        exploring(links, score, lives, entries, ef, level, pool0, frontier0, seen, done, open),
        on_level(links, id as int, level),
        reached(links, level, entries, seen, id),
        alive == lives(id),
        ranked(pool),
        pool.len() <= ef,
        ranked(frontier),
        forall|i: int|
            0 <= i < frontier.len() ==> (#[trigger] frontier[i]) == scored(score, id)
                || frontier0.contains(frontier[i]),
        forall|d: u32| #[trigger] lists(frontier, d) == (d == id || lists(frontier0, d)),
        !alive ==> pool == pool0,
        alive ==> lists(pool, id),
        forall|i: int|
            0 <= i < pool.len() ==> (alive && (#[trigger] pool[i]) == scored(score, id))
                || pool0.contains(pool[i]),
        forall|x: Neighbor| #[trigger] outranked(pool0, ef, x) ==> outranked(pool, ef, x),
        forall|i: int|
            0 <= i < pool0.len() ==> lists(pool, (#[trigger] pool0[i]).doc_id) || outranked(
                pool,
                ef,
                pool0[i],
            ),
        forall|s: u32| #[trigger]
            done.contains(s) ==> expanded(links, level, seen.insert(id), s),
    ensures
        exploring(links, score, lives, entries, ef, level, pool, frontier, seen.insert(id), done, open),
{
    let more = seen.insert(id);
    lemma_reached_more(links, level, entries, seen, id);
    assert forall|i: int| 0 <= i < pool.len() implies {
        &&& (#[trigger] pool[i]) == scored(score, pool[i].doc_id)
        &&& more.contains(pool[i].doc_id)
        &&& lives(pool[i].doc_id)
    } by {
        if pool0.contains(pool[i]) {
            let k = choose|k: int| 0 <= k < pool0.len() && pool0[k] == pool[i];
            assert(seen.contains(pool0[k].doc_id));
        }
    }
    assert forall|i: int| 0 <= i < frontier.len() implies {
        &&& (#[trigger] frontier[i]) == scored(score, frontier[i].doc_id)
        &&& more.contains(frontier[i].doc_id)
    } by {
        if frontier0.contains(frontier[i]) {
            let k = choose|k: int| 0 <= k < frontier0.len() && frontier0[k] == frontier[i];
            assert(seen.contains(frontier0[k].doc_id));
        }
    }
    assert forall|s: u32| #[trigger] more.contains(s) && lives(s) implies lists(pool, s)
        || outranked(pool, ef, scored(score, s)) by {
        if s == id {
            assert(alive);
        } else {
            assert(seen.contains(s));
            if lists(pool0, s) {
                let k = choose|k: int| 0 <= k < pool0.len() && (#[trigger] pool0[k]).doc_id == s;
                assert(pool0[k] == scored(score, s));
            } else {
                assert(outranked(pool0, ef, scored(score, s)));
            }
        }
    }
    assert forall|s: u32| #[trigger] more.contains(s) implies done.contains(s) || open == Some(s)
        || lists(frontier, s) || outranked(pool, ef, scored(score, s)) by {
        if s != id {
            assert(seen.contains(s));
            if outranked(pool0, ef, scored(score, s)) {
                assert(outranked(pool, ef, scored(score, s)));
            }
        }
    }
}

/// A finite set of numbers below `n` has at most `n` elements.
proof fn lemma_below_len(s: Set<u32>, n: int)
    requires
        s.finite(),
        n >= 0,
        forall|x: u32| #[trigger] s.contains(x) ==> x < n,
    ensures
        s.len() <= n,
    decreases n,
{
    if n == 0 {
        assert(s =~= Set::<u32>::empty()) by {
            assert forall|x: u32| !s.contains(x) by {
                if s.contains(x) {
                    assert(x < 0);
                }
            }
        }
    } else if n - 1 <= u32::MAX && s.contains((n - 1) as u32) {
        let last = (n - 1) as u32;
        lemma_below_len(s.remove(last), n - 1);
    } else {
        assert forall|x: u32| #[trigger] s.contains(x) implies x < n - 1 by {
            if x == n - 1 {
                assert(s.contains((n - 1) as u32));
            }
        }
        lemma_below_len(s, n - 1);
    }
}

/// Explore a level best first from `entries`, and keep the `ef` best live
/// documents, best first.
fn layer<F: Fn(u32) -> u32, L: Fn(u32) -> bool>(
    links: &Vec<Vec<Vec<u32>>>,
    f: &F,
    entries: &[u32],
    ef: usize,
    level: usize,
    count: &mut u64,
    live: &L,
    Ghost(score): Ghost<spec_fn(u32) -> u32>,
    Ghost(lives): Ghost<spec_fn(u32) -> bool>,
) -> (pool: Vec<Neighbor>)
    requires
        graph_ok(links@),
        gives(*f, score, links@.len() as int),
        knows(*live, lives, links@.len() as int),
        1 <= ef,
        entries@.len() <= ef,
        forall|i: int|
            0 <= i < entries@.len() ==> on_level(
                links@,
                (#[trigger] entries@[i]) as int,
                level as int,
            ),
    ensures
        exists|seen: Set<u32>| #[trigger]
            explored(links@, score, lives, entries@, ef as int, level as int, pool@, seen)
                && *final(count) == capped(*old(count) + seen.len()),
{
    broadcast use vstd::std_specs::hash::group_hash_axioms;

    let ghost n = links@.len() as int;
    let ghost lv = level as int;
    let mut seen: HashSet<u32> = HashSet::new();
    let ghost mut g: Set<u32> = Set::empty();
    let ghost mut done: Set<u32> = Set::empty();
    let mut frontier: Vec<Neighbor> = Vec::new();
    let mut pool: Vec<Neighbor> = Vec::new();
    let mut i: usize = 0;
    while i < entries.len()
        invariant
            n == links@.len(),
            lv == level,
            graph_ok(links@),
            gives(*f, score, n),
            knows(*live, lives, n),
            1 <= ef,
            i <= entries@.len() <= ef,
            forall|k: int|
                0 <= k < entries@.len() ==> on_level(links@, (#[trigger] entries@[k]) as int, lv),
            seen@ == g,
            g.finite(),
            exploring(links@, score, lives, entries@, ef as int, lv, pool@, frontier@, g, done, None),
            forall|k: int| 0 <= k < i ==> g.contains(#[trigger] entries@[k]),
            *count == capped(*old(count) + g.len()),
        decreases entries@.len() - i,
    {
        broadcast use vstd::std_specs::hash::group_hash_axioms;

        let id: u32 = entries[i];
        if seen.insert(id) {
            take_in(
                links,
                f,
                live,
                id,
                ef,
                level,
                &mut pool,
                &mut frontier,
                count,
                Ghost(score),
                Ghost(lives),
                Ghost(entries@),
                Ghost(g),
                Ghost(done),
                Ghost(None),
            );
            proof {
                g = g.insert(id);
            }
        }
        i += 1;
    }
    let mut go: bool = true;
    while go && frontier.len() > 0
        invariant
            n == links@.len(),
            lv == level,
            graph_ok(links@),
            gives(*f, score, n),
            knows(*live, lives, n),
            1 <= ef,
            seen@ == g,
            g.finite(),
            exploring(links@, score, lives, entries@, ef as int, lv, pool@, frontier@, g, done, None),
            forall|k: int| 0 <= k < entries@.len() ==> g.contains(#[trigger] entries@[k]),
            !go ==> frontier@.len() > 0 && outranked(pool@, ef as int, frontier@[0]),
            *count == capped(*old(count) + g.len()),
        decreases n - g.len(), frontier@.len(), go as int,
    {
        broadcast use vstd::std_specs::hash::group_hash_axioms;

        let size: usize = pool.len();
        let candidate: Neighbor = frontier[0];
        if size >= ef && is_closer(pool[size - 1], candidate) {
            go = false;
            continue;
        }
        let ghost before = frontier@;
        let _ = frontier.remove(0);
        let ghost size_before = g.len();
        let from: usize = candidate.doc_id as usize;
        proof {
            assert(frontier@ =~= before.remove(0));
            assert(g.contains(before[0].doc_id));
            assert(on_level(links@, from as int, lv));
            assert forall|a: int, b: int| 0 <= a < b < frontier@.len() implies closer(
                #[trigger] frontier@[a],
                #[trigger] frontier@[b],
            ) by {
                assert(closer(before[a + 1], before[b + 1]));
            }
            assert forall|a: int| 0 <= a < frontier@.len() implies {
                &&& (#[trigger] frontier@[a]) == scored(score, frontier@[a].doc_id)
                &&& g.contains(frontier@[a].doc_id)
            } by {
                assert(frontier@[a] == before[a + 1]);
            }
            assert forall|s: u32| #[trigger] g.contains(s) implies done.contains(s) || Some(
                candidate.doc_id,
            ) == Some(s) || lists(frontier@, s) || outranked(
                pool@,
                ef as int,
                scored(score, s),
            ) by {
                if lists(before, s) {
                    let a = choose|a: int|
                        0 <= a < before.len() && (#[trigger] before[a]).doc_id == s;
                    if a > 0 {
                        assert(frontier@[a - 1].doc_id == s);
                    }
                }
            }
        }
        let ghost e = edges(links@, from as int, lv);
        assert(edges_ok(links@, from as int, lv));
        let degree: usize = links[from][level].len();
        let mut j: usize = 0;
        while j < degree
            invariant
                n == links@.len(),
                lv == level,
                graph_ok(links@),
                gives(*f, score, n),
                knows(*live, lives, n),
                1 <= ef,
                seen@ == g,
                g.finite(),
                size_before <= g.len(),
                g.len() == size_before ==> frontier@.len() < before.len(),
                from == candidate.doc_id,
                g.contains(candidate.doc_id),
                on_level(links@, from as int, lv),
                e == edges(links@, from as int, lv),
                edges_ok(links@, from as int, lv),
                j <= degree == e.len(),
                exploring(
                    links@,
                    score,
                    lives,
                    entries@,
                    ef as int,
                    lv,
                    pool@,
                    frontier@,
                    g,
                    done,
                    Some(candidate.doc_id),
                ),
                forall|k: int| 0 <= k < entries@.len() ==> g.contains(#[trigger] entries@[k]),
                forall|k: int| 0 <= k < j ==> g.contains(#[trigger] e[k]),
                *count == capped(*old(count) + g.len()),
            decreases degree - j,
        {
            broadcast use vstd::std_specs::hash::group_hash_axioms;

            let id: u32 = links[from][level][j];
            assert(id == e[j as int]);
            assert(e.contains(id));
            if seen.insert(id) {
                take_in(
                    links,
                    f,
                    live,
                    id,
                    ef,
                    level,
                    &mut pool,
                    &mut frontier,
                    count,
                    Ghost(score),
                    Ghost(lives),
                    Ghost(entries@),
                    Ghost(g),
                    Ghost(done),
                    Ghost(Some(candidate.doc_id)),
                );
                proof {
                    g = g.insert(id);
                }
            }
            j += 1;
        }
        proof {
            done = done.insert(candidate.doc_id);
            assert(expanded(links@, lv, g, candidate.doc_id));
            lemma_below_len(g, n);
        }
    }
    proof {
        assert forall|s: u32| #[trigger] g.contains(s) implies expanded(links@, lv, g, s)
            || outranked(pool@, ef as int, scored(score, s)) by {
            if !done.contains(s) && lists(frontier@, s) {
                let a = choose|a: int|
                    0 <= a < frontier@.len() && (#[trigger] frontier@[a]).doc_id == s;
                if a > 0 {
                    assert(closer(frontier@[0], frontier@[a]));
                }
                assert(frontier@[a] == scored(score, s));
            }
        }
        assert(explored(links@, score, lives, entries@, ef as int, lv, pool@, g));
    }
    pool
}

// ---------------------------------------------------------------------------
// Searching
// ---------------------------------------------------------------------------

/// What a search found.
pub struct SearchResult {
    pub hits: Vec<Neighbor>,
    /// How many similarities were computed, for routing and falling back too.
    pub distance_computations: u64,
    /// All documents were scored.
    pub exact_fallback: bool,
}

/// A graph over the documents of one set of vectors.
pub struct HnswIndex {
    /// The links of every node on every level that it stands on.
    pub links: Vec<Vec<Vec<u32>>>,
    pub entry: u32,
    pub dim: u32,
    /// Identifies the set of vectors.
    pub generation: (u64, u128),
}

/// `hits` are the best `k` of the live documents below `upto`, best first.
pub open spec fn exact_top(
    score: spec_fn(u32) -> u32,
    lives: spec_fn(u32) -> bool,
    upto: int,
    k: int,
    hits: Seq<Neighbor>,
) -> bool {
    &&& ranked(hits)
    &&& hits.len() <= k
    &&& forall|i: int|
        0 <= i < hits.len() ==> {
            &&& (#[trigger] hits[i]) == scored(score, hits[i].doc_id)
            &&& hits[i].doc_id < upto
            &&& lives(hits[i].doc_id)
        }
    &&& forall|d: u32|
        d < upto && lives(d) ==> #[trigger] lists(hits, d) || outranked(
            hits,
            k,
            scored(score, d),
        )
}

/// How many of the documents below `n` are live.
pub open spec fn live_count(lives: spec_fn(u32) -> bool, n: int) -> nat
    decreases n,
{
    if n <= 0 {
        0
    } else if lives((n - 1) as u32) {
        live_count(lives, n - 1) + 1
    } else {
        live_count(lives, n - 1)
    }
}

/// Score every live document and keep the best `k`.
fn scan<F: Fn(u32) -> u32, L: Fn(u32) -> bool>(
    f: &F,
    live: &L,
    n: u32,
    k: usize,
    count: &mut u64,
    Ghost(score): Ghost<spec_fn(u32) -> u32>,
    Ghost(lives): Ghost<spec_fn(u32) -> bool>,
) -> (hits: Vec<Neighbor>)
    requires
        gives(*f, score, n as int),
        knows(*live, lives, n as int),
        k >= 1,
    ensures
        exact_top(score, lives, n as int, k as int, hits@),
        *final(count) == capped(*old(count) + live_count(lives, n as int)),
{
    let mut hits: Vec<Neighbor> = Vec::new();
    let mut d: u32 = 0;
    while d < n
        invariant
            gives(*f, score, n as int),
            knows(*live, lives, n as int),
            k >= 1,
            d <= n,
            exact_top(score, lives, d as int, k as int, hits@),
            *count == capped(*old(count) + live_count(lives, d as int)),
        decreases n - d,
    {
        let ghost before = hits@;
        let alive: bool = live(d);
        assert(call_ensures(*live, (d,), alive));
        let ghost x = scored(score, d);
        if alive {
            let own = score_doc(f, d, count, Ghost(score), Ghost(n as int));
            let size: usize = hits.len();
            proof {
                if lists(hits@, d) {
                    let i = choose|i: int|
                        0 <= i < hits@.len() && (#[trigger] hits@[i]).doc_id == d;
                    assert(hits@[i].doc_id < d);
                }
            }
            if size < k || is_closer(own, hits[size - 1]) {
                enroll(&mut hits, own, k);
                proof {
                    assert forall|i: int| 0 <= i < hits@.len() implies {
                        &&& (#[trigger] hits@[i]) == scored(score, hits@[i].doc_id)
                        &&& hits@[i].doc_id < d + 1
                        &&& lives(hits@[i].doc_id)
                    } by {
                        if before.contains(hits@[i]) {
                            let m = choose|m: int| 0 <= m < before.len() && before[m] == hits@[i];
                            assert(before[m].doc_id < d);
                        }
                    }
                }
            } else {
                assert(closer(hits@.last(), own)) by {
                    assert(hits@[size - 1].doc_id < d);
                }
            }
        }
        proof {
            assert forall|e: u32| e < d + 1 && lives(e) implies #[trigger] lists(hits@, e)
                || outranked(hits@, k as int, scored(score, e)) by {
                if e < d {
                    assert(lists(before, e) || outranked(before, k as int, scored(score, e)));
                    if lists(before, e) {
                        let m = choose|m: int|
                            0 <= m < before.len() && (#[trigger] before[m]).doc_id == e;
                        assert(before[m] == scored(score, e));
                    }
                } else {
                    assert(alive);
                }
            }
        }
        d += 1;
    }
    hits
}

/// A walk through the graph: down from the entry, then an exploration of the
/// lowest level that finds `pool`. `cost` similarities are computed.
pub open spec fn walked(
    g: HnswIndex,
    score: spec_fn(u32) -> u32,
    lives: spec_fn(u32) -> bool,
    width: int,
    pool: Seq<Neighbor>,
    cost: nat,
) -> bool {
    let top = g.links@[g.entry as int]@.len() - 1;
    let start = scored(score, g.entry);
    let ep = descent(g.links@, score, start, top, 0);
    exists|seen: Set<u32>| #[trigger]
        explored(g.links@, score, lives, seq![ep.doc_id], width, 0, pool, seen) && cost == 1
            + descent_cost(g.links@, score, start, top, 0) + seen.len()
}

/// What a search for the best `k` comes to, where a walk found `pool`: the
/// first of it, or, if that is too few, the best of all live documents.
pub open spec fn answers_with(
    n: int,
    score: spec_fn(u32) -> u32,
    lives: spec_fn(u32) -> bool,
    k: int,
    pool: Seq<Neighbor>,
    cost: nat,
    r: SearchResult,
) -> bool {
    let found = if k < pool.len() {
        pool.take(k)
    } else {
        pool
    };
    let enough = if k < n {
        k
    } else {
        n
    };
    &&& r.exact_fallback == (found.len() < enough)
    &&& !r.exact_fallback ==> r.hits@ == found && r.distance_computations == capped(cost as int)
    &&& r.exact_fallback ==> {
        &&& exact_top(score, lives, n, k, r.hits@)
        &&& r.distance_computations == capped((cost + live_count(lives, n)) as int)
    }
}

impl HnswIndex {
    pub open spec fn wf(&self) -> bool {
        &&& graph_ok(self.links@)
        &&& entry_ok(self.links@, self.entry as int)
    }

    /// How many documents the search keeps on the lowest level.
    pub open spec fn width(&self, k: int, ef: int) -> int {
        let wide = if ef > k {
            ef
        } else {
            k
        };
        let some = if wide > 1 {
            wide
        } else {
            1
        };
        if some < self.links@.len() {
            some
        } else {
            self.links@.len() as int
        }
    }

    /// The best `k` live documents. Mostly by walking the graph, which may
    /// miss some; if that finds fewer than `k`, by scoring all documents.
    pub fn search<F: Fn(u32) -> u32, L: Fn(u32) -> bool>(
        &self,
        f: &F,
        k: usize,
        ef: usize,
        live: &L,
    ) -> (r: SearchResult)
        requires
            self.wf(),
            scores_docs(*f, self.links@.len() as int),
            tells_live(*live, self.links@.len() as int),
        ensures
            k == 0 ==> r.hits@.len() == 0 && r.distance_computations == 0 && !r.exact_fallback,
            k > 0 ==> exists|pool: Seq<Neighbor>, cost: nat| #[trigger]
                walked(*self, scores_of(*f), lives_of(*live), self.width(k as int, ef as int), pool, cost)
                    && answers_with(
                    self.links@.len() as int,
                    scores_of(*f),
                    lives_of(*live),
                    k as int,
                    pool,
                    cost,
                    r,
                ),
            ranked(r.hits@),
            forall|i: int|
                0 <= i < r.hits@.len() ==> {
                    &&& (#[trigger] r.hits@[i]) == scored(scores_of(*f), r.hits@[i].doc_id)
                    &&& r.hits@[i].doc_id < self.links@.len()
                    &&& live_by(*live, r.hits@[i].doc_id)
                },
    {
        let mut count: u64 = 0;
        if k == 0 {
            return SearchResult {
                hits: Vec::new(),
                distance_computations: 0,
                exact_fallback: false,
            };
        }
        let ghost links = self.links@;
        let ghost score = scores_of(*f);
        let ghost lives = lives_of(*live);
        let n: usize = self.links.len();
        let ghost start = scored(score, self.entry);
        let ghost top = links[self.entry as int]@.len() - 1;
        let ghost mut spent: nat = 0;
        proof {
            assert(gives(*f, score, n as int));
            assert(knows(*live, lives, n as int));
        }
        let mut ep = score_doc(f, self.entry, &mut count, Ghost(score), Ghost(n as int));
        let mut level: usize = self.links[self.entry as usize].len() - 1;
        while level > 0
            invariant
                links == self.links@,
                self.wf(),
                n == links.len(),
                gives(*f, score, n as int),
                level <= top,
                top == links[self.entry as int]@.len() - 1,
                on_level(links, ep.doc_id as int, level as int),
                ep == scored(score, ep.doc_id),
                descent(links, score, start, top, 0) == descent(links, score, ep, level as int, 0),
                descent_cost(links, score, start, top, 0) == spent + descent_cost(
                    links,
                    score,
                    ep,
                    level as int,
                    0,
                ),
                count == capped((1 + spent) as int),
            decreases level,
        {
            let ghost from = ep;
            ep = greedy(&self.links, f, ep, level, &mut count, Ghost(score));
            proof {
                spent = spent + walk_cost(links, score, level as int, from);
            }
            level -= 1;
        }
        let wide: usize = if ef > k { ef } else { k };
        let some: usize = if wide > 1 { wide } else { 1 };
        let width: usize = if some < n { some } else { n };
        let starts: [u32; 1] = [ep.doc_id];
        assert(starts@ =~= seq![ep.doc_id]);
        let ghost routed = count;
        let mut hits = layer(
            &self.links,
            f,
            starts.as_slice(),
            width,
            0,
            &mut count,
            live,
            Ghost(score),
            Ghost(lives),
        );
        let ghost pool = hits@;
        let ghost seen = choose|seen: Set<u32>| #[trigger]
            explored(links, score, lives, seq![ep.doc_id], width as int, 0, pool, seen) && count
                == capped(routed + seen.len());
        let ghost cost: nat = 1 + spent + seen.len();
        if hits.len() > k {
            hits.truncate(k);
        }
        let ghost found = if k < pool.len() {
            pool.take(k as int)
        } else {
            pool
        };
        proof {
            assert(explored(links, score, lives, seq![ep.doc_id], width as int, 0, pool, seen));
            assert(hits@ =~= found);
            assert(count == capped(cost as int));
            assert(width == self.width(k as int, ef as int));
            assert(walked(*self, score, lives, self.width(k as int, ef as int), pool, cost));
            assert forall|i: int| 0 <= i < hits@.len() implies {
                &&& (#[trigger] hits@[i]) == scored(score, hits@[i].doc_id)
                &&& hits@[i].doc_id < n
                &&& lives(hits@[i].doc_id)
            } by {
                assert(pool[i] == hits@[i]);
                assert(seen.contains(pool[i].doc_id));
            }
            assert forall|i: int, j: int| 0 <= i < j < hits@.len() implies closer(
                #[trigger] hits@[i],
                #[trigger] hits@[j],
            ) by {
                assert(closer(pool[i], pool[j]));
            }
        }
        let least: usize = if k < n { k } else { n };
        let size: usize = hits.len();
        if size < least {
            let all = scan(f, live, n as u32, k, &mut count, Ghost(score), Ghost(lives));
            let r = SearchResult { hits: all, distance_computations: count, exact_fallback: true };
            assert(answers_with(n as int, score, lives, k as int, pool, cost, r));
            return r;
        }
        let r = SearchResult { hits, distance_computations: count, exact_fallback: false };
        assert(answers_with(n as int, score, lives, k as int, pool, cost, r));
        r
    }

    /// Is this the graph of these vectors?
    pub fn matches(&self, num_docs: u32, dim: u32, generation: (u64, u128)) -> (r: bool)
        ensures
            r == (self.links@.len() == num_docs && self.dim == dim && self.generation
                == generation),
    {
        self.links.len() as u64 == num_docs as u64 && self.dim == dim && self.generation.0
            == generation.0 && self.generation.1 == generation.1
    }
}

// ---------------------------------------------------------------------------
// Building
// ---------------------------------------------------------------------------

/// `c` is more similar to one of `chosen` than to the center.
pub open spec fn redundant<P: Fn(u32, u32) -> u32>(pair: P, chosen: Seq<u32>, c: Neighbor) -> bool {
    exists|i: int|
        0 <= i < chosen.len() && pair_by(pair, c.doc_id, #[trigger] chosen[i]) > c.score
}

/// The first `i` candidates, taken or rejected: redundant ones are rejected,
/// and none is taken beyond `cap`.
pub open spec fn sifted<P: Fn(u32, u32) -> u32>(
    pair: P,
    candidates: Seq<Neighbor>,
    cap: int,
    i: int,
) -> (Seq<u32>, Seq<u32>)
    decreases i,
{
    if i <= 0 {
        (Seq::empty(), Seq::empty())
    } else {
        let (chosen, rejected) = sifted(pair, candidates, cap, i - 1);
        let c = candidates[i - 1];
        if chosen.len() == cap {
            (chosen, rejected)
        } else if redundant(pair, chosen, c) {
            (chosen, rejected.push(c.doc_id))
        } else {
            (chosen.push(c.doc_id), rejected)
        }
    }
}

/// The neighbors to link to: the candidates that are not redundant, then the
/// first of the others while there is room.
pub open spec fn selection<P: Fn(u32, u32) -> u32>(
    pair: P,
    candidates: Seq<Neighbor>,
    cap: int,
) -> Seq<u32> {
    let (chosen, rejected) = sifted(pair, candidates, cap, candidates.len() as int);
    let room = cap - chosen.len();
    chosen + rejected.take(
        if room < rejected.len() {
            room
        } else {
            rejected.len() as int
        },
    )
}

/// No document occurs twice.
pub open spec fn distinct_docs(s: Seq<Neighbor>) -> bool {
    forall|i: int, j: int|
        0 <= i < j < s.len() ==> (#[trigger] s[i]).doc_id != (#[trigger] s[j]).doc_id
}

/// The documents of `s` are below `n`.
pub open spec fn docs_below(s: Seq<Neighbor>, n: int) -> bool {
    forall|i: int| 0 <= i < s.len() ==> (#[trigger] s[i]).doc_id < n
}

proof fn lemma_sifted<P: Fn(u32, u32) -> u32>(
    pair: P,
    candidates: Seq<Neighbor>,
    cap: int,
    i: int,
)
    requires
        distinct_docs(candidates),
        cap >= 1,
        0 <= i <= candidates.len(),
    ensures
        ({
            let (c, r) = sifted(pair, candidates, cap, i);
            &&& c.len() <= cap
            &&& c.len() + r.len() <= i
            &&& c.len() < cap ==> c.len() + r.len() == i
            &&& (c + r).no_duplicates()
            &&& forall|d: u32| #[trigger] (c + r).contains(d) ==> lists(candidates.take(i), d)
        }),
    decreases i,
{
    if i > 0 {
        lemma_sifted(pair, candidates, cap, i - 1);
        let (c0, r0) = sifted(pair, candidates, cap, i - 1);
        let (c, r) = sifted(pair, candidates, cap, i);
        let d0 = candidates[i - 1].doc_id;
        let before = candidates.take(i - 1);
        let now = candidates.take(i);
        assert(!lists(before, d0)) by {
            if lists(before, d0) {
                let k = choose|k: int| 0 <= k < before.len() && (#[trigger] before[k]).doc_id == d0;
                assert(candidates[k].doc_id != candidates[i - 1].doc_id);
            }
        }
        assert forall|d: u32| lists(before, d) implies #[trigger] lists(now, d) by {
            let k = choose|k: int| 0 <= k < before.len() && (#[trigger] before[k]).doc_id == d;
            assert(now[k].doc_id == d);
        }
        assert(now[i - 1].doc_id == d0);
        assert(lists(now, d0));
        let old_all = c0 + r0;
        let all = c + r;
        assert(!old_all.contains(d0));
        if c != c0 || r != r0 {
            assert forall|d: u32| #[trigger] all.contains(d) implies old_all.contains(d) || d
                == d0 by {
                let k = choose|k: int| 0 <= k < all.len() && all[k] == d;
                if k < c0.len() {
                    assert(old_all[k] == all[k]);
                } else if c == c0 {
                    if k < c.len() + r0.len() {
                        assert(old_all[k] == all[k]);
                    }
                } else if k > c0.len() {
                    assert(old_all[k - 1] == all[k]);
                }
            }
            assert forall|a: int, b: int| 0 <= a < b < all.len() implies all[a] != all[b] by {
                if c == c0 {
                    if b < old_all.len() {
                        assert(old_all[a] == all[a] && old_all[b] == all[b]);
                    } else {
                        assert(all[b] == d0);
                        assert(old_all[a] == all[a]);
                        assert(old_all.contains(all[a]));
                    }
                } else {
                    let at = c0.len() as int;
                    let ia = if a < at {
                        a
                    } else {
                        a - 1
                    };
                    let ib = if b < at {
                        b
                    } else {
                        b - 1
                    };
                    if a == at {
                        assert(all[b] == old_all[ib]);
                        assert(old_all.contains(all[b]));
                    } else if b == at {
                        assert(all[a] == old_all[ia]);
                        assert(old_all.contains(all[a]));
                    } else {
                        assert(all[a] == old_all[ia] && all[b] == old_all[ib]);
                    }
                }
            }
        }
    }
}

/// What is selected: some of the candidates, each once, as many as there is
/// room for.
proof fn lemma_selection<P: Fn(u32, u32) -> u32>(pair: P, candidates: Seq<Neighbor>, cap: int)
    requires
        distinct_docs(candidates),
        cap >= 1,
    ensures
        ({
            let e = selection(pair, candidates, cap);
            &&& e.len() == if candidates.len() < cap {
                candidates.len() as int
            } else {
                cap
            }
            &&& e.no_duplicates()
            &&& forall|i: int| 0 <= i < e.len() ==> lists(candidates, #[trigger] e[i])
        }),
{
    let n = candidates.len() as int;
    lemma_sifted(pair, candidates, cap, n);
    let (c, r) = sifted(pair, candidates, cap, n);
    let e = selection(pair, candidates, cap);
    let all = c + r;
    assert(candidates.take(n) =~= candidates);
    assert forall|i: int| 0 <= i < e.len() implies lists(candidates, #[trigger] e[i]) by {
        assert(all[i] == e[i]);
        assert(all.contains(e[i]));
    }
    assert forall|a: int, b: int| 0 <= a < b < e.len() implies e[a] != e[b] by {
        assert(all[a] == e[a] && all[b] == e[b]);
    }
}

/// Choose the neighbors to link to.
fn select_neighbors<P: Fn(u32, u32) -> u32>(
    pair: &P,
    candidates: &[Neighbor],
    cap: usize,
    Ghost(n): Ghost<int>,
) -> (out: Vec<u32>)
    requires
        scores_pairs(*pair, n),
        docs_below(candidates@, n),
        distinct_docs(candidates@),
        cap >= 1,
    ensures
        out@ == selection(*pair, candidates@, cap as int),
{
    let mut chosen: Vec<u32> = Vec::new();
    let mut rejected: Vec<u32> = Vec::new();
    let total: usize = candidates.len();
    let mut i: usize = 0;
    while i < total && chosen.len() < cap
        invariant
            scores_pairs(*pair, n),
            docs_below(candidates@, n),
            cap >= 1,
            i <= total == candidates@.len(),
            (chosen@, rejected@) == sifted(*pair, candidates@, cap as int, i as int),
            chosen@.len() <= cap,
            forall|k: int| 0 <= k < chosen@.len() ==> (#[trigger] chosen@[k]) < n,
        decreases total - i,
    {
        let c: Neighbor = candidates[i];
        let mut near: bool = false;
        let mut j: usize = 0;
        let taken: usize = chosen.len();
        while j < taken && !near
            invariant
                scores_pairs(*pair, n),
                c.doc_id < n,
                j <= taken == chosen@.len(),
                forall|k: int| 0 <= k < chosen@.len() ==> (#[trigger] chosen@[k]) < n,
                near ==> redundant(*pair, chosen@, c),
                !near ==> forall|k: int|
                    0 <= k < j ==> pair_by(*pair, c.doc_id, #[trigger] chosen@[k]) <= c.score,
            decreases taken - j + if near { 0int } else { 1int },
        {
            let id: u32 = chosen[j];
            let k: u32 = pair(c.doc_id, id);
            assert(call_ensures(*pair, (c.doc_id, id), k));
            assert(call_ensures(*pair, (c.doc_id, id), pair_by(*pair, c.doc_id, id)));
            if k > c.score {
                assert(pair_by(*pair, c.doc_id, chosen@[j as int]) > c.score);
                near = true;
            }
            j += 1;
        }
        if near {
            rejected.push(c.doc_id);
        } else {
            chosen.push(c.doc_id);
        }
        i += 1;
    }
    proof {
        lemma_sifted_full(*pair, candidates@, cap as int, i as int, total as int);
    }
    let room: usize = cap - chosen.len();
    let ghost first = chosen@;
    let mut j: usize = 0;
    assert(chosen@ =~= first + rejected@.take(0));
    while j < rejected.len() && j < room
        invariant
            j <= rejected@.len(),
            j <= room,
            chosen@ == first + rejected@.take(j as int),
        decreases room - j,
    {
        chosen.push(rejected[j]);
        j += 1;
        assert(chosen@ =~= first + rejected@.take(j as int));
    }
    chosen
}

/// Once `cap` are chosen, or no candidates are left, nothing changes.
proof fn lemma_sifted_full<P: Fn(u32, u32) -> u32>(
    pair: P,
    candidates: Seq<Neighbor>,
    cap: int,
    i: int,
    j: int,
)
    requires
        0 <= i <= j,
        i == j || sifted(pair, candidates, cap, i).0.len() == cap,
    ensures
        sifted(pair, candidates, cap, j) == sifted(pair, candidates, cap, i),
    decreases j,
{
    if i < j {
        lemma_sifted_full(pair, candidates, cap, i, j - 1);
    }
}

/// The same nodes stand on the same levels.
pub open spec fn same_shape(a: Seq<Vec<Vec<u32>>>, b: Seq<Vec<Vec<u32>>>) -> bool {
    &&& a.len() == b.len()
    &&& forall|v: int| 0 <= v < a.len() ==> (#[trigger] a[v])@.len() == b[v]@.len()
}

/// Only the links of `v` on level `l` may differ.
spec fn same_elsewhere(
    a: Seq<Vec<Vec<u32>>>,
    b: Seq<Vec<Vec<u32>>>,
    v: int,
    l: int,
) -> bool {
    &&& same_shape(a, b)
    &&& forall|w: int, m: int|
        #![trigger edges(b, w, m)]
        on_level(a, w, m) && !(w == v && m == l) ==> edges(b, w, m) == edges(a, w, m)
}

proof fn lemma_graph_set(a: Seq<Vec<Vec<u32>>>, b: Seq<Vec<Vec<u32>>>, v: int, l: int)
    requires
        graph_ok(a),
        on_level(a, v, l),
        same_elsewhere(a, b, v, l),
        edges(b, v, l).len() <= cap_of(l),
        edges(b, v, l).no_duplicates(),
        forall|j: int|
            0 <= j < edges(b, v, l).len() ==> (#[trigger] edges(b, v, l)[j]) != v && on_level(
                a,
                edges(b, v, l)[j] as int,
                l,
            ),
    ensures
        graph_ok(b),
{
    assert forall|w: int| 0 <= w < b.len() implies 1 <= (#[trigger] b[w])@.len() <= MAX_LEVEL
        + 1 by {
        assert(a[w]@.len() == b[w]@.len());
    }
    assert forall|w: int, m: int| #[trigger] on_level(b, w, m) implies edges_ok(b, w, m) by {
        assert(a[w]@.len() == b[w]@.len());
        assert(on_level(a, w, m));
        assert(edges_ok(a, w, m));
        let e = edges(b, w, m);
        assert forall|j: int| 0 <= j < e.len() implies (#[trigger] e[j]) != w && on_level(
            b,
            e[j] as int,
            m,
        ) by {
            assert(on_level(a, e[j] as int, m));
            assert(a[e[j] as int]@.len() == b[e[j] as int]@.len());
        }
    }
}

/// Replace the links of `v` on level `l`.
fn set_edges(links: &mut Vec<Vec<Vec<u32>>>, v: usize, l: usize, e: Vec<u32>)
    requires
        on_level(old(links)@, v as int, l as int),
    ensures
        same_elsewhere(old(links)@, final(links)@, v as int, l as int),
        edges(final(links)@, v as int, l as int) == e@,
{
    let ghost before = links@;
    links[v][l] = e;
    assert forall|w: int, m: int|
        #![trigger edges(links@, w, m)]
        on_level(before, w, m) && !(w == v && m == l) implies edges(links@, w, m) == edges(
        before,
        w,
        m,
    ) by {
        if w != v {
            assert(links@[w] == before[w]);
        }
    }
    assert forall|w: int| 0 <= w < before.len() implies (#[trigger] before[w])@.len()
        == links@[w]@.len() by {
        if w != v {
            assert(links@[w] == before[w]);
        }
    }
}

/// `list` holds `docs` with their likeness to `center`, best first.
pub open spec fn ranking_of<P: Fn(u32, u32) -> u32>(
    pair: P,
    center: u32,
    docs: Seq<u32>,
    list: Seq<Neighbor>,
) -> bool {
    &&& ranked(list)
    &&& list.len() == docs.len()
    &&& forall|i: int|
        0 <= i < list.len() ==> (#[trigger] list[i]) == scored(
            likeness(pair, center),
            list[i].doc_id,
        ) && docs.contains(list[i].doc_id)
}

/// `out` are the links of `v` on level `l` when `doc` is added to `e`: all of
/// them, or, if they are too many, a selection.
pub open spec fn adopts<P: Fn(u32, u32) -> u32>(
    pair: P,
    v: u32,
    doc: u32,
    l: int,
    e: Seq<u32>,
    out: Seq<u32>,
) -> bool {
    if e.len() < cap_of(l) {
        out == e.push(doc)
    } else {
        exists|list: Seq<Neighbor>| #[trigger]
            ranking_of(pair, v, e.push(doc), list) && out == selection(pair, list, cap_of(l))
    }
}

/// Link `nb` to `doc` on level `l`. If it has too many links then, choose
/// which to keep.
fn connect<P: Fn(u32, u32) -> u32>(
    links: &mut Vec<Vec<Vec<u32>>>,
    nb: u32,
    doc: u32,
    l: usize,
    pair: &P,
)
    requires
        graph_ok(old(links)@),
        on_level(old(links)@, nb as int, l as int),
        on_level(old(links)@, doc as int, l as int),
        nb != doc,
        !edges(old(links)@, nb as int, l as int).contains(doc),
        scores_pairs(*pair, old(links)@.len() as int),
    ensures
        graph_ok(final(links)@),
        same_elsewhere(old(links)@, final(links)@, nb as int, l as int),
        edges(final(links)@, nb as int, l as int).len() >= 1,
        adopts(
            *pair,
            nb,
            doc,
            l as int,
            edges(old(links)@, nb as int, l as int),
            edges(final(links)@, nb as int, l as int),
        ),
{
    let ghost before = links@;
    let ghost n = links@.len() as int;
    let ghost e = edges(before, nb as int, l as int);
    assert(edges_ok(before, nb as int, l as int));
    let from: usize = nb as usize;
    let degree: usize = links[from][l].len();
    let cap: usize = if l == 0 { 2 * M } else { M };
    if degree < cap {
        let mut list: Vec<u32> = Vec::new();
        let mut j: usize = 0;
        while j < degree
            invariant
                j <= degree == e.len(),
                from == nb,
                links@ == before,
                on_level(before, nb as int, l as int),
                e == edges(before, nb as int, l as int),
                list@ == e.take(j as int),
            decreases degree - j,
        {
            list.push(links[from][l][j]);
            j += 1;
            assert(list@ =~= e.take(j as int));
        }
        assert(e.take(degree as int) =~= e);
        list.push(doc);
        let ghost longer = list@;
        assert(longer =~= e.push(doc));
        set_edges(links, from, l, list);
        proof {
            assert forall|a: int, b: int| 0 <= a < b < longer.len() implies longer[a]
                != longer[b] by {
                if b == e.len() {
                    assert(e[a] == longer[a]);
                    assert(e.contains(longer[a]));
                } else {
                    assert(e[a] == longer[a] && e[b] == longer[b]);
                }
            }
            assert forall|j: int| 0 <= j < longer.len() implies (#[trigger] longer[j]) != nb
                && on_level(before, longer[j] as int, l as int) by {
                if j < e.len() {
                    assert(e[j] == longer[j]);
                }
            }
            lemma_graph_set(before, links@, nb as int, l as int);
        }
        return;
    }
    let mut candidates: Vec<Neighbor> = Vec::new();
    let mut j: usize = 0;
    while j <= degree
        invariant
            j <= degree + 1,
            degree == e.len(),
            from == nb,
            n == before.len(),
            links@ == before,
            graph_ok(before),
            on_level(before, nb as int, l as int),
            on_level(before, doc as int, l as int),
            nb != doc,
            e == edges(before, nb as int, l as int),
            edges_ok(before, nb as int, l as int),
            !e.contains(doc),
            scores_pairs(*pair, n),
            candidates@.len() == j,
            ranked(candidates@),
            scored_against(*pair, nb, candidates@),
            forall|i: int|
                0 <= i < candidates@.len() ==> {
                    &&& (#[trigger] candidates@[i]).doc_id != nb
                    &&& on_level(before, candidates@[i].doc_id as int, l as int)
                    &&& e.push(doc).take(j as int).contains(candidates@[i].doc_id)
                },
        decreases degree + 1 - j,
    {
        let id: u32 = if j < degree { links[from][l][j] } else { doc };
        let ghost all = e.push(doc);
        let ghost had = candidates@;
        assert(id == all[j as int]);
        assert(on_level(before, id as int, l as int) && id != nb) by {
            if j < degree {
                assert(e[j as int] == id);
            }
        }
        let k: u32 = pair(nb, id);
        proof {
            assert(call_ensures(*pair, (nb, id), k));
            assert(call_ensures(*pair, (nb, id), pair_by(*pair, nb, id)));
            if lists(candidates@, id) {
                let i = choose|i: int|
                    0 <= i < candidates@.len() && (#[trigger] candidates@[i]).doc_id == id;
                assert(all.take(j as int).contains(id));
                let m = choose|m: int| 0 <= m < j && all.take(j as int)[m] == id;
                assert(e[m] == id);
                if j < degree {
                    assert(e[j as int] == id);
                } else {
                    assert(e.contains(doc));
                }
            }
        }
        place(&mut candidates, Neighbor { doc_id: id, score: k });
        proof {
            assert forall|i: int| 0 <= i < candidates@.len() implies {
                &&& (#[trigger] candidates@[i]).score == pair_by(*pair, nb, candidates@[i].doc_id)
                &&& candidates@[i].doc_id != nb
                &&& on_level(before, candidates@[i].doc_id as int, l as int)
                &&& all.take(j + 1).contains(candidates@[i].doc_id)
            } by {
                if had.contains(candidates@[i]) {
                    let m = choose|m: int| 0 <= m < had.len() && had[m] == candidates@[i];
                    let d = had[m].doc_id;
                    assert(all.take(j as int).contains(d));
                    let q = choose|q: int| 0 <= q < j && all.take(j as int)[q] == d;
                    assert(all.take(j + 1)[q] == d);
                } else {
                    assert(all.take(j + 1)[j as int] == id);
                }
            }
        }
        j += 1;
    }
    proof {
        let all = e.push(doc);
        assert(all.take(degree + 1) =~= all);
        assert forall|i: int| 0 <= i < candidates@.len() implies (#[trigger] candidates@[i])
            == scored(likeness(*pair, nb), candidates@[i].doc_id) && all.contains(
            candidates@[i].doc_id,
        ) by {
            assert(all.take(degree + 1).contains(candidates@[i].doc_id));
        }
        assert(ranking_of(*pair, nb, all, candidates@));
        lemma_scored_distinct(*pair, nb, candidates@);
        assert(docs_below(candidates@, n)) by {
            assert forall|i: int| 0 <= i < candidates@.len() implies (
            #[trigger] candidates@[i]).doc_id < n by {
                assert(on_level(before, candidates@[i].doc_id as int, l as int));
            }
        }
    }
    let kept = select_neighbors(pair, candidates.as_slice(), cap, Ghost(n));
    let ghost list = kept@;
    set_edges(links, from, l, kept);
    proof {
        lemma_selection(*pair, candidates@, cap as int);
        assert forall|j: int| 0 <= j < list.len() implies (#[trigger] list[j]) != nb && on_level(
            before,
            list[j] as int,
            l as int,
        ) by {
            assert(lists(candidates@, list[j]));
            let i = choose|i: int|
                0 <= i < candidates@.len() && (#[trigger] candidates@[i]).doc_id == list[j];
        }
        lemma_graph_set(before, links@, nb as int, l as int);
    }
}

/// Every item has the score of its pair with `center`.
spec fn scored_against<P: Fn(u32, u32) -> u32>(pair: P, center: u32, s: Seq<Neighbor>) -> bool {
    forall|i: int|
        0 <= i < s.len() ==> (#[trigger] s[i]).score == pair_by(pair, center, s[i].doc_id)
}

proof fn lemma_scored_distinct<P: Fn(u32, u32) -> u32>(pair: P, center: u32, s: Seq<Neighbor>)
    requires
        ranked(s),
        scored_against(pair, center, s),
    ensures
        distinct_docs(s),
{
    assert forall|i: int, j: int| 0 <= i < j < s.len() implies (#[trigger] s[i]).doc_id != (
    #[trigger] s[j]).doc_id by {
        assert(closer(s[i], s[j]));
    }
}

/// No link on a level below `bound` leads to `doc`.
spec fn unlinked(links: Seq<Vec<Vec<u32>>>, doc: u32, bound: int) -> bool {
    forall|v: int, l: int|
        #![trigger edges(links, v, l)]
        on_level(links, v, l) && l < bound ==> !edges(links, v, l).contains(doc)
}

/// Every node but `except` has a link on the lowest level.
pub open spec fn linked(links: Seq<Vec<Vec<u32>>>, except: int) -> bool {
    forall|v: int|
        0 <= v < links.len() && v != except ==> (#[trigger] edges(links, v, 0)).len() >= 1
}

/// `b` is `a` with `doc` and the nodes of `chosen` linked on level `l`, both
/// ways.
pub open spec fn links_both_ways<P: Fn(u32, u32) -> u32>(
    pair: P,
    a: Seq<Vec<Vec<u32>>>,
    b: Seq<Vec<Vec<u32>>>,
    doc: u32,
    l: int,
    chosen: Seq<u32>,
) -> bool {
    &&& same_shape(a, b)
    &&& edges(b, doc as int, l) == chosen
    &&& forall|v: int, m: int|
        #![trigger edges(b, v, m)]
        on_level(a, v, m) && m != l ==> edges(b, v, m) == edges(a, v, m)
    &&& forall|v: u32|
        #![trigger edges(b, v as int, l)]
        on_level(a, v as int, l) && v != doc ==> if chosen.contains(v) {
            adopts(pair, v, doc, l, edges(a, v as int, l), edges(b, v as int, l))
        } else {
            edges(b, v as int, l) == edges(a, v as int, l)
        }
}

/// Link `doc` and the nodes of `chosen` on level `l`, both ways.
fn link_level<P: Fn(u32, u32) -> u32>(
    links: &mut Vec<Vec<Vec<u32>>>,
    doc: u32,
    l: usize,
    chosen: Vec<u32>,
    pair: &P,
)
    requires
        graph_ok(old(links)@),
        on_level(old(links)@, doc as int, l as int),
        unlinked(old(links)@, doc, l + 1),
        scores_pairs(*pair, old(links)@.len() as int),
        1 <= chosen@.len() <= M,
        chosen@.no_duplicates(),
        forall|j: int|
            0 <= j < chosen@.len() ==> (#[trigger] chosen@[j]) != doc && on_level(
                old(links)@,
                chosen@[j] as int,
                l as int,
            ),
        l == 0 && doc > 1 ==> linked(old(links)@, doc as int),
        doc >= 1,
        old(links)@.len() == doc + 1,
    ensures
        graph_ok(final(links)@),
        links_both_ways(*pair, old(links)@, final(links)@, doc, l as int, chosen@),
        unlinked(final(links)@, doc, l as int),
        l == 0 ==> linked(final(links)@, -1),
        l > 0 && doc > 1 && linked(old(links)@, doc as int) ==> linked(final(links)@, doc as int),
{
    let ghost before = links@;
    let ghost lv = l as int;
    let mut copy: Vec<u32> = Vec::new();
    let total: usize = chosen.len();
    let mut i: usize = 0;
    while i < total
        invariant
            i <= total == chosen@.len(),
            copy@ == chosen@.take(i as int),
        decreases total - i,
    {
        copy.push(chosen[i]);
        i += 1;
        assert(copy@ =~= chosen@.take(i as int));
    }
    assert(chosen@.take(total as int) =~= chosen@);
    set_edges(links, doc as usize, l, copy);
    proof {
        lemma_graph_set(before, links@, doc as int, lv);
    }
    let ghost shaped = links@;
    let mut j: usize = 0;
    while j < total
        invariant
            j <= total == chosen@.len(),
            lv == l,
            graph_ok(links@),
            same_shape(before, links@),
            links@.len() == doc + 1,
            on_level(links@, doc as int, lv),
            scores_pairs(*pair, links@.len() as int),
            chosen@.no_duplicates(),
            forall|k: int|
                0 <= k < chosen@.len() ==> (#[trigger] chosen@[k]) != doc && on_level(
                    before,
                    chosen@[k] as int,
                    lv,
                ),
            forall|k: int|
                j <= k < chosen@.len() ==> !edges(
                    links@,
                    (#[trigger] chosen@[k]) as int,
                    lv,
                ).contains(doc),
            forall|k: int|
                0 <= k < j ==> edges(links@, (#[trigger] chosen@[k]) as int, lv).len() >= 1,
            edges(links@, doc as int, lv) == chosen@,
            forall|k: int|
                0 <= k < j ==> adopts(
                    *pair,
                    #[trigger] chosen@[k],
                    doc,
                    lv,
                    edges(before, chosen@[k] as int, lv),
                    edges(links@, chosen@[k] as int, lv),
                ),
            forall|v: u32|
                #![trigger edges(links@, v as int, lv)]
                on_level(before, v as int, lv) && v != doc && !chosen@.take(j as int).contains(v)
                    ==> edges(links@, v as int, lv) == edges(before, v as int, lv),
            forall|v: int, m: int|
                #![trigger edges(links@, v, m)]
                on_level(before, v, m) && m != lv ==> edges(links@, v, m) == edges(before, v, m),
            forall|v: int|
                #![trigger edges(links@, v, lv)]
                on_level(before, v, lv) && v != doc && edges(before, v, lv).len() >= 1 ==> edges(
                    links@,
                    v,
                    lv,
                ).len() >= 1,
        decreases total - j,
    {
        let nb: u32 = chosen[j];
        let ghost was = links@;
        proof {
            assert(before[nb as int]@.len() == was[nb as int]@.len());
            assert(on_level(was, nb as int, lv));
        }
        proof {
            assert(!chosen@.take(j as int).contains(nb)) by {
                if chosen@.take(j as int).contains(nb) {
                    let k = choose|k: int| 0 <= k < j && chosen@.take(j as int)[k] == nb;
                    assert(chosen@[k] == chosen@[j as int]);
                }
            }
            assert(edges(was, nb as int, lv) == edges(before, nb as int, lv));
        }
        connect(links, nb, doc, l, pair);
        proof {
            assert forall|k: int| 0 <= k < j + 1 implies adopts(
                *pair,
                #[trigger] chosen@[k],
                doc,
                lv,
                edges(before, chosen@[k] as int, lv),
                edges(links@, chosen@[k] as int, lv),
            ) by {
                if k < j {
                    assert(chosen@[k] != chosen@[j as int]);
                    assert(before[chosen@[k] as int]@.len() == was[chosen@[k] as int]@.len());
                    assert(on_level(was, chosen@[k] as int, lv));
                    assert(edges(links@, chosen@[k] as int, lv) == edges(
                        was,
                        chosen@[k] as int,
                        lv,
                    ));
                }
            }
            assert forall|v: u32|
                #![trigger edges(links@, v as int, lv)]
                on_level(before, v as int, lv) && v != doc && !chosen@.take(j + 1).contains(
                    v,
                ) implies edges(links@, v as int, lv) == edges(before, v as int, lv) by {
                assert(chosen@.take(j + 1)[j as int] == nb);
                assert(v != nb);
                assert(!chosen@.take(j as int).contains(v)) by {
                    if chosen@.take(j as int).contains(v) {
                        let k = choose|k: int| 0 <= k < j && chosen@.take(j as int)[k] == v;
                        assert(chosen@.take(j + 1)[k] == v);
                    }
                }
                assert(before[v as int]@.len() == was[v as int]@.len());
                assert(on_level(was, v as int, lv));
                assert(edges(links@, v as int, lv) == edges(was, v as int, lv));
            }
            assert forall|v: int| 0 <= v < before.len() implies (#[trigger] before[v])@.len()
                == links@[v]@.len() by {
                assert(before[v]@.len() == was[v]@.len());
                assert(was[v]@.len() == links@[v]@.len());
            }
            assert forall|k: int| j + 1 <= k < chosen@.len() implies !edges(
                links@,
                (#[trigger] chosen@[k]) as int,
                lv,
            ).contains(doc) by {
                assert(chosen@[k] != chosen@[j as int]);
                assert(before[chosen@[k] as int]@.len() == was[chosen@[k] as int]@.len());
                assert(on_level(was, chosen@[k] as int, lv));
                assert(edges(links@, chosen@[k] as int, lv) == edges(was, chosen@[k] as int, lv));
            }
            assert forall|k: int| 0 <= k < j + 1 implies edges(
                links@,
                (#[trigger] chosen@[k]) as int,
                lv,
            ).len() >= 1 by {
                if k < j {
                    assert(chosen@[k] != chosen@[j as int]);
                    assert(before[chosen@[k] as int]@.len() == was[chosen@[k] as int]@.len());
                    assert(on_level(was, chosen@[k] as int, lv));
                    assert(edges(links@, chosen@[k] as int, lv) == edges(
                        was,
                        chosen@[k] as int,
                        lv,
                    ));
                }
            }
            assert(edges(links@, doc as int, lv) == edges(was, doc as int, lv));
            assert forall|v: int, m: int|
                #![trigger edges(links@, v, m)]
                on_level(before, v, m) && m != lv implies edges(links@, v, m) == edges(
                before,
                v,
                m,
            ) by {
                assert(before[v]@.len() == was[v]@.len());
                assert(on_level(was, v, m));
                assert(edges(links@, v, m) == edges(was, v, m));
            }
            assert forall|v: int|
                #![trigger edges(links@, v, lv)]
                on_level(before, v, lv) && v != doc && edges(before, v, lv).len() >= 1 implies edges(
                links@,
                v,
                lv,
            ).len() >= 1 by {
                assert(before[v]@.len() == was[v]@.len());
                assert(on_level(was, v, lv));
                if v != nb {
                    assert(edges(links@, v, lv) == edges(was, v, lv));
                }
            }
        }
        j += 1;
    }
    proof {
        assert(chosen@.take(total as int) =~= chosen@);
        assert forall|v: u32|
            #![trigger edges(links@, v as int, lv)]
            on_level(before, v as int, lv) && v != doc implies if chosen@.contains(v) {
            adopts(
                *pair,
                v,
                doc,
                lv,
                edges(before, v as int, lv),
                edges(links@, v as int, lv),
            )
        } else {
            edges(links@, v as int, lv) == edges(before, v as int, lv)
        } by {
            if chosen@.contains(v) {
                let k = choose|k: int| 0 <= k < chosen@.len() && chosen@[k] == v;
                assert(chosen@[k] == v);
            }
        }
        assert forall|v: int, m: int|
            #![trigger edges(links@, v, m)]
            on_level(links@, v, m) && m < lv implies !edges(links@, v, m).contains(doc) by {
            assert(before[v]@.len() == links@[v]@.len());
            assert(on_level(before, v, m));
            assert(edges(links@, v, m) == edges(before, v, m));
        }
        if l == 0 {
            assert forall|v: int| 0 <= v < links@.len() implies (#[trigger] edges(
                links@,
                v,
                0,
            )).len() >= 1 by {
                assert(before[v]@.len() >= 1);
                assert(on_level(before, v, 0));
                if v == doc {
                } else if doc > 1 {
                    assert(edges(before, v, 0).len() >= 1);
                } else {
                    assert(v == 0);
                    assert(chosen@[0] == 0) by {
                        assert(on_level(before, chosen@[0] as int, lv));
                    }
                }
            }
        } else if doc > 1 && linked(before, doc as int) {
            assert forall|v: int| 0 <= v < links@.len() && v != doc implies (#[trigger] edges(
                links@,
                v,
                0,
            )).len() >= 1 by {
                assert(before[v]@.len() >= 1);
                assert(on_level(before, v, 0));
                assert(edges(links@, v, 0) == edges(before, v, 0));
            }
        }
    }
}

/// `pair` may be called on the pair.
spec fn asks<P: Fn(u32, u32) -> u32>(pair: &P, a: u32, b: u32) -> bool {
    call_requires(*pair, (a, b))
}

/// `pair` may give the pair the score `k`.
spec fn answers<P: Fn(u32, u32) -> u32>(pair: &P, a: u32, b: u32, k: u32) -> bool {
    call_ensures(*pair, (a, b), k)
}

/// The documents of a pool.
fn docs_of(pool: &Vec<Neighbor>) -> (docs: Vec<u32>)
    ensures
        docs@.len() == pool@.len(),
        forall|i: int| 0 <= i < docs@.len() ==> #[trigger] docs@[i] == pool@[i].doc_id,
{
    let mut docs: Vec<u32> = Vec::new();
    let mut i: usize = 0;
    while i < pool.len()
        invariant
            i <= pool@.len(),
            docs@.len() == i,
            forall|k: int| 0 <= k < i ==> #[trigger] docs@[k] == pool@[k].doc_id,
        decreases pool@.len() - i,
    {
        docs.push(pool[i].doc_id);
        i += 1;
    }
    docs
}

/// All documents are live.
pub open spec fn everyone() -> spec_fn(u32) -> bool {
    |d: u32| true
}

/// The documents of a pool.
pub open spec fn docs_in(pool: Seq<Neighbor>) -> Seq<u32> {
    Seq::new(pool.len(), |i: int| pool[i].doc_id)
}

/// An exploration of level `l` from `entries` finds `found` for `doc`, and
/// linking a selection of that takes `a` to `b`.
pub open spec fn links_level<P: Fn(u32, u32) -> u32>(
    pair: P,
    doc: u32,
    l: int,
    a: Seq<Vec<Vec<u32>>>,
    entries: Seq<u32>,
    found: Seq<Neighbor>,
    b: Seq<Vec<Vec<u32>>>,
) -> bool {
    &&& exists|seen: Set<u32>| #[trigger]
        explored(
            a,
            likeness(pair, doc),
            everyone(),
            entries,
            EF_BUILD as int,
            l,
            found,
            seen,
        )
    &&& links_both_ways(pair, a, b, doc, l, selection(pair, found, M as int))
}

/// Linking `doc` on the levels below `l` takes `a` to `b`: from `entries` on
/// the highest of them, and on every other from what was found above it.
pub open spec fn links_down<P: Fn(u32, u32) -> u32>(
    pair: P,
    doc: u32,
    l: int,
    a: Seq<Vec<Vec<u32>>>,
    entries: Seq<u32>,
    b: Seq<Vec<Vec<u32>>>,
) -> bool
    decreases l,
{
    if l <= 0 {
        b == a
    } else {
        exists|found: Seq<Neighbor>, next: Seq<Vec<Vec<u32>>>| #[trigger]
            links_level(pair, doc, l - 1, a, entries, found, next) && links_down(
                pair,
                doc,
                l - 1,
                next,
                docs_in(found),
                b,
            )
    }
}

/// `b` is `a` with one more node, on the levels up to `level` and without
/// links.
pub open spec fn enlarged(a: Seq<Vec<Vec<u32>>>, level: int, b: Seq<Vec<Vec<u32>>>) -> bool {
    &&& b.len() == a.len() + 1
    &&& forall|v: int| 0 <= v < a.len() ==> #[trigger] b[v] == a[v]
    &&& b.last()@.len() == level + 1
    &&& forall|l: int| 0 <= l <= level ==> (#[trigger] b.last()@[l])@.len() == 0
}

/// Adding `doc` on the levels up to `level` takes `a` to `b`: down from the
/// entry to where linking begins, then level by level.
pub open spec fn inserted<P: Fn(u32, u32) -> u32>(
    pair: P,
    doc: u32,
    level: int,
    entry: u32,
    a: Seq<Vec<Vec<u32>>>,
    b: Seq<Vec<Vec<u32>>>,
) -> bool {
    let top = a[entry as int]@.len() - 1;
    let score = likeness(pair, doc);
    exists|grown: Seq<Vec<Vec<u32>>>| #[trigger]
        enlarged(a, level, grown) && links_down(
            pair,
            doc,
            if level < top {
                level + 1
            } else {
                top + 1
            },
            grown,
            seq![descent(grown, score, scored(score, entry), top, level).doc_id],
            b,
        )
}

/// Add node `doc` on the levels up to `level`.
fn insert_node<P: Fn(u32, u32) -> u32>(
    links: &mut Vec<Vec<Vec<u32>>>,
    doc: u32,
    level: usize,
    entry: u32,
    pair: &P,
)
    requires
        1 <= doc < u32::MAX,
        old(links)@.len() == doc,
        graph_ok(old(links)@),
        entry_ok(old(links)@, entry as int),
        doc > 1 ==> linked(old(links)@, -1),
        level <= MAX_LEVEL,
        scores_pairs(*pair, doc + 1),
    ensures
        final(links)@.len() == doc + 1,
        graph_ok(final(links)@),
        linked(final(links)@, -1),
        inserted(*pair, doc, level as int, entry, old(links)@, final(links)@),
        final(links)@[doc as int]@.len() == level + 1,
        forall|v: int|
            0 <= v < doc ==> (#[trigger] final(links)@[v])@.len() == old(links)@[v]@.len(),
{
    let ghost start = links@;
    let ghost n = doc + 1;
    let mut own: Vec<Vec<u32>> = Vec::new();
    let mut z: usize = 0;
    while z <= level
        invariant
            z <= level + 1,
            level <= MAX_LEVEL,
            own@.len() == z,
            forall|l: int| 0 <= l < z ==> (#[trigger] own@[l])@.len() == 0,
        decreases level + 1 - z,
    {
        own.push(Vec::new());
        z += 1;
    }
    let ghost fresh = own;
    links.push(own);
    let ghost grown = links@;
    proof {
        assert forall|v: int, l: int| #[trigger] on_level(grown, v, l) implies edges_ok(
            grown,
            v,
            l,
        ) && !edges(grown, v, l).contains(doc) by {
            if v < doc {
                assert(grown[v] == start[v]);
                assert(on_level(start, v, l));
                assert(edges_ok(start, v, l));
                let e = edges(grown, v, l);
                assert forall|j: int| 0 <= j < e.len() implies (#[trigger] e[j]) != v && on_level(
                    grown,
                    e[j] as int,
                    l,
                ) && e[j] != doc by {
                    assert(edges(start, v, l)[j] == e[j]);
                    assert(on_level(start, e[j] as int, l));
                    assert(grown[e[j] as int] == start[e[j] as int]);
                }
            } else {
                assert(grown[v]@[l]@.len() == 0);
            }
        }
        assert forall|v: int| 0 <= v < grown.len() implies 1 <= (#[trigger] grown[v])@.len()
            <= MAX_LEVEL + 1 by {
            if v < doc {
                assert(grown[v] == start[v]);
            }
        }
        assert(graph_ok(grown));
        assert(enlarged(start, level as int, grown)) by {
            assert(grown.last() == fresh);
        }
        assert(unlinked(grown, doc, MAX_LEVEL + 1));
        if doc > 1 {
            assert forall|v: int| 0 <= v < grown.len() && v != doc implies (#[trigger] edges(
                grown,
                v,
                0,
            )).len() >= 1 by {
                assert(grown[v] == start[v]);
                assert(edges(start, v, 0).len() >= 1);
            }
        }
    }
    let f = |d: u32| -> (k: u32)
        requires
            asks(pair, doc, d),
        ensures
            answers(pair, doc, d, k),
        { pair(doc, d) };
    let all = |d: u32| -> (r: bool)
        ensures
            r,
        { true };
    let ghost score = likeness(*pair, doc);
    let ghost lives = everyone();
    assert(gives(f, score, n));
    assert(knows(all, lives, n));
    let mut count: u64 = 0;
    let top: usize = links[entry as usize].len() - 1;
    assert(grown[entry as int] == start[entry as int]);
    let ghost first = scored(score, entry);
    let mut ep = score_doc(&f, entry, &mut count, Ghost(score), Ghost(n));
    let mut l: usize = top;
    while l > level
        invariant
            links@ == grown,
            n == grown.len(),
            descent(grown, score, first, top as int, level as int) == descent(
                grown,
                score,
                ep,
                l as int,
                level as int,
            ),
            graph_ok(grown),
            gives(f, score, n),
            on_level(grown, ep.doc_id as int, l as int),
            ep == scored(score, ep.doc_id),
            ep.doc_id != doc,
            unlinked(grown, doc, MAX_LEVEL + 1),
            l <= MAX_LEVEL,
            l <= top,
            l >= level || l == top,
        decreases l,
    {
        ep = greedy(&*links, &f, ep, l, &mut count, Ghost(score));
        l -= 1;
    }
    let mut entries: Vec<u32> = Vec::new();
    entries.push(ep.doc_id);
    let mut left: usize = (if level < top { level } else { top }) + 1;
    let ghost height = left as int;
    let ghost gates = entries@;
    proof {
        assert(grown[entry as int]@.len() <= MAX_LEVEL + 1);
        assert(ep == descent(grown, score, first, top as int, level as int));
        assert(gates =~= seq![ep.doc_id]);
    }
    while left > 0
        invariant
            n == doc + 1,
            doc >= 1,
            links@.len() == n,
            same_shape(grown, links@),
            grown[doc as int]@.len() == level + 1,
            graph_ok(links@),
            gives(f, score, n),
            knows(all, lives, n),
            lives == everyone(),
            score == likeness(*pair, doc),
            forall|b: Seq<Vec<Vec<u32>>>| #[trigger]
                links_down(*pair, doc, left as int, links@, entries@, b) ==> links_down(
                    *pair,
                    doc,
                    height,
                    grown,
                    gates,
                    b,
                ),
            scores_pairs(*pair, n),
            left <= level + 1,
            level <= MAX_LEVEL,
            left <= MAX_LEVEL + 1,
            unlinked(links@, doc, left as int),
            1 <= entries@.len() <= EF_BUILD,
            left > 0 ==> forall|k: int|
                0 <= k < entries@.len() ==> (#[trigger] entries@[k]) != doc && on_level(
                    links@,
                    entries@[k] as int,
                    left - 1,
                ),
            left > 0 && doc > 1 ==> linked(links@, doc as int),
            left == 0 ==> linked(links@, -1),
        decreases left,
    {
        let lv: usize = left - 1;
        let found = layer(
            &*links,
            &f,
            entries.as_slice(),
            EF_BUILD,
            lv,
            &mut count,
            &all,
            Ghost(score),
            Ghost(lives),
        );
        let ghost here = links@;
        proof {
            let seen = choose|seen: Set<u32>| #[trigger]
                explored(here, score, lives, entries@, EF_BUILD as int, lv as int, found@, seen);
            assert(explored(here, score, lives, entries@, EF_BUILD as int, lv as int, found@, seen));
            assert(!seen.contains(doc)) by {
                if seen.contains(doc) {
                    assert(reached(here, lv as int, entries@, seen, doc));
                    if !entries@.contains(doc) {
                        let v = choose|v: u32| #[trigger]
                            seen.contains(v) && edges(here, v as int, lv as int).contains(doc);
                        assert(on_level(here, v as int, lv as int));
                    }
                }
            }
            assert(seen.contains(entries@[0]));
            assert(lives(entries@[0]));
            assert(found@.len() >= 1);
            assert forall|i: int| 0 <= i < found@.len() implies (#[trigger] found@[i]).doc_id != doc
                && on_level(here, found@[i].doc_id as int, lv as int) && found@[i].score
                == score(found@[i].doc_id) by {
                assert(seen.contains(found@[i].doc_id));
            }
            assert(distinct_docs(found@)) by {
                assert forall|i: int, j: int| 0 <= i < j < found@.len() implies (
                #[trigger] found@[i]).doc_id != (#[trigger] found@[j]).doc_id by {
                    assert(closer(found@[i], found@[j]));
                }
            }
            assert(docs_below(found@, n));
        }
        let ghost gate = entries@;
        entries = docs_of(&found);
        let chosen = select_neighbors(pair, found.as_slice(), M, Ghost(n));
        proof {
            lemma_selection(*pair, found@, M as int);
            assert forall|j: int| 0 <= j < chosen@.len() implies (#[trigger] chosen@[j]) != doc
                && on_level(here, chosen@[j] as int, lv as int) by {
                assert(lists(found@, chosen@[j]));
                let i = choose|i: int|
                    0 <= i < found@.len() && (#[trigger] found@[i]).doc_id == chosen@[j];
            }
            assert(grown[doc as int]@.len() == here[doc as int]@.len());
        }
        link_level(links, doc, lv, chosen, pair);
        proof {
            assert(entries@ =~= docs_in(found@));
            assert(links_level(*pair, doc, lv as int, here, gate, found@, links@));
            assert forall|b: Seq<Vec<Vec<u32>>>| #[trigger]
                links_down(*pair, doc, lv as int, links@, entries@, b) implies links_down(
                *pair,
                doc,
                height,
                grown,
                gates,
                b,
            ) by {
                assert(links_down(*pair, doc, left as int, here, gate, b));
            }
            assert forall|v: int| 0 <= v < grown.len() implies (#[trigger] grown[v])@.len()
                == links@[v]@.len() by {
                assert(grown[v]@.len() == here[v]@.len());
                assert(here[v]@.len() == links@[v]@.len());
            }
            if lv > 0 {
                assert forall|k: int| 0 <= k < entries@.len() implies (#[trigger] entries@[k]) != doc
                    && on_level(links@, entries@[k] as int, lv - 1) by {
                    assert(entries@[k] == found@[k].doc_id);
                    let d = entries@[k] as int;
                    assert(here[d]@.len() == links@[d]@.len());
                }
            }
        }
        left -= 1;
    }
    proof {
        assert(links_down(*pair, doc, left as int, links@, entries@, links@));
        assert(inserted(*pair, doc, level as int, entry, start, links@));
        assert forall|v: int| 0 <= v < doc implies (#[trigger] links@[v])@.len()
            == start[v]@.len() by {
            assert(grown[v]@.len() == links@[v]@.len());
            assert(grown[v] == start[v]);
        }
        assert(grown[doc as int]@.len() == links@[doc as int]@.len());
    }
}

/// The first state of the generator that draws levels.
pub const SEED: u64 = 0x9e3779b97f4a7c15;

/// The next state of the generator.
pub open spec fn drawn(x: u64) -> u64 {
    let a = x ^ (x << 13);
    let b = a ^ (a >> 7);
    b ^ (b << 17)
}

/// The state of the generator after `i` draws.
pub open spec fn state_after(i: nat) -> u64
    decreases i,
{
    if i == 0 {
        SEED
    } else {
        drawn(state_after((i - 1) as nat))
    }
}

/// The highest level of document `d`: one more for every four trailing zeros
/// of its draw.
pub open spec fn level_of(d: int) -> int {
    let steps = u64_trailing_zeros(state_after((d + 1) as nat)) as int / 4;
    if steps < MAX_LEVEL {
        steps
    } else {
        MAX_LEVEL as int
    }
}

/// `links` and `entry` are what adding the first `n` documents one after the
/// other comes to. The entry is the first document of the highest level.
pub open spec fn built<P: Fn(u32, u32) -> u32>(
    pair: P,
    n: int,
    links: Seq<Vec<Vec<u32>>>,
    entry: u32,
) -> bool
    decreases n,
{
    if n <= 1 {
        enlarged(Seq::empty(), level_of(0), links) && entry == 0
    } else {
        exists|before: Seq<Vec<Vec<u32>>>, from: u32| #[trigger]
            inserted(
                pair,
                (n - 1) as u32,
                level_of(n - 1),
                from,
                before,
                links,
            ) && built(
                pair,
                n - 1,
                before,
                from,
            ) && entry == if level_of(n - 1) > before[from as int]@.len() - 1 {
                (n - 1) as u32
            } else {
                from
            }
    }
}

/// Why a graph cannot be built.
#[derive(Clone, Copy, PartialEq, Eq, Debug, Structural)]
pub enum BuildError {
    Empty,
    /// The vector of a document has a coordinate that is not finite.
    NonFinite(u32),
}

impl HnswIndex {
    /// A graph over `num_docs` documents. `finite` says which have only
    /// finite coordinates, and `pair` how similar two documents are.
    pub fn build<P: Fn(u32, u32) -> u32>(
        num_docs: u32,
        dim: u32,
        generation: (u64, u128),
        finite: &[bool],
        pair: &P,
    ) -> (r: Result<HnswIndex, BuildError>)
        requires
            finite@.len() == num_docs,
            scores_pairs(*pair, num_docs as int),
        ensures
            match r {
                Ok(g) => {
                    &&& num_docs > 0 && dim > 0
                    &&& forall|d: int| 0 <= d < num_docs ==> #[trigger] finite@[d]
                    &&& g.wf()
                    &&& g.dim == dim
                    &&& g.generation == generation
                    &&& g.links@.len() == num_docs
                    &&& built(*pair, num_docs as int, g.links@, g.entry)
                    &&& forall|d: int|
                        0 <= d < num_docs ==> (#[trigger] g.links@[d])@.len() == level_of(d) + 1
                    &&& num_docs > 1 ==> linked(g.links@, -1)
                },
                Err(BuildError::Empty) => num_docs == 0 || dim == 0,
                Err(BuildError::NonFinite(d)) => {
                    &&& num_docs > 0 && dim > 0
                    &&& d < num_docs
                    &&& !finite@[d as int]
                    &&& forall|e: int| 0 <= e < d ==> #[trigger] finite@[e]
                },
            },
    {
        if num_docs == 0 || dim == 0 {
            return Err(BuildError::Empty);
        }
        let mut links: Vec<Vec<Vec<u32>>> = Vec::new();
        let mut entry: u32 = 0;
        let mut random: u64 = SEED;
        let mut doc: u32 = 0;
        while doc < num_docs
            invariant
                num_docs > 0,
                dim > 0,
                finite@.len() == num_docs,
                scores_pairs(*pair, num_docs as int),
                doc <= num_docs,
                forall|d: int| 0 <= d < doc ==> #[trigger] finite@[d],
                random == state_after(doc as nat),
                links@.len() == doc,
                graph_ok(links@),
                doc > 0 ==> entry_ok(links@, entry as int),
                doc == 0 ==> entry == 0,
                doc > 0 ==> built(*pair, doc as int, links@, entry),
                doc > 1 ==> linked(links@, -1),
                forall|d: int|
                    0 <= d < doc ==> (#[trigger] links@[d])@.len() == level_of(d) + 1,
            decreases num_docs - doc,
        {
            if !finite[doc as usize] {
                return Err(BuildError::NonFinite(doc));
            }
            let a: u64 = random ^ (random << 13);
            let b: u64 = a ^ (a >> 7);
            random = b ^ (b << 17);
            assert(random == state_after((doc + 1) as nat));
            proof {
                axiom_u64_trailing_zeros(random);
            }
            let steps: usize = random.trailing_zeros() as usize / 4;
            let level: usize = if steps < MAX_LEVEL { steps } else { MAX_LEVEL };
            assert(level == level_of(doc as int));
            let ghost before = links@;
            if doc == 0 {
                let mut own: Vec<Vec<u32>> = Vec::new();
                let mut z: usize = 0;
                while z <= level
                    invariant
                        z <= level + 1,
                        level <= MAX_LEVEL,
                        own@.len() == z,
                        forall|l: int| 0 <= l < z ==> (#[trigger] own@[l])@.len() == 0,
                    decreases level + 1 - z,
                {
                    own.push(Vec::new());
                    z += 1;
                }
                let ghost fresh = own;
                links.push(own);
                proof {
                    assert(links@.last() == fresh);
                    assert(enlarged(Seq::empty(), level_of(0), links@));
                    assert forall|v: int, l: int| #[trigger] on_level(links@, v, l) implies edges_ok(
                        links@,
                        v,
                        l,
                    ) by {
                        assert(links@[0]@[l]@.len() == 0);
                    }
                }
            } else {
                let top: usize = links[entry as usize].len() - 1;
                let ghost from = entry;
                insert_node(&mut links, doc, level, entry, pair);
                if level > top {
                    entry = doc;
                }
                proof {
                    let m = doc + 1;
                    assert((m - 1) as u32 == doc);
                    assert(built(*pair, m - 1, before, from));
                    assert(inserted(*pair, doc, level_of(m - 1), from, before, links@));
                    assert(built(*pair, m, links@, entry));
                    assert forall|v: int| 0 <= v < links@.len() implies (#[trigger] links@[v])@.len()
                        <= links@[entry as int]@.len() by {
                        if v < doc {
                            assert(links@[v]@.len() == before[v]@.len());
                        }
                    }
                }
            }
            doc += 1;
        }
        Ok(HnswIndex { links, entry, dim, generation })
    }
}

// ---------------------------------------------------------------------------
// The graph file
// ---------------------------------------------------------------------------

/// The bytes `HPSHNS01` as a number.
pub const MAGIC: u64 = 0x3130_534e_4853_5048;

/// Bytes before the first node.
pub const HEADER_LEN: usize = 44;

/// Why bytes are not the graph of some vectors.
#[derive(Clone, Copy, PartialEq, Eq, Debug, Structural)]
pub enum HnswError {
    Truncated,
    InvalidFormat,
    /// It is the graph of other vectors.
    Stale,
    InvalidEntry,
    InvalidNode,
    TrailingData,
    InvalidTopology,
}

/// The links of one node, level by level.
pub open spec fn levels_of(v: Vec<Vec<u32>>) -> Seq<Seq<u32>> {
    v@.map_values(|e: Vec<u32>| e@)
}

/// The links of all nodes.
pub open spec fn model_of(links: Seq<Vec<Vec<u32>>>) -> Seq<Seq<Seq<u32>>> {
    links.map_values(|v: Vec<Vec<u32>>| levels_of(v))
}

/// One level of a node in the file.
pub open spec fn level_bytes(e: Seq<u32>) -> Seq<u8> {
    seq![e.len() as u8] + table::table(table::nats_u32(e), 4)
}

/// The levels of a node from `l` on in the file.
pub open spec fn levels_from(levels: Seq<Seq<u32>>, l: int) -> Seq<u8>
    decreases levels.len() - l,
{
    if l >= levels.len() {
        Seq::empty()
    } else {
        level_bytes(levels[l]) + levels_from(levels, l + 1)
    }
}

/// One node in the file.
pub open spec fn node_bytes(levels: Seq<Seq<u32>>) -> Seq<u8> {
    seq![levels.len() as u8] + levels_from(levels, 0)
}

/// The nodes from `i` on in the file.
pub open spec fn nodes_from(nodes: Seq<Seq<Seq<u32>>>, i: int) -> Seq<u8>
    decreases nodes.len() - i,
{
    if i >= nodes.len() {
        Seq::empty()
    } else {
        node_bytes(nodes[i]) + nodes_from(nodes, i + 1)
    }
}

/// The header of a graph file.
pub open spec fn header_bytes(n: nat, dim: u32, generation: (u64, u128), entry: u32) -> Seq<u8> {
    codec::le_bytes(MAGIC as nat, 8) + codec::le_bytes(n, 4) + codec::le_bytes(dim as nat, 4)
        + codec::le_bytes(generation.0 as nat, 8) + codec::le_bytes(generation.1 as nat, 16)
        + codec::le_bytes(entry as nat, 4)
}

/// The file of a graph.
pub open spec fn saved(g: HnswIndex) -> Seq<u8> {
    header_bytes(g.links@.len(), g.dim, g.generation, g.entry) + nodes_from(model_of(g.links@), 0)
}

/// The `degree` links at `pos`.
pub open spec fn edges_at(b: Seq<u8>, pos: int, degree: int) -> Seq<u32> {
    Seq::new(degree as nat, |j: int| codec::le_at(b, pos + j * 4, 4) as u32)
}

/// Links of `node`: to other nodes below `n`, each once.
pub open spec fn list_ok(e: Seq<u32>, node: int, n: int) -> bool {
    &&& e.no_duplicates()
    &&& forall|j: int| 0 <= j < e.len() ==> (#[trigger] e[j]) < n && e[j] != node
}

/// Levels `l` to `levels` of `node`, read at `pos`, and where they end.
pub open spec fn parse_levels(
    b: Seq<u8>,
    pos: int,
    l: int,
    levels: int,
    node: int,
    n: int,
) -> Option<(Seq<Seq<u32>>, int)>
    decreases levels - l,
{
    if l >= levels {
        Some((Seq::empty(), pos))
    } else if pos >= b.len() || b[pos] > cap_of(l) || pos + 1 + 4 * b[pos] > b.len() {
        None
    } else {
        let e = edges_at(b, pos + 1, b[pos] as int);
        if !list_ok(e, node, n) {
            None
        } else {
            match parse_levels(b, pos + 1 + 4 * b[pos], l + 1, levels, node, n) {
                Some((rest, end)) => Some((seq![e] + rest, end)),
                None => None,
            }
        }
    }
}

/// Nodes `i` to `n`, read at `pos`, and where they end.
pub open spec fn parse_nodes(b: Seq<u8>, pos: int, i: int, n: int) -> Option<
    (Seq<Seq<Seq<u32>>>, int),
>
    decreases n - i,
{
    if i >= n {
        Some((Seq::empty(), pos))
    } else if pos >= b.len() || b[pos] == 0 || b[pos] > MAX_LEVEL + 1 {
        None
    } else {
        match parse_levels(b, pos + 1, 0, b[pos] as int, i, n) {
            None => None,
            Some((levels, next)) => match parse_nodes(b, next, i + 1, n) {
                Some((rest, end)) => Some((seq![levels] + rest, end)),
                None => None,
            },
        }
    }
}

/// Every node stands on no more levels than the entry, and every link leads
/// to a node of its level.
pub open spec fn topology_ok(nodes: Seq<Seq<Seq<u32>>>, entry: int) -> bool {
    forall|v: int|
        0 <= v < nodes.len() ==> {
            &&& (#[trigger] nodes[v]).len() <= nodes[entry].len()
            &&& forall|l: int, j: int|
                #![trigger nodes[v][l][j]]
                0 <= l < nodes[v].len() && 0 <= j < nodes[v][l].len() ==> nodes[nodes[v][l][j] as int].len()
                    > l
        }
}

/// Why `b` is not the graph of these vectors, if it is not.
pub open spec fn refusal(
    b: Seq<u8>,
    num_docs: u32,
    dim: u32,
    generation: (u64, u128),
) -> Option<HnswError> {
    let n = codec::le_at(b, 8, 4) as int;
    let entry = codec::le_at(b, 40, 4) as int;
    if b.len() < 8 {
        Some(HnswError::Truncated)
    } else if codec::le_at(b, 0, 8) != MAGIC {
        Some(HnswError::InvalidFormat)
    } else if b.len() < HEADER_LEN {
        Some(HnswError::Truncated)
    } else if n != num_docs || codec::le_at(b, 12, 4) != dim || codec::le_at(b, 16, 8)
        != generation.0 || codec::le_at(b, 24, 16) != generation.1 {
        Some(HnswError::Stale)
    } else if entry >= n || b.len() < HEADER_LEN + 2 * n {
        Some(HnswError::InvalidEntry)
    } else {
        match parse_nodes(b, HEADER_LEN as int, 0, n) {
            None => Some(HnswError::InvalidNode),
            Some((nodes, end)) => if end != b.len() {
                Some(HnswError::TrailingData)
            } else if !topology_ok(nodes, entry) {
                Some(HnswError::InvalidTopology)
            } else {
                None
            },
        }
    }
}

/// Are these links of `node`: to other nodes below `n`, each once?
fn check_list(e: &Vec<u32>, node: u32, n: u32) -> (r: bool)
    ensures
        r == list_ok(e@, node as int, n as int),
{
    let total: usize = e.len();
    let mut i: usize = 0;
    while i < total
        invariant
            i <= total == e@.len(),
            forall|a: int, b: int| 0 <= a < b < i ==> e@[a] != e@[b],
            forall|a: int| 0 <= a < i ==> (#[trigger] e@[a]) < n && e@[a] != node,
        decreases total - i,
    {
        if e[i] >= n || e[i] == node {
            assert(!((e@[i as int]) < n && e@[i as int] != node));
            return false;
        }
        let mut j: usize = 0;
        while j < i
            invariant
                j <= i < total == e@.len(),
                forall|a: int| 0 <= a < j ==> e@[a] != e@[i as int],
            decreases i - j,
        {
            if e[j] == e[i] {
                assert(!e@.no_duplicates());
                return false;
            }
            j += 1;
        }
        i += 1;
    }
    true
}

/// The levels of `node`, read at `pos`, and where they end.
fn read_levels(bytes: &[u8], pos: usize, levels: usize, node: u32, n: u32) -> (r: Option<
    (Vec<Vec<u32>>, usize),
>)
    requires
        pos <= bytes@.len(),
    ensures
        match r {
            Some((v, end)) => end <= bytes@.len() && v@.len() == levels && parse_levels(
                bytes@,
                pos as int,
                0,
                levels as int,
                node as int,
                n as int,
            ) == Some((levels_of(v), end as int)),
            None => parse_levels(
                bytes@,
                pos as int,
                0,
                levels as int,
                node as int,
                n as int,
            ) is None,
        },
{
    let total: usize = bytes.len();
    let ghost whole = parse_levels(
        bytes@,
        pos as int,
        0,
        levels as int,
        node as int,
        n as int,
    );
    let mut out: Vec<Vec<u32>> = Vec::new();
    let mut at: usize = pos;
    let mut l: usize = 0;
    proof {
        lemma_join_levels(
            levels_of(out),
            parse_levels(bytes@, at as int, 0, levels as int, node as int, n as int),
        );
    }
    while l < levels
        invariant
            l <= levels,
            at <= total == bytes@.len(),
            out@.len() == l,
            whole == join_levels(
                levels_of(out),
                parse_levels(
                    bytes@,
                    at as int,
                    l as int,
                    levels as int,
                    node as int,
                    n as int,
                ),
            ),
            whole == parse_levels(
                bytes@,
                pos as int,
                0,
                levels as int,
                node as int,
                n as int,
            ),
        decreases levels - l,
    {
        let ghost rest = parse_levels(
            bytes@,
            at as int,
            l as int,
            levels as int,
            node as int,
            n as int,
        );
        if at >= total {
            return None;
        }
        let degree: usize = bytes[at] as usize;
        let cap: usize = if l == 0 { 2 * M } else { M };
        if degree > cap || total - at - 1 < 4 * degree {
            return None;
        }
        let e = table::read_u32(bytes, at + 1, degree);
        proof {
            assert(e@ =~= edges_at(bytes@, at + 1, degree as int)) by {
                assert forall|j: int| 0 <= j < degree implies e@[j] == edges_at(
                    bytes@,
                    at + 1,
                    degree as int,
                )[j] by {
                    assert(table::nats_u32(e@)[j] == table::entries(
                        bytes@,
                        at + 1,
                        degree as int,
                        4,
                    )[j]);
                }
            }
        }
        if !check_list(&e, node, n) {
            return None;
        }
        let ghost had = levels_of(out);
        let ghost own = e@;
        out.push(e);
        at = at + 1 + 4 * degree;
        l += 1;
        proof {
            assert(levels_of(out) =~= had.push(own));
            let next = parse_levels(
                bytes@,
                at as int,
                l as int,
                levels as int,
                node as int,
                n as int,
            );
            if next is Some {
                assert(had + (seq![own] + next->Some_0.0) =~= had.push(own) + next->Some_0.0);
            }
        }
    }
    proof {
        assert(levels_of(out) + Seq::<Seq<u32>>::empty() =~= levels_of(out));
    }
    Some((out, at))
}

/// What was read, with `front` before it.
spec fn join_levels(front: Seq<Seq<u32>>, rest: Option<(Seq<Seq<u32>>, int)>) -> Option<
    (Seq<Seq<u32>>, int),
> {
    match rest {
        Some((more, end)) => Some((front + more, end)),
        None => None,
    }
}

proof fn lemma_join_levels(front: Seq<Seq<u32>>, rest: Option<(Seq<Seq<u32>>, int)>)
    requires
        front.len() == 0,
    ensures
        join_levels(front, rest) == rest,
{
    if rest is Some {
        assert(front + rest->Some_0.0 =~= rest->Some_0.0);
    }
}

/// What was read, with `front` before it.
spec fn join_nodes(
    front: Seq<Seq<Seq<u32>>>,
    rest: Option<(Seq<Seq<Seq<u32>>>, int)>,
) -> Option<(Seq<Seq<Seq<u32>>>, int)> {
    match rest {
        Some((more, end)) => Some((front + more, end)),
        None => None,
    }
}

/// The nodes, read at `pos`, and where they end.
fn read_nodes(bytes: &[u8], pos: usize, n: u32) -> (r: Option<(Vec<Vec<Vec<u32>>>, usize)>)
    requires
        pos <= bytes@.len(),
    ensures
        match r {
            Some((v, end)) => end <= bytes@.len() && v@.len() == n && parse_nodes(
                bytes@,
                pos as int,
                0,
                n as int,
            ) == Some((model_of(v@), end as int)),
            None => parse_nodes(bytes@, pos as int, 0, n as int) is None,
        },
{
    let total: usize = bytes.len();
    let ghost whole = parse_nodes(bytes@, pos as int, 0, n as int);
    let mut out: Vec<Vec<Vec<u32>>> = Vec::new();
    let mut at: usize = pos;
    let mut i: u32 = 0;
    proof {
        if whole is Some {
            assert(model_of(out@) + whole->Some_0.0 =~= whole->Some_0.0);
        }
    }
    while i < n
        invariant
            i <= n,
            at <= total == bytes@.len(),
            out@.len() == i,
            whole == join_nodes(
                model_of(out@),
                parse_nodes(bytes@, at as int, i as int, n as int),
            ),
            whole == parse_nodes(bytes@, pos as int, 0, n as int),
        decreases n - i,
    {
        if at >= total || bytes[at] == 0 || bytes[at] as usize > MAX_LEVEL + 1 {
            return None;
        }
        let levels: usize = bytes[at] as usize;
        let (own, next) = match read_levels(bytes, at + 1, levels, i, n) {
            Some(x) => x,
            None => {
                return None;
            },
        };
        let ghost had = model_of(out@);
        let ghost node = levels_of(own);
        out.push(own);
        at = next;
        i += 1;
        proof {
            assert(model_of(out@) =~= had.push(node));
            let rest = parse_nodes(bytes@, at as int, i as int, n as int);
            if rest is Some {
                assert(had + (seq![node] + rest->Some_0.0) =~= had.push(node) + rest->Some_0.0);
            }
        }
    }
    proof {
        assert(model_of(out@) + Seq::<Seq<Seq<u32>>>::empty() =~= model_of(out@));
    }
    Some((out, at))
}

/// Does every link lead to a node of its level, and does the entry stand on
/// every level?
fn check_topology(links: &Vec<Vec<Vec<u32>>>, entry: u32) -> (r: bool)
    requires
        entry < links@.len(),
        forall|v: int, l: int, j: int|
            #![trigger links@[v]@[l]@[j]]
            0 <= v < links@.len() && 0 <= l < links@[v]@.len() && 0 <= j < links@[v]@[l]@.len()
                ==> links@[v]@[l]@[j] < links@.len(),
    ensures
        r == topology_ok(model_of(links@), entry as int),
{
    let ghost nodes = model_of(links@);
    let n: usize = links.len();
    let top: usize = links[entry as usize].len();
    assert(nodes[entry as int].len() == top);
    let mut v: usize = 0;
    while v < n
        invariant
            n == links@.len(),
            nodes == model_of(links@),
            entry < n,
            top == nodes[entry as int].len(),
            v <= n,
            forall|a: int, l: int, j: int|
                #![trigger links@[a]@[l]@[j]]
                0 <= a < n && 0 <= l < links@[a]@.len() && 0 <= j < links@[a]@[l]@.len()
                    ==> links@[a]@[l]@[j] < n,
            forall|a: int|
                0 <= a < v ==> {
                    &&& (#[trigger] nodes[a]).len() <= top
                    &&& forall|l: int, j: int|
                        #![trigger nodes[a][l][j]]
                        0 <= l < nodes[a].len() && 0 <= j < nodes[a][l].len()
                            ==> nodes[nodes[a][l][j] as int].len() > l
                },
        decreases n - v,
    {
        let levels: usize = links[v].len();
        assert(nodes[v as int].len() == levels);
        if levels > top {
            return false;
        }
        let mut l: usize = 0;
        while l < levels
            invariant
                n == links@.len(),
                nodes == model_of(links@),
                v < n,
                l <= levels == links@[v as int]@.len(),
                entry < n,
                forall|a: int, m: int, j: int|
                    #![trigger links@[a]@[m]@[j]]
                    0 <= a < n && 0 <= m < links@[a]@.len() && 0 <= j < links@[a]@[m]@.len()
                        ==> links@[a]@[m]@[j] < n,
                forall|m: int, j: int|
                    #![trigger nodes[v as int][m][j]]
                    0 <= m < l && 0 <= j < nodes[v as int][m].len()
                        ==> nodes[nodes[v as int][m][j] as int].len() > m,
            decreases levels - l,
        {
            let degree: usize = links[v][l].len();
            let mut j: usize = 0;
            while j < degree
                invariant
                    n == links@.len(),
                    nodes == model_of(links@),
                    v < n,
                    l < links@[v as int]@.len(),
                    j <= degree == links@[v as int]@[l as int]@.len(),
                    entry < n,
                    forall|a: int, m: int, i: int|
                        #![trigger links@[a]@[m]@[i]]
                        0 <= a < n && 0 <= m < links@[a]@.len() && 0 <= i < links@[a]@[m]@.len()
                            ==> links@[a]@[m]@[i] < n,
                    forall|i: int|
                        0 <= i < j ==> nodes[(#[trigger] nodes[v as int][l as int][i]) as int].len()
                            > l,
                decreases degree - j,
            {
                let id: u32 = links[v][l][j];
                assert(id == links@[v as int]@[l as int]@[j as int]);
                assert(nodes[v as int][l as int][j as int] == id);
                let reach: usize = links[id as usize].len();
                assert(nodes[id as int].len() == reach);
                if reach <= l {
                    assert(!(nodes[nodes[v as int][l as int][j as int] as int].len() > l));
                    assert(nodes[v as int].len() == links@[v as int]@.len());
                    return false;
                }
                j += 1;
            }
            l += 1;
        }
        v += 1;
    }
    true
}

/// What was parsed is well formed.
proof fn lemma_parsed_levels(b: Seq<u8>, pos: int, l: int, levels: int, node: int, n: int)
    requires
        0 <= l <= levels,
        parse_levels(b, pos, l, levels, node, n) is Some,
    ensures
        ({
            let out = parse_levels(b, pos, l, levels, node, n)->Some_0.0;
            &&& out.len() == levels - l
            &&& forall|m: int|
                0 <= m < out.len() ==> (#[trigger] out[m]).len() <= cap_of(l + m) && list_ok(
                    out[m],
                    node,
                    n,
                )
        }),
    decreases levels - l,
{
    if l < levels {
        let next = pos + 1 + 4 * b[pos];
        lemma_parsed_levels(b, next, l + 1, levels, node, n);
        let out = parse_levels(b, pos, l, levels, node, n)->Some_0.0;
        let rest = parse_levels(b, next, l + 1, levels, node, n)->Some_0.0;
        let e = edges_at(b, pos + 1, b[pos] as int);
        assert(out =~= seq![e] + rest);
        assert forall|m: int| 0 <= m < out.len() implies (#[trigger] out[m]).len() <= cap_of(l + m)
            && list_ok(out[m], node, n) by {
            if m > 0 {
                assert(out[m] == rest[m - 1]);
                assert(rest[m - 1].len() <= cap_of(l + 1 + (m - 1)));
            }
        }
    }
}

proof fn lemma_parsed_nodes(b: Seq<u8>, pos: int, i: int, n: int)
    requires
        0 <= i <= n,
        parse_nodes(b, pos, i, n) is Some,
    ensures
        ({
            let out = parse_nodes(b, pos, i, n)->Some_0.0;
            &&& out.len() == n - i
            &&& forall|v: int|
                0 <= v < out.len() ==> 1 <= (#[trigger] out[v]).len() <= MAX_LEVEL + 1
            &&& forall|v: int, l: int|
                #![trigger out[v][l]]
                0 <= v < out.len() && 0 <= l < out[v].len() ==> out[v][l].len() <= cap_of(l)
                    && list_ok(out[v][l], i + v, n)
        }),
    decreases n - i,
{
    if i < n {
        let levels = b[pos] as int;
        lemma_parsed_levels(b, pos + 1, 0, levels, i, n);
        let (own, next) = parse_levels(b, pos + 1, 0, levels, i, n)->Some_0;
        lemma_parsed_nodes(b, next, i + 1, n);
        let rest = parse_nodes(b, next, i + 1, n)->Some_0.0;
        let out = parse_nodes(b, pos, i, n)->Some_0.0;
        assert(out =~= seq![own] + rest);
        assert forall|v: int| 0 <= v < out.len() implies 1 <= (#[trigger] out[v]).len() <= MAX_LEVEL
            + 1 by {
            if v > 0 {
                assert(out[v] == rest[v - 1]);
            }
        }
        assert forall|v: int, l: int|
            #![trigger out[v][l]]
            0 <= v < out.len() && 0 <= l < out[v].len() implies out[v][l].len() <= cap_of(l)
            && list_ok(out[v][l], i + v, n) by {
            if v > 0 {
                assert(out[v] == rest[v - 1]);
                assert(rest[v - 1][l].len() <= cap_of(l) && list_ok(
                    rest[v - 1][l],
                    i + 1 + (v - 1),
                    n,
                ));
            } else {
                assert(own[l].len() <= cap_of(0 + l) && list_ok(own[l], i, n));
            }
        }
    }
}

/// Graphs whose nodes were parsed and whose topology holds are well formed.
proof fn lemma_parsed_wf(g: HnswIndex, b: Seq<u8>, pos: int)
    requires
        g.links@.len() <= u32::MAX,
        g.entry < g.links@.len(),
        parse_nodes(b, pos, 0, g.links@.len() as int) matches Some((nodes, end)) && nodes
            == model_of(g.links@) && topology_ok(nodes, g.entry as int),
    ensures
        g.wf(),
{
    let n = g.links@.len() as int;
    let links = g.links@;
    let nodes = model_of(links);
    lemma_parsed_nodes(b, pos, 0, n);
    assert forall|v: int| 0 <= v < n implies 1 <= (#[trigger] links[v])@.len() <= MAX_LEVEL + 1
        && links[v]@.len() <= links[g.entry as int]@.len() by {
        assert(nodes[v].len() == links[v]@.len());
        assert(nodes[g.entry as int].len() == links[g.entry as int]@.len());
    }
    assert forall|v: int, l: int| #[trigger] on_level(links, v, l) implies edges_ok(links, v, l) by {
        let e = edges(links, v, l);
        assert(nodes[v].len() == links[v]@.len());
        assert(nodes[v][l] == e);
        assert(list_ok(nodes[v][l], 0 + v, n));
        assert forall|j: int| 0 <= j < e.len() implies (#[trigger] e[j]) != v && on_level(
            links,
            e[j] as int,
            l,
        ) by {
            assert(nodes[v][l][j] == e[j]);
            assert(nodes[e[j] as int].len() == links[e[j] as int]@.len());
        }
    }
}

impl HnswIndex {
    /// The graph of some vectors, from its file.
    pub fn open(bytes: &[u8], num_docs: u32, dim: u32, generation: (u64, u128)) -> (r: Result<
        HnswIndex,
        HnswError,
    >)
        ensures
            match r {
                Ok(g) => {
                    &&& refusal(bytes@, num_docs, dim, generation) is None
                    &&& g.wf()
                    &&& g.dim == dim
                    &&& g.generation == generation
                    &&& g.links@.len() == num_docs
                    &&& g.entry == codec::le_at(bytes@, 40, 4)
                    &&& parse_nodes(bytes@, HEADER_LEN as int, 0, num_docs as int)
                        matches Some((nodes, end)) && nodes == model_of(g.links@)
                },
                Err(e) => refusal(bytes@, num_docs, dim, generation) == Some(e),
            },
    {
        let size: usize = bytes.len();
        if size < 8 {
            return Err(HnswError::Truncated);
        }
        if codec::read_le(bytes, 0, 8) != MAGIC {
            return Err(HnswError::InvalidFormat);
        }
        if size < HEADER_LEN {
            return Err(HnswError::Truncated);
        }
        let n: u64 = codec::read_le(bytes, 8, 4);
        let d: u64 = codec::read_le(bytes, 12, 4);
        let first: u64 = codec::read_le(bytes, 16, 8);
        let low: u64 = codec::read_le(bytes, 24, 8);
        let high: u64 = codec::read_le(bytes, 32, 8);
        let entry: u64 = codec::read_le(bytes, 40, 4);
        proof {
            let b = bytes@;
            lemma2_to64();
            assert(b.subrange(24, 40) =~= b.subrange(24, 32) + b.subrange(32, 40));
            codec::lemma_le_nat_concat(b.subrange(24, 32), b.subrange(32, 40));
        }
        assert(low + 0x1_0000_0000_0000_0000 * high <= u128::MAX) by (nonlinear_arith)
            requires
                low <= u64::MAX,
                high <= u64::MAX,
        ;
        let second: u128 = low as u128 + 0x1_0000_0000_0000_0000 * (high as u128);
        if n != num_docs as u64 || d != dim as u64 || first != generation.0 || second
            != generation.1 {
            return Err(HnswError::Stale);
        }
        if entry >= n || (size as u64) < HEADER_LEN as u64 + 2 * n {
            return Err(HnswError::InvalidEntry);
        }
        let (links, end) = match read_nodes(bytes, HEADER_LEN, num_docs) {
            Some(x) => x,
            None => {
                return Err(HnswError::InvalidNode);
            },
        };
        if end != size {
            return Err(HnswError::TrailingData);
        }
        let ghost nodes = model_of(links@);
        proof {
            lemma_parsed_nodes(bytes@, HEADER_LEN as int, 0, n as int);
            assert forall|v: int, l: int, j: int|
                #![trigger links@[v]@[l]@[j]]
                0 <= v < links@.len() && 0 <= l < links@[v]@.len() && 0 <= j
                    < links@[v]@[l]@.len() implies links@[v]@[l]@[j] < links@.len() by {
                assert(nodes[v].len() == links@[v]@.len());
                assert(nodes[v][l] == links@[v]@[l]@);
                assert(list_ok(nodes[v][l], 0 + v, n as int));
            }
        }
        if !check_topology(&links, entry as u32) {
            return Err(HnswError::InvalidTopology);
        }
        let g = HnswIndex { links, entry: entry as u32, dim, generation };
        proof {
            lemma_parsed_wf(g, bytes@, HEADER_LEN as int);
        }
        Ok(g)
    }

    /// The file of this graph.
    pub fn save(&self) -> (b: Vec<u8>)
        requires
            self.wf(),
        ensures
            b@ == saved(*self),
    {
        let n: usize = self.links.len();
        let mut out: Vec<u8> = Vec::new();
        codec::push_le(&mut out, MAGIC, 8);
        codec::push_le(&mut out, n as u64, 4);
        codec::push_le(&mut out, self.dim as u64, 4);
        codec::push_le(&mut out, self.generation.0, 8);
        codec::push_le_wide(&mut out, self.generation.1);
        codec::push_le(&mut out, self.entry as u64, 4);
        let ghost nodes = model_of(self.links@);
        let ghost whole = saved(*self);
        assert(out@ =~= header_bytes(n as nat, self.dim, self.generation, self.entry));
        let mut i: usize = 0;
        while i < n
            invariant
                self.wf(),
                i <= n == self.links@.len(),
                nodes == model_of(self.links@),
                whole == out@ + nodes_from(nodes, i as int),
            decreases n - i,
        {
            let levels: usize = self.links[i].len();
            let ghost own = nodes[i as int];
            let ghost later = nodes_from(nodes, i + 1);
            assert(own.len() == levels);
            let ghost before = out@;
            out.push(levels as u8);
            let mut l: usize = 0;
            assert(before + (node_bytes(own) + later) =~= out@ + (levels_from(own, 0) + later));
            while l < levels
                invariant
                    self.wf(),
                    i < n == self.links@.len(),
                    nodes == model_of(self.links@),
                    own == nodes[i as int],
                    l <= levels == self.links@[i as int]@.len(),
                    own.len() == levels,
                    whole == out@ + (levels_from(own, l as int) + later),
                decreases levels - l,
            {
                assert(on_level(self.links@, i as int, l as int));
                assert(edges_ok(self.links@, i as int, l as int));
                let degree: usize = self.links[i][l].len();
                let ghost was = out@;
                let ghost e = own[l as int];
                assert(e == self.links@[i as int]@[l as int]@);
                out.push(degree as u8);
                table::push_u32(&mut out, self.links[i][l].as_slice());
                proof {
                    assert(out@ =~= was + level_bytes(e));
                    assert(was + (levels_from(own, l as int) + later) =~= was + level_bytes(e) + (
                    levels_from(own, l + 1) + later));
                }
                l += 1;
            }
            assert(levels_from(own, l as int) + later =~= later);
            i += 1;
        }
        assert(whole =~= out@);
        out
    }
}

/// The levels of a node are read back from `at`.
proof fn lemma_levels_back(
    b: Seq<u8>,
    at: int,
    levels: Seq<Seq<u32>>,
    l: int,
    node: int,
    n: int,
    after: Seq<u8>,
)
    requires
        0 <= l <= levels.len(),
        0 <= at <= b.len(),
        b.skip(at) == levels_from(levels, l) + after,
        forall|m: int|
            0 <= m < levels.len() ==> (#[trigger] levels[m]).len() <= cap_of(m) && list_ok(
                levels[m],
                node,
                n,
            ),
    ensures
        parse_levels(b, at, l, levels.len() as int, node, n) matches Some((out, end)) && out
            == levels.skip(l) && at <= end <= b.len() && b.skip(end) == after,
    decreases levels.len() - l,
{
    if l < levels.len() {
        let e = levels[l];
        let rest = levels_from(levels, l + 1) + after;
        let cells = table::table(table::nats_u32(e), 4);
        assert(levels_from(levels, l) + after =~= seq![e.len() as u8] + (cells + rest));
        table::lemma_next(b, at, seq![e.len() as u8], cells + rest);
        assert(b.skip(at)[0] == e.len() as u8);
        assert(b[at] == e.len());
        table::lemma_fits_u32(e);
        table::lemma_next_table(b, at + 1, table::nats_u32(e), 4, rest);
        assert(edges_at(b, at + 1, e.len() as int) =~= e) by {
            assert forall|j: int| 0 <= j < e.len() implies edges_at(b, at + 1, e.len() as int)[j]
                == e[j] by {
                assert(table::entries(b, at + 1, e.len() as int, 4)[j] == table::nats_u32(e)[j]);
            }
        }
        lemma_levels_back(b, at + 1 + 4 * e.len(), levels, l + 1, node, n, after);
        assert(seq![e] + levels.skip(l + 1) =~= levels.skip(l));
    } else {
        assert(levels_from(levels, l) + after =~= after);
        assert(levels.skip(l) =~= Seq::<Seq<u32>>::empty());
    }
}

/// The nodes are read back from `at`.
proof fn lemma_nodes_back(b: Seq<u8>, at: int, nodes: Seq<Seq<Seq<u32>>>, i: int)
    requires
        0 <= i <= nodes.len(),
        0 <= at <= b.len(),
        b.skip(at) == nodes_from(nodes, i),
        forall|v: int|
            0 <= v < nodes.len() ==> 1 <= (#[trigger] nodes[v]).len() <= MAX_LEVEL + 1,
        forall|v: int, l: int|
            #![trigger nodes[v][l]]
            0 <= v < nodes.len() && 0 <= l < nodes[v].len() ==> nodes[v][l].len() <= cap_of(l)
                && list_ok(nodes[v][l], v, nodes.len() as int),
    ensures
        parse_nodes(b, at, i, nodes.len() as int) matches Some((out, end)) && out == nodes.skip(i)
            && end == b.len(),
    decreases nodes.len() - i,
{
    let n = nodes.len() as int;
    if i < n {
        let own = nodes[i];
        let rest = nodes_from(nodes, i + 1);
        assert(nodes_from(nodes, i) =~= seq![own.len() as u8] + (levels_from(own, 0) + rest));
        table::lemma_next(b, at, seq![own.len() as u8], levels_from(own, 0) + rest);
        assert(b.skip(at)[0] == own.len() as u8);
        assert(b[at] == own.len());
        assert forall|m: int| 0 <= m < own.len() implies (#[trigger] own[m]).len() <= cap_of(m)
            && list_ok(own[m], i, n) by {
            assert(nodes[i][m] == own[m]);
        }
        lemma_levels_back(b, at + 1, own, 0, i, n, rest);
        assert(own.skip(0) =~= own);
        let next = parse_levels(b, at + 1, 0, own.len() as int, i, n)->Some_0.1;
        lemma_nodes_back(b, next, nodes, i + 1);
        assert(seq![own] + nodes.skip(i + 1) =~= nodes.skip(i));
    } else {
        assert(nodes.skip(i) =~= Seq::<Seq<Seq<u32>>>::empty());
        assert(b.skip(at).len() == 0);
    }
}

/// A node takes at least two bytes.
proof fn lemma_nodes_len(nodes: Seq<Seq<Seq<u32>>>, i: int)
    requires
        0 <= i <= nodes.len(),
        forall|v: int| 0 <= v < nodes.len() ==> 1 <= (#[trigger] nodes[v]).len(),
    ensures
        nodes_from(nodes, i).len() >= 2 * (nodes.len() - i),
    decreases nodes.len() - i,
{
    if i < nodes.len() {
        lemma_nodes_len(nodes, i + 1);
        assert(nodes[i].len() >= 1);
        assert(levels_from(nodes[i], 0).len() >= 1);
    }
}

/// A saved graph opens, with the same links, against the vectors that it was
/// built over.
pub proof fn law_saved_graph_opens(g: HnswIndex, b: Seq<u8>)
    requires
        g.wf(),
        b == saved(g),
    ensures
        refusal(b, g.links@.len() as u32, g.dim, g.generation) is None,
        codec::le_at(b, 40, 4) == g.entry,
        parse_nodes(b, HEADER_LEN as int, 0, g.links@.len() as int) matches Some((nodes, end))
            && nodes == model_of(g.links@),
{
    let links = g.links@;
    let n = links.len() as int;
    let nodes = model_of(links);
    let rest = nodes_from(nodes, 0);
    lemma2_to64();
    lemma_pow2_adds(64, 64);
    let m0 = codec::le_bytes(MAGIC as nat, 8);
    let m1 = codec::le_bytes(n as nat, 4);
    let m2 = codec::le_bytes(g.dim as nat, 4);
    let m3 = codec::le_bytes(g.generation.0 as nat, 8);
    let m4 = codec::le_bytes(g.generation.1 as nat, 16);
    let m5 = codec::le_bytes(g.entry as nat, 4);
    let none = Seq::<u8>::empty();
    assert(b =~= none + m0 + (m1 + m2 + m3 + m4 + m5 + rest));
    codec::lemma_field(none, MAGIC as nat, 8, m1 + m2 + m3 + m4 + m5 + rest);
    assert(b =~= m0 + m1 + (m2 + m3 + m4 + m5 + rest));
    codec::lemma_field(m0, n as nat, 4, m2 + m3 + m4 + m5 + rest);
    assert(b =~= (m0 + m1) + m2 + (m3 + m4 + m5 + rest));
    codec::lemma_field(m0 + m1, g.dim as nat, 4, m3 + m4 + m5 + rest);
    assert(b =~= (m0 + m1 + m2) + m3 + (m4 + m5 + rest));
    codec::lemma_field(m0 + m1 + m2, g.generation.0 as nat, 8, m4 + m5 + rest);
    assert(b =~= (m0 + m1 + m2 + m3) + m4 + (m5 + rest));
    codec::lemma_field(m0 + m1 + m2 + m3, g.generation.1 as nat, 16, m5 + rest);
    assert(b =~= (m0 + m1 + m2 + m3 + m4) + m5 + rest);
    codec::lemma_field(m0 + m1 + m2 + m3 + m4, g.entry as nat, 4, rest);
    assert(b.skip(44) =~= rest);
    assert forall|v: int| 0 <= v < n implies 1 <= (#[trigger] nodes[v]).len() <= MAX_LEVEL + 1
        && nodes[v].len() == links[v]@.len() by {
        assert(1 <= links[v]@.len());
    }
    assert forall|v: int, l: int|
        #![trigger nodes[v][l]]
        0 <= v < n && 0 <= l < nodes[v].len() implies nodes[v][l].len() <= cap_of(l) && list_ok(
        nodes[v][l],
        v,
        n,
    ) by {
        assert(nodes[v].len() == links[v]@.len());
        assert(on_level(links, v, l));
        assert(edges_ok(links, v, l));
        let e = edges(links, v, l);
        assert(nodes[v][l] == e);
        assert forall|j: int| 0 <= j < e.len() implies (#[trigger] e[j]) < n && e[j] != v by {
            assert(on_level(links, e[j] as int, l));
        }
    }
    lemma_nodes_back(b, 44, nodes, 0);
    assert(nodes.skip(0) =~= nodes);
    lemma_nodes_len(nodes, 0);
    assert(topology_ok(nodes, g.entry as int)) by {
        assert forall|v: int| 0 <= v < nodes.len() implies {
            &&& (#[trigger] nodes[v]).len() <= nodes[g.entry as int].len()
            &&& forall|l: int, j: int|
                #![trigger nodes[v][l][j]]
                0 <= l < nodes[v].len() && 0 <= j < nodes[v][l].len()
                    ==> nodes[nodes[v][l][j] as int].len() > l
        } by {
            assert(nodes[v].len() == links[v]@.len());
            assert(nodes[g.entry as int].len() == links[g.entry as int]@.len());
            assert(links[v]@.len() <= links[g.entry as int]@.len());
            assert forall|l: int, j: int|
                #![trigger nodes[v][l][j]]
                0 <= l < nodes[v].len() && 0 <= j < nodes[v][l].len() implies nodes[nodes[v][l][j] as int].len()
                > l by {
                assert(on_level(links, v, l));
                assert(edges_ok(links, v, l));
                let e = edges(links, v, l);
                assert(nodes[v][l] == e);
                assert(on_level(links, e[j] as int, l));
                assert(nodes[e[j] as int].len() == links[e[j] as int]@.len());
            }
        }
    }
}

/// A graph is missing: there are enough documents, and no file with a graph
/// that can be used.
pub open spec fn lacks_graph(
    num_docs: u32,
    dim: u32,
    generation: (u64, u128),
    file: Option<Seq<u8>>,
) -> bool {
    &&& num_docs >= MIN_DOCS
    &&& file matches Some(b) ==> refusal(b, num_docs, dim, generation) is Some
}

/// Should a graph be built over these vectors? `file` is what stands where
/// the graph belongs.
pub fn build_if_large(
    num_docs: u32,
    dim: u32,
    generation: (u64, u128),
    file: Option<&[u8]>,
) -> (r: bool)
    ensures
        r == lacks_graph(
            num_docs,
            dim,
            generation,
            match file {
                Some(b) => Some(b@),
                None => None,
            },
        ),
{
    if num_docs < MIN_DOCS {
        return false;
    }
    match file {
        Some(b) => HnswIndex::open(b, num_docs, dim, generation).is_err(),
        None => true,
    }
}

/// Once a graph was built and saved, none is missing.
pub proof fn law_second_build_declines(g: HnswIndex)
    requires
        g.wf(),
    ensures
        !lacks_graph(g.links@.len() as u32, g.dim, g.generation, Some(saved(g))),
{
    law_saved_graph_opens(g, saved(g));
}

/// A walk over a level ends where no link leads closer, and not farther than it
/// began.
pub proof fn law_walk_ends_at_a_summit(
    links: Seq<Vec<Vec<u32>>>,
    score: spec_fn(u32) -> u32,
    level: int,
    x: Neighbor,
    j: int,
)
    requires
        x.score == score(x.doc_id),
    ensures
        ({
            let w = walk(links, score, level, x);
            &&& w.score == score(w.doc_id)
            &&& w.score > x.score || (w.score == x.score && w.doc_id <= x.doc_id)
            &&& 0 <= j < edges(links, w.doc_id as int, level).len() ==> {
                let d = edges(links, w.doc_id as int, level)[j];
                score(d) < w.score || (score(d) == w.score && d >= w.doc_id)
            }
        }),
    decreases u32::MAX - x.score, x.doc_id,
{
    let e = edges(links, x.doc_id as int, level);
    lemma_step(links, score, level, x);
    lemma_best_of(score, e, x, e.len() as int);
    let next = step(links, score, level, x);
    if next.doc_id == x.doc_id {
        if 0 <= j < e.len() {
            assert(!closer(scored(score, e[j]), next));
        }
    } else {
        law_walk_ends_at_a_summit(links, score, level, next, j);
    }
}

proof fn lemma_best_of(score: spec_fn(u32) -> u32, e: Seq<u32>, x: Neighbor, n: int)
    requires
        x.score == score(x.doc_id),
        0 <= n <= e.len(),
    ensures
        best_among(score, e, x, n).score == score(best_among(score, e, x, n).doc_id),
        forall|j: int|
            0 <= j < n ==> !closer(scored(score, #[trigger] e[j]), best_among(score, e, x, n)),
        !closer(x, best_among(score, e, x, n)),
    decreases n,
{
    if n > 0 {
        lemma_best_of(score, e, x, n - 1);
    }
}

/// What a level was searched for is closed under its links: a live document that
/// a found one links to is found too, or the search is full and all that it found
/// come before it.
pub proof fn law_found_neighbours_are_found(
    links: Seq<Vec<Vec<u32>>>,
    score: spec_fn(u32) -> u32,
    lives: spec_fn(u32) -> bool,
    entries: Seq<u32>,
    ef: int,
    level: int,
    pool: Seq<Neighbor>,
    seen: Set<u32>,
    i: int,
    j: int,
)
    requires
        explored(links, score, lives, entries, ef, level, pool, seen),
        0 <= i < pool.len(),
        0 <= j < edges(links, pool[i].doc_id as int, level).len(),
    ensures
        ({
            let d = edges(links, pool[i].doc_id as int, level)[j];
            lives(d) ==> (exists|p: int| 0 <= p < pool.len() && (#[trigger] pool[p]).doc_id == d) || (
            pool.len() == ef && forall|p: int|
                0 <= p < pool.len() ==> (#[trigger] pool[p]).score > score(d) || (pool[p].score
                    == score(d) && pool[p].doc_id < d))
        }),
{
    let v = pool[i].doc_id;
    let d = edges(links, v as int, level)[j];
    assert(seen.contains(v));
    if i + 1 < pool.len() {
        assert(closer(pool[i], pool[pool.len() - 1]));
    }
    assert(!outranked(pool, ef, scored(score, v)));
    assert(expanded(links, level, seen, v));
    assert(seen.contains(d));
    if lives(d) && !lists(pool, d) {
        assert(outranked(pool, ef, scored(score, d)));
        assert forall|p: int| 0 <= p < pool.len() implies (#[trigger] pool[p]).score > score(d) || (
        pool[p].score == score(d) && pool[p].doc_id < d) by {
            if p + 1 < pool.len() {
                assert(closer(pool[p], pool[pool.len() - 1]));
            }
        }
    }
}

/// An exact answer misses nothing: a live document is among the hits, or there
/// are as many as asked for and all of them come before it.
pub proof fn law_exact_answers_miss_nothing(
    score: spec_fn(u32) -> u32,
    lives: spec_fn(u32) -> bool,
    upto: int,
    k: int,
    hits: Seq<Neighbor>,
    d: u32,
)
    requires
        exact_top(score, lives, upto, k, hits),
        d < upto,
        lives(d),
    ensures
        hits.len() <= k,
        forall|p: int|
            0 <= p < hits.len() ==> (#[trigger] hits[p]).score == score(hits[p].doc_id) && lives(
                hits[p].doc_id,
            ),
        (exists|p: int| 0 <= p < hits.len() && (#[trigger] hits[p]).doc_id == d) || (hits.len() == k
            && forall|p: int|
            0 <= p < hits.len() ==> (#[trigger] hits[p]).score > score(d) || (hits[p].score == score(
                d,
            ) && hits[p].doc_id < d)),
{
    if !lists(hits, d) {
        assert(outranked(hits, k, scored(score, d)));
        assert forall|p: int| 0 <= p < hits.len() implies (#[trigger] hits[p]).score > score(d) || (
        hits[p].score == score(d) && hits[p].doc_id < d) by {
            if p + 1 < hits.len() {
                assert(closer(hits[p], hits[hits.len() - 1]));
            }
        }
    }
}

/// The neighbours that a node keeps: as many of the candidates as there is room
/// for, the first of them among these.
pub proof fn law_kept_neighbours<P: Fn(u32, u32) -> u32>(
    pair: P,
    candidates: Seq<Neighbor>,
    cap: int,
)
    requires
        distinct_docs(candidates),
        cap >= 1,
    ensures
        ({
            let e = selection(pair, candidates, cap);
            &&& e.len() <= cap
            &&& candidates.len() <= cap ==> e.len() == candidates.len()
            &&& candidates.len() > cap ==> e.len() == cap
            &&& e.no_duplicates()
            &&& forall|i: int|
                0 <= i < e.len() ==> exists|j: int|
                    0 <= j < candidates.len() && (#[trigger] candidates[j]).doc_id
                        == #[trigger] e[i]
            &&& candidates.len() > 0 ==> e[0] == candidates[0].doc_id
        }),
{
    lemma_selection(pair, candidates, cap);
    let e = selection(pair, candidates, cap);
    assert forall|i: int| 0 <= i < e.len() implies exists|j: int|
        0 <= j < candidates.len() && (#[trigger] candidates[j]).doc_id == #[trigger] e[i] by {
        assert(lists(candidates, e[i]));
    }
    if candidates.len() > 0 {
        lemma_first_sifted(pair, candidates, cap, candidates.len() as int);
    }
}

proof fn lemma_first_sifted<P: Fn(u32, u32) -> u32>(
    pair: P,
    candidates: Seq<Neighbor>,
    cap: int,
    i: int,
)
    requires
        cap >= 1,
        1 <= i <= candidates.len(),
    ensures
        sifted(pair, candidates, cap, i).0.len() > 0,
        sifted(pair, candidates, cap, i).0[0] == candidates[0].doc_id,
    decreases i,
{
    if i > 1 {
        lemma_first_sifted(pair, candidates, cap, i - 1);
    } else {
        assert(sifted(pair, candidates, cap, 0).0.len() == 0);
    }
}

/// A neighbour that is kept ahead of nearer candidates lies in a direction of its
/// own: no other kept before it is nearer to it than the node is.
pub open spec fn spread<P: Fn(u32, u32) -> u32>(
    pair: P,
    candidates: Seq<Neighbor>,
    chosen: Seq<u32>,
    a: int,
    b: int,
) -> bool {
    exists|j: int|
        0 <= j < candidates.len() && (#[trigger] candidates[j]).doc_id == chosen[b] && pair_by(
            pair,
            chosen[b],
            chosen[a],
        ) <= candidates[j].score
}

/// The neighbours that are kept first lie in directions of their own.
pub proof fn law_neighbours_are_spread<P: Fn(u32, u32) -> u32>(
    pair: P,
    candidates: Seq<Neighbor>,
    cap: int,
    i: int,
)
    requires
        0 <= i <= candidates.len(),
    ensures
        ({
            let chosen = sifted(pair, candidates, cap, i).0;
            forall|a: int, b: int|
                0 <= a < b < chosen.len() ==> #[trigger] spread(pair, candidates, chosen, a, b)
        }),
    decreases i,
{
    if i > 0 {
        law_neighbours_are_spread(pair, candidates, cap, i - 1);
        let (before, rejected) = sifted(pair, candidates, cap, i - 1);
        let chosen = sifted(pair, candidates, cap, i).0;
        let c = candidates[i - 1];
        assert forall|a: int, b: int| 0 <= a < b < chosen.len() implies #[trigger] spread(
            pair,
            candidates,
            chosen,
            a,
            b,
        ) by {
            if b < before.len() {
                assert(spread(pair, candidates, before, a, b));
                assert(chosen[a] == before[a] && chosen[b] == before[b]);
            } else {
                assert(chosen == before.push(c.doc_id));
                assert(!redundant(pair, before, c));
                assert(pair_by(pair, c.doc_id, before[a]) <= c.score);
                assert(candidates[i - 1].doc_id == chosen[b]);
            }
        }
    }
}

/// A new node links to the best that a level has to offer, sixteen at most, and
/// each of these that has room links back; the other nodes keep their links.
pub proof fn law_new_nodes_are_linked_both_ways<P: Fn(u32, u32) -> u32>(
    pair: P,
    doc: u32,
    l: int,
    a: Seq<Vec<Vec<u32>>>,
    entries: Seq<u32>,
    found: Seq<Neighbor>,
    b: Seq<Vec<Vec<u32>>>,
    v: u32,
)
    requires
        links_level(pair, doc, l, a, entries, found, b),
        v != doc,
    ensures
        edges(b, doc as int, l).len() == if found.len() < 16 {
            found.len() as int
        } else {
            16
        },
        edges(b, doc as int, l).contains(v) ==> exists|i: int|
            0 <= i < found.len() && (#[trigger] found[i]).doc_id == v,
        edges(b, doc as int, l).contains(v) && edges(a, v as int, l).len() < (if l == 0 {
            32int
        } else {
            16int
        }) ==> edges(b, v as int, l) == edges(a, v as int, l).push(doc),
        on_level(a, v as int, l) && !edges(b, doc as int, l).contains(v) ==> edges(b, v as int, l)
            == edges(a, v as int, l),
{
    let seen = choose|seen: Set<u32>| #[trigger]
        explored(
            a,
            likeness(pair, doc),
            everyone(),
            entries,
            EF_BUILD as int,
            l,
            found,
            seen,
        );
    assert(distinct_docs(found)) by {
        assert forall|i: int, j: int| 0 <= i < j < found.len() implies (#[trigger] found[i]).doc_id
            != (#[trigger] found[j]).doc_id by {
            assert(closer(found[i], found[j]));
            assert(found[i] == scored(likeness(pair, doc), found[i].doc_id));
            assert(found[j] == scored(likeness(pair, doc), found[j].doc_id));
        }
    }
    lemma_selection(pair, found, M as int);
    let chosen = selection(pair, found, M as int);
    assert(edges(b, doc as int, l) == chosen);
    if chosen.contains(v) {
        let i = choose|i: int| 0 <= i < chosen.len() && chosen[i] == v;
        assert(lists(found, chosen[i]));
        let j = choose|j: int| 0 <= j < found.len() && (#[trigger] found[j]).doc_id == v;
        assert(seen.contains(found[j].doc_id));
        assert(on_level(a, v as int, l));
        assert(adopts(pair, v, doc, l, edges(a, v as int, l), edges(b, v as int, l)));
    }
}

} // verus!
