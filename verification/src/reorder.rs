//! Document reordering for better index compression.
//!
//! Posting lists store gaps between document ids. If documents that share
//! terms get adjacent ids, gaps shrink and packing needs fewer bits.
//! Reordering is a renumbering: it permutes the documents and nothing else.
//!
//! Recursive graph bisection splits the documents into two halves and swaps
//! documents between them while that lowers an estimate of the compressed
//! size, then goes on within each half.

use crate::logarithm;
use crate::order;
use std::collections::HashMap;
use vstd::prelude::*;

verus! {

/// How document ids are assigned.
#[derive(Debug, Clone, Copy, PartialEq, Eq, Structural)]
pub enum ReorderStrategy {
    /// Keep input order.
    Keep,
    /// Sort by external document id.
    Path,
    /// Recursive graph bisection.
    Bp,
    /// Recursive graph bisection with gains computed on the GPU.
    BpGpu,
}

/// Partitions of at most this many documents are not split.
pub const BP_MIN_PARTITION: usize = 32;

/// Swap rounds per bisection.
pub const BP_MAX_ITERS: usize = 12;

/// Deepest bisection.
pub const BP_MAX_DEPTH: usize = 40;

/// Estimated bits of a term held by `deg` documents of a partition of `n`:
/// each of its gaps costs about `log2(n / (deg + 1))`.
pub open spec fn cost_spec(deg: int, n: int) -> int {
    if deg <= 0 {
        0
    } else {
        deg * (logarithm::lg(n as nat) - logarithm::lg((deg + 1) as nat))
    }
}

/// What moving one document saves on a term that `from_deg` documents hold
/// where it comes from and `to_deg` where it goes.
pub open spec fn gain_spec(from_deg: int, to_deg: int, n_from: int, n_to: int) -> int {
    cost_spec(from_deg, n_from) + cost_spec(to_deg, n_to) - cost_spec(from_deg - 1, n_from)
        - cost_spec(to_deg + 1, n_to)
}

fn cost(deg: u32, n: usize) -> (c: i128)
    requires
        0 < n <= u32::MAX,
    ensures
        c == cost_spec(deg as int, n as int),
        -0x4000_0000_0000_0000 <= c <= 0x4000_0000_0000_0000,
{
    if deg == 0 {
        return 0;
    }
    proof {
        logarithm::law_log_bound(n as nat);
        logarithm::law_log_bound((deg + 1) as nat);
    }
    let a: u64 = logarithm::log2(n as u64);
    let b: u64 = logarithm::log2(deg as u64 + 1);
    let d: i128 = a as i128 - b as i128;
    proof {
        let x = deg as int;
        let y = d as int;
        assert(-0x4000_0000_0000_0000 <= x * y <= 0x4000_0000_0000_0000) by (nonlinear_arith)
            requires
                0 <= x <= 0xffff_ffff,
                -0x4000_0000 <= y <= 0x4000_0000,
        ;
    }
    deg as i128 * d
}

fn move_gain(from_deg: u32, to_deg: u32, n_from: usize, n_to: usize) -> (g: i128)
    requires
        0 < from_deg,
        to_deg < u32::MAX,
        0 < n_from <= u32::MAX,
        0 < n_to <= u32::MAX,
    ensures
        g == gain_spec(from_deg as int, to_deg as int, n_from as int, n_to as int),
        -0x1_0000_0000_0000_0000 <= g <= 0x1_0000_0000_0000_0000,
{
    cost(from_deg, n_from) + cost(to_deg, n_to) - cost(from_deg - 1, n_from) - cost(
        to_deg + 1,
        n_to,
    )
}

/// The term lists as values.
pub open spec fn term_views(doc_terms: Seq<Vec<u32>>) -> Seq<Seq<u32>> {
    Seq::new(doc_terms.len(), |d: int| doc_terms[d]@)
}

/// The term lists of the documents in `order`.
pub open spec fn docs_of(doc_terms: Seq<Seq<u32>>, order: Seq<u32>) -> Seq<Seq<u32>> {
    Seq::new(order.len(), |i: int| doc_terms[order[i] as int])
}

/// How many of the first `n` documents stand on side `s` and hold `t`.
pub open spec fn degree(docs: Seq<Seq<u32>>, side: Seq<bool>, s: bool, t: u32, n: int) -> nat
    decreases n,
{
    if n <= 0 {
        0
    } else if side[n - 1] == s && docs[n - 1].contains(t) {
        degree(docs, side, s, t, n - 1) + 1
    } else {
        degree(docs, side, s, t, n - 1)
    }
}

/// How many of the first `n` documents stand on side `s`.
pub open spec fn side_len(side: Seq<bool>, s: bool, n: int) -> nat
    decreases n,
{
    if n <= 0 {
        0
    } else if side[n - 1] == s {
        side_len(side, s, n - 1) + 1
    } else {
        side_len(side, s, n - 1)
    }
}

/// What moving document `i` to the other side saves on its first `k` terms,
/// when the left side is to hold `mid` documents.
pub open spec fn doc_gain(
    docs: Seq<Seq<u32>>,
    side: Seq<bool>,
    mid: int,
    i: int,
    k: int,
) -> int
    decreases k,
{
    let n = docs.len() as int;
    if k <= 0 {
        0
    } else {
        let t = docs[i][k - 1];
        doc_gain(docs, side, mid, i, k - 1) + gain_spec(
            degree(docs, side, side[i], t, n) as int,
            degree(docs, side, !side[i], t, n) as int,
            if side[i] {
                n - mid
            } else {
                mid
            },
            if side[i] {
                mid
            } else {
                n - mid
            },
        )
    }
}

/// What moving each document to the other side saves.
pub open spec fn gains_of(docs: Seq<Seq<u32>>, side: Seq<bool>, mid: int) -> Seq<int> {
    Seq::new(docs.len(), |i: int| doc_gain(docs, side, mid, i, docs[i].len() as int))
}

/// Document `a` is a better candidate than `b`: more gain, or the same and
/// an earlier position.
pub open spec fn ahead(gains: Seq<int>, a: int, b: int) -> bool {
    gains[a] > gains[b] || (gains[a] == gains[b] && a < b)
}

/// `list` holds the documents of side `s`, best candidate first.
pub open spec fn is_ranking(list: Seq<usize>, side: Seq<bool>, s: bool, gains: Seq<int>) -> bool {
    &&& forall|k: int| 0 <= k < list.len() ==> #[trigger] list[k] < side.len() && side[list[k] as int] == s
    &&& forall|i: usize| i < side.len() && side[i as int] == s ==> #[trigger] list.contains(i)
    &&& forall|j: int, k: int|
        0 <= j < k < list.len() ==> ahead(gains, #[trigger] list[j] as int, #[trigger] list[k] as int)
}

/// The first `m` documents of both rankings change sides.
pub open spec fn swapped(side: Seq<bool>, left: Seq<usize>, right: Seq<usize>, m: int) -> Seq<bool> {
    Seq::new(
        side.len(),
        |i: int|
            if left.take(m).contains(i as usize) {
                true
            } else if right.take(m).contains(i as usize) {
                false
            } else {
                side[i]
            },
    )
}

pub open spec fn pairs(left: Seq<usize>, right: Seq<usize>) -> int {
    if left.len() < right.len() {
        left.len() as int
    } else {
        right.len() as int
    }
}

/// The best `m` pairs all gain, and the next pair, if there is one, does not.
pub open spec fn best_pairs(gains: Seq<int>, left: Seq<usize>, right: Seq<usize>, m: int) -> bool {
    &&& 0 <= m <= pairs(left, right)
    &&& forall|k: int|
        0 <= k < m ==> gains[#[trigger] left[k] as int] + gains[right[k] as int] > 0
    &&& m < pairs(left, right) ==> gains[left[m] as int] + gains[right[m] as int] <= 0
}

/// The candidates of both sides, best first, and how many of them change
/// sides.
pub open spec fn swap_at(
    gains: Seq<int>,
    side: Seq<bool>,
    left: Seq<usize>,
    right: Seq<usize>,
    m: int,
) -> bool {
    &&& is_ranking(left, side, false, gains)
    &&& is_ranking(right, side, true, gains)
    &&& best_pairs(gains, left, right, m)
}

/// Swapping by `gains` takes `side` to `next`.
pub open spec fn swaps(gains: Seq<int>, side: Seq<bool>, next: Seq<bool>) -> bool {
    exists|left: Seq<usize>, right: Seq<usize>, m: int| #[trigger]
        swap_at(gains, side, left, right, m) && next == swapped(side, left, right, m)
}

pub open spec fn round_at(
    docs: Seq<Seq<u32>>,
    side: Seq<bool>,
    mid: int,
    left: Seq<usize>,
    right: Seq<usize>,
    m: int,
) -> bool {
    swap_at(gains_of(docs, side, mid), side, left, right, m)
}

/// One round of swaps takes `side` to `next`.
pub open spec fn round(docs: Seq<Seq<u32>>, side: Seq<bool>, mid: int, next: Seq<bool>) -> bool {
    exists|left: Seq<usize>, right: Seq<usize>, m: int| #[trigger]
        round_at(docs, side, mid, left, right, m) && next == swapped(side, left, right, m)
}

/// At most `iters` rounds, until one swaps nothing, take `side` to `out`.
pub open spec fn settles(
    docs: Seq<Seq<u32>>,
    side: Seq<bool>,
    mid: int,
    iters: nat,
    out: Seq<bool>,
) -> bool
    decreases iters,
{
    if iters == 0 {
        out == side
    } else {
        exists|next: Seq<bool>| #[trigger]
            round(docs, side, mid, next) && if next == side {
                out == side
            } else {
                settles(docs, next, mid, (iters - 1) as nat, out)
            }
    }
}

/// The documents on side `s` among the first `n`, in order.
pub open spec fn picked(order: Seq<u32>, side: Seq<bool>, s: bool, n: int) -> Seq<u32>
    decreases n,
{
    if n <= 0 {
        Seq::empty()
    } else if side[n - 1] == s {
        picked(order, side, s, n - 1).push(order[n - 1])
    } else {
        picked(order, side, s, n - 1)
    }
}

/// The left side, then the right side, each in the order it had.
pub open spec fn partitioned(order: Seq<u32>, side: Seq<bool>) -> Seq<u32> {
    let n = order.len() as int;
    picked(order, side, false, n) + picked(order, side, true, n)
}

/// The first half on the left, the rest on the right.
pub open spec fn halves(n: nat) -> Seq<bool> {
    Seq::new(n, |i: int| i >= n / 2)
}

/// `side` is where the swaps on `order` end.
pub open spec fn settled(doc_terms: Seq<Seq<u32>>, order: Seq<u32>, side: Seq<bool>) -> bool {
    let n = order.len();
    side.len() == n && settles(
        docs_of(doc_terms, order),
        halves(n),
        (n / 2) as int,
        BP_MAX_ITERS as nat,
        side,
    )
}

/// Recursive bisection of `order` gives `out`.
pub open spec fn bisected(
    doc_terms: Seq<Seq<u32>>,
    order: Seq<u32>,
    depth: nat,
    out: Seq<u32>,
) -> bool
    decreases BP_MAX_DEPTH - depth,
{
    let n = order.len();
    let mid = (n / 2) as int;
    if n <= BP_MIN_PARTITION || depth >= BP_MAX_DEPTH {
        out == order
    } else {
        &&& out.len() == n
        &&& exists|side: Seq<bool>| #[trigger]
            settled(doc_terms, order, side) && {
                let parts = partitioned(order, side);
                &&& bisected(doc_terms, parts.take(mid), depth + 1, out.take(mid))
                &&& bisected(doc_terms, parts.skip(mid), depth + 1, out.skip(mid))
            }
    }
}

/// Every document lists each of its terms once, and `order` names documents.
pub open spec fn valid(doc_terms: Seq<Seq<u32>>, order: Seq<u32>) -> bool {
    &&& order.len() <= u32::MAX
    &&& forall|i: int| 0 <= i < order.len() ==> #[trigger] order[i] < doc_terms.len()
    &&& forall|d: int|
        0 <= d < doc_terms.len() ==> (#[trigger] doc_terms[d]).no_duplicates() && doc_terms[d].len()
            <= u32::MAX
}

proof fn lemma_degree_bound(docs: Seq<Seq<u32>>, side: Seq<bool>, s: bool, t: u32, n: int)
    requires
        0 <= n <= docs.len(),
        docs.len() == side.len(),
    ensures
        degree(docs, side, s, t, n) <= side_len(side, s, n) <= n,
        side_len(side, s, n) + side_len(side, !s, n) == n,
    decreases n,
{
    if n > 0 {
        lemma_degree_bound(docs, side, s, t, n - 1);
    }
}

proof fn lemma_degree_has(docs: Seq<Seq<u32>>, side: Seq<bool>, t: u32, i: int, n: int)
    requires
        0 <= i < n <= docs.len(),
        docs.len() == side.len(),
        docs[i].contains(t),
    ensures
        degree(docs, side, side[i], t, n) > 0,
    decreases n,
{
    if n - 1 > i {
        lemma_degree_has(docs, side, t, i, n - 1);
    }
}

/// How many documents of side `s` hold each term; terms that none holds are
/// left out.
fn count_degrees(doc_terms: &Vec<Vec<u32>>, order: &Vec<u32>, side: &Vec<bool>, s: bool) -> (deg:
    HashMap<u32, u32>)
    requires
        valid(term_views(doc_terms@), order@),
        side@.len() == order@.len(),
    ensures
        forall|t: u32| #[trigger]
            deg@.contains_key(t) ==> deg@[t] == degree(
                docs_of(term_views(doc_terms@), order@),
                side@,
                s,
                t,
                order@.len() as int,
            ),
        forall|t: u32| !#[trigger]
            deg@.contains_key(t) ==> degree(
                docs_of(term_views(doc_terms@), order@),
                side@,
                s,
                t,
                order@.len() as int,
            ) == 0,
{
    broadcast use vstd::std_specs::hash::group_hash_axioms;

    let ghost docs = docs_of(term_views(doc_terms@), order@);
    let mut deg: HashMap<u32, u32> = HashMap::new();
    let mut i: usize = 0;
    while i < order.len()
        invariant
            valid(term_views(doc_terms@), order@),
            side@.len() == order@.len(),
            docs == docs_of(term_views(doc_terms@), order@),
            i <= order@.len(),
            forall|t: u32| #[trigger]
                deg@.contains_key(t) ==> deg@[t] == degree(docs, side@, s, t, i as int),
            forall|t: u32| !#[trigger]
                deg@.contains_key(t) ==> degree(docs, side@, s, t, i as int) == 0,
        decreases order@.len() - i,
    {
        if side[i] == s {
            let terms = &doc_terms[order[i] as usize];
            assert(term_views(doc_terms@)[order@[i as int] as int] == terms@);
            let mut k: usize = 0;
            while k < terms.len()
                invariant
                    valid(term_views(doc_terms@), order@),
                    docs == docs_of(term_views(doc_terms@), order@),
                    side@.len() == order@.len(),
                    i < order@.len(),
                    side@[i as int] == s,
                    terms@ == docs[i as int],
                    terms@.no_duplicates(),
                    k <= terms@.len(),
                    forall|t: u32| #[trigger]
                        deg@.contains_key(t) ==> deg@[t] == degree(docs, side@, s, t, i as int) + (
                        if terms@.take(k as int).contains(t) {
                            1int
                        } else {
                            0
                        }),
                    forall|t: u32| !#[trigger]
                        deg@.contains_key(t) ==> degree(docs, side@, s, t, i as int) == 0
                        && !terms@.take(k as int).contains(t),
                decreases terms@.len() - k,
            {
                broadcast use vstd::std_specs::hash::group_hash_axioms;

                let t: u32 = terms[k];
                let ghost before = deg@;
                proof {
                    lemma_degree_bound(docs, side@, s, t, i as int);
                    assert(!terms@.take(k as int).contains(t)) by {
                        if terms@.take(k as int).contains(t) {
                            let j = choose|j: int|
                                0 <= j < k && terms@.take(k as int)[j] == t;
                            assert(terms@[j] == terms@[k as int]);
                        }
                    }
                }
                let d: u32 = match deg.get(&t) {
                    Some(d) => *d,
                    None => 0,
                };
                deg.insert(t, d + 1);
                proof {
                    let next = terms@.take(k + 1);
                    assert(next == terms@.take(k as int).push(t));
                    assert forall|u: u32| next.contains(u) == (terms@.take(k as int).contains(u)
                        || u == t) by {
                        lemma_push_contains(terms@.take(k as int), t, u);
                    }
                    assert forall|u: u32| #[trigger] deg@.contains_key(u) implies deg@[u]
                        == degree(docs, side@, s, u, i as int) + (if next.contains(u) {
                        1int
                    } else {
                        0
                    }) by {
                        if u != t {
                            assert(before.contains_key(u));
                        }
                    }
                    assert forall|u: u32| !#[trigger] deg@.contains_key(u) implies degree(
                        docs,
                        side@,
                        s,
                        u,
                        i as int,
                    ) == 0 && !next.contains(u) by {
                        assert(u != t);
                        assert(!before.contains_key(u));
                    }
                }
                k += 1;
            }
            assert(terms@.take(k as int) =~= terms@);
        }
        i += 1;
    }
    deg
}

proof fn lemma_push_contains(s: Seq<u32>, v: u32, x: u32)
    ensures
        s.push(v).contains(x) <==> s.contains(x) || x == v,
{
    if s.contains(x) {
        let j = choose|j: int| 0 <= j < s.len() && s[j] == x;
        assert(s.push(v)[j] == x);
    }
    if x == v {
        assert(s.push(v)[s.len() as int] == x);
    }
}

fn degree_in(deg: &HashMap<u32, u32>, t: u32) -> (d: u32)
    ensures
        deg@.contains_key(t) ==> d == deg@[t],
        !deg@.contains_key(t) ==> d == 0,
{
    broadcast use vstd::std_specs::hash::group_hash_axioms;

    match deg.get(&t) {
        Some(d) => *d,
        None => 0,
    }
}

/// What moving each document to the other side saves.
fn gains(doc_terms: &Vec<Vec<u32>>, order: &Vec<u32>, side: &Vec<bool>, mid: usize) -> (g: Vec<
    i128,
>)
    requires
        valid(term_views(doc_terms@), order@),
        side@.len() == order@.len(),
        0 < mid < order@.len(),
        side_len(side@, false, order@.len() as int) == mid,
    ensures
        g@.len() == order@.len(),
        forall|i: int|
            0 <= i < g@.len() ==> #[trigger] g@[i] == gains_of(
                docs_of(term_views(doc_terms@), order@),
                side@,
                mid as int,
            )[i],
        forall|i: int|
            0 <= i < g@.len() ==> -0x1_0000_0000_0000_0000_0000_0000 <= #[trigger] g@[i]
                <= 0x1_0000_0000_0000_0000_0000_0000,
{
    let n: usize = order.len();
    let ghost docs = docs_of(term_views(doc_terms@), order@);
    let deg_left = count_degrees(doc_terms, order, side, false);
    let deg_right = count_degrees(doc_terms, order, side, true);
    let mut out: Vec<i128> = Vec::new();
    let mut i: usize = 0;
    while i < n
        invariant
            valid(term_views(doc_terms@), order@),
            side@.len() == order@.len(),
            n == order@.len(),
            0 < mid < n,
            docs == docs_of(term_views(doc_terms@), order@),
            side_len(side@, false, n as int) == mid,
            forall|t: u32| #[trigger]
                deg_left@.contains_key(t) ==> deg_left@[t] == degree(
                    docs,
                    side@,
                    false,
                    t,
                    n as int,
                ),
            forall|t: u32| !#[trigger]
                deg_left@.contains_key(t) ==> degree(docs, side@, false, t, n as int) == 0,
            forall|t: u32| #[trigger]
                deg_right@.contains_key(t) ==> deg_right@[t] == degree(
                    docs,
                    side@,
                    true,
                    t,
                    n as int,
                ),
            forall|t: u32| !#[trigger]
                deg_right@.contains_key(t) ==> degree(docs, side@, true, t, n as int) == 0,
            i <= n,
            out@.len() == i,
            forall|j: int| 0 <= j < i ==> #[trigger] out@[j] == gains_of(docs, side@, mid as int)[j],
            forall|j: int|
                0 <= j < i ==> -0x1_0000_0000_0000_0000_0000_0000 <= #[trigger] out@[j]
                    <= 0x1_0000_0000_0000_0000_0000_0000,
        decreases n - i,
    {
        let terms = &doc_terms[order[i] as usize];
        assert(term_views(doc_terms@)[order@[i as int] as int] == terms@);
        let here: bool = side[i];
        let mut g: i128 = 0;
        let mut k: usize = 0;
        while k < terms.len()
            invariant
                side@.len() == order@.len(),
                n == order@.len(),
                n <= u32::MAX,
                0 < mid < n,
                i < n,
                here == side@[i as int],
                docs == docs_of(term_views(doc_terms@), order@),
                side_len(side@, false, n as int) == mid,
                terms@ == docs[i as int],
                terms@.len() <= u32::MAX,
                forall|t: u32| #[trigger]
                    deg_left@.contains_key(t) ==> deg_left@[t] == degree(
                        docs,
                        side@,
                        false,
                        t,
                        n as int,
                    ),
                forall|t: u32| !#[trigger]
                    deg_left@.contains_key(t) ==> degree(docs, side@, false, t, n as int) == 0,
                forall|t: u32| #[trigger]
                    deg_right@.contains_key(t) ==> deg_right@[t] == degree(
                        docs,
                        side@,
                        true,
                        t,
                        n as int,
                    ),
                forall|t: u32| !#[trigger]
                    deg_right@.contains_key(t) ==> degree(docs, side@, true, t, n as int) == 0,
                k <= terms@.len(),
                g == doc_gain(docs, side@, mid as int, i as int, k as int),
                -0x1_0000_0000_0000_0000 * k <= g <= 0x1_0000_0000_0000_0000 * k,
            decreases terms@.len() - k,
        {
            let t: u32 = terms[k];
            let dl: u32 = degree_in(&deg_left, t);
            let dr: u32 = degree_in(&deg_right, t);
            proof {
                assert(docs[i as int].contains(t)) by {
                    assert(docs[i as int][k as int] == t);
                }
                lemma_degree_has(docs, side@, t, i as int, n as int);
                lemma_degree_bound(docs, side@, false, t, n as int);
                lemma_degree_bound(docs, side@, true, t, n as int);
                assert(degree(docs, side@, here, t, n as int) > 0);
                assert(here ==> dr > 0);
                assert(!here ==> dl > 0);
            }
            let add: i128 = if here {
                move_gain(dr, dl, n - mid, mid)
            } else {
                move_gain(dl, dr, mid, n - mid)
            };
            g = g + add;
            k += 1;
        }
        assert(docs[i as int].len() == k);
        assert(gains_of(docs, side@, mid as int)[i as int] == g);
        out.push(g);
        i += 1;
    }
    out
}

/// The numbers that machine integers stand for.
pub open spec fn ints(g: Seq<i128>) -> Seq<int> {
    Seq::new(g.len(), |i: int| g[i] as int)
}

/// The documents of side `s`, best candidate first.
fn rank(side: &Vec<bool>, s: bool, gains: &Vec<i128>) -> (list: Vec<usize>)
    requires
        gains@.len() == side@.len(),
    ensures
        is_ranking(list@, side@, s, ints(gains@)),
        list@.len() == side_len(side@, s, side@.len() as int),
{
    let n: usize = side.len();
    let mut members: Vec<usize> = Vec::new();
    let mut i: usize = 0;
    while i < n
        invariant
            i <= n == side@.len(),
            members@.len() == side_len(side@, s, i as int),
            members@.len() <= i,
            forall|k: int|
                0 <= k < members@.len() ==> #[trigger] members@[k] < i && side@[members@[k] as int]
                    == s,
            forall|j: int, k: int|
                0 <= j < k < members@.len() ==> #[trigger] members@[j] < #[trigger] members@[k],
            forall|v: usize| v < i && side@[v as int] == s ==> #[trigger] members@.contains(v),
        decreases n - i,
    {
        if side[i] == s {
            let ghost before = members@;
            members.push(i);
            assert forall|v: usize| v < i + 1 && side@[v as int] == s implies #[trigger] members@.contains(
                v,
            ) by {
                if v < i {
                    assert(before.contains(v));
                    let k = choose|k: int| 0 <= k < before.len() && before[k] == v;
                    assert(members@[k] == v);
                } else {
                    assert(members@[members@.len() - 1] == v);
                }
            }
        }
        i += 1;
    }
    let m: usize = members.len();
    let ghost less = |a: int, b: int|
        ahead(ints(gains@), members@[a] as int, members@[b] as int);
    let before = |a: usize, b: usize| -> (r: bool)
        requires
            a < m && b < m,
            m == members@.len(),
            forall|k: int| 0 <= k < members@.len() ==> #[trigger] members@[k] < gains@.len(),
        ensures
            r == ahead(ints(gains@), members@[a as int] as int, members@[b as int] as int),
        {
            let x: usize = members[a];
            let y: usize = members[b];
            gains[x] > gains[y] || (gains[x] == gains[y] && x < y)
        };
    proof {
        assert(order::strict_total(less, m as int)) by {
            assert forall|a: int, b: int| 0 <= a < m && 0 <= b < m && a != b implies (#[trigger] less(
                a,
                b,
            ) <==> !less(b, a)) by {
                if a < b {
                    assert(members@[a] < members@[b]);
                } else {
                    assert(members@[b] < members@[a]);
                }
            }
        }
    }
    let by_gain = order::sort_indices(m, &before, Ghost(less));
    let mut list: Vec<usize> = Vec::new();
    let mut k: usize = 0;
    while k < m
        invariant
            k <= m,
            m == members@.len(),
            by_gain@.len() == m,
            forall|j: int| 0 <= j < m ==> #[trigger] by_gain@[j] < m,
            list@.len() == k,
            forall|j: int| 0 <= j < k ==> #[trigger] list@[j] == members@[by_gain@[j] as int],
        decreases m - k,
    {
        list.push(members[by_gain[k]]);
        k += 1;
    }
    proof {
        assert forall|v: usize| v < side@.len() && side@[v as int] == s implies #[trigger] list@.contains(
            v,
        ) by {
            assert(members@.contains(v));
            let a = choose|a: int| 0 <= a < members@.len() && members@[a] == v;
            assert(by_gain@.contains(a as usize));
            let j = choose|j: int| 0 <= j < by_gain@.len() && by_gain@[j] == a as usize;
            assert(list@[j] == v);
        }
        assert forall|a: int, b: int| 0 <= a < b < list@.len() implies ahead(
            ints(gains@),
            #[trigger] list@[a] as int,
            #[trigger] list@[b] as int,
        ) by {
            assert(less(by_gain@[a] as int, by_gain@[b] as int));
        }
    }
    list
}

proof fn lemma_side_len_update(side: Seq<bool>, s: bool, i: int, v: bool, n: int)
    requires
        0 <= i < side.len(),
        0 <= n <= side.len(),
    ensures
        i >= n ==> side_len(side.update(i, v), s, n) == side_len(side, s, n),
        i < n ==> side_len(side.update(i, v), s, n) + (if side[i] == s {
            1int
        } else {
            0
        }) == side_len(side, s, n) + (if v == s {
            1int
        } else {
            0
        }),
    decreases n,
{
    if n > 0 {
        lemma_side_len_update(side, s, i, v, n - 1);
    }
}

proof fn lemma_side_len_halves(n: nat, m: int)
    requires
        0 <= m <= n,
    ensures
        side_len(halves(n), false, m) == if m <= n / 2 {
            m
        } else {
            (n / 2) as int
        },
    decreases m,
{
    if m > 0 {
        lemma_side_len_halves(n, m - 1);
    }
}

/// Swap the best candidates of both sides while a pair gains; whether any
/// pair did.
pub fn swap_by_gains(side: &mut Vec<bool>, g: &Vec<i128>) -> (any: bool)
    requires
        old(side)@.len() == g@.len(),
        g@.len() <= u32::MAX,
        forall|i: int|
            0 <= i < g@.len() ==> -0x1_0000_0000_0000_0000_0000_0000 <= #[trigger] g@[i]
                <= 0x1_0000_0000_0000_0000_0000_0000,
    ensures
        final(side)@.len() == old(side)@.len(),
        side_len(final(side)@, false, g@.len() as int) == side_len(
            old(side)@,
            false,
            g@.len() as int,
        ),
        swaps(ints(g@), old(side)@, final(side)@),
        any <==> final(side)@ != old(side)@,
{
    let ghost start = side@;
    let ghost values = ints(g@);
    let ghost n = g@.len() as int;
    let ghost mid = side_len(start, false, n);
    let left = rank(side, false, g);
    let right = rank(side, true, g);
    let mut m: usize = 0;
    let most: usize = if left.len() < right.len() { left.len() } else { right.len() };
    let mut go: bool = true;
    assert(swapped(start, left@, right@, 0) =~= start);
    while m < most && go
        invariant
            start.len() == n,
            side@.len() == n,
            n <= u32::MAX,
            g@.len() == n,
            values == ints(g@),
            forall|i: int|
                0 <= i < g@.len() ==> -0x1_0000_0000_0000_0000_0000_0000 <= #[trigger] g@[i]
                    <= 0x1_0000_0000_0000_0000_0000_0000,
            is_ranking(left@, start, false, values),
            is_ranking(right@, start, true, values),
            most == pairs(left@, right@),
            m <= most,
            forall|k: int|
                0 <= k < m ==> values[#[trigger] left@[k] as int] + values[right@[k] as int] > 0,
            !go ==> m < most && values[left@[m as int] as int] + values[right@[m as int] as int] <= 0,
            side@ == swapped(start, left@, right@, m as int),
            side_len(side@, false, n) == mid,
        decreases most - m, go as int,
    {
        let l: usize = left[m];
        let r: usize = right[m];
        assert(left@[m as int] == l && right@[m as int] == r);
        if g[l] + g[r] <= 0 {
            go = false;
        } else {
            let ghost before = side@;
            proof {
                lemma_not_taken(left@, m as int, values);
                lemma_not_taken(right@, m as int, values);
                assert(start[l as int] == false && start[r as int] == true);
                lemma_side_apart(left@, right@, start, values, m as int);
                assert(before[l as int] == start[l as int]);
                assert(before[r as int] == start[r as int]);
                lemma_side_len_update(before, false, l as int, true, n);
                lemma_side_len_update(before.update(l as int, true), false, r as int, false, n);
            }
            side.set(l, true);
            side.set(r, false);
            proof {
                assert(left@.take(m + 1) =~= left@.take(m as int).push(l));
                assert(right@.take(m + 1) =~= right@.take(m as int).push(r));
                assert forall|i: int| 0 <= i < n implies side@[i] == #[trigger] swapped(
                    start,
                    left@,
                    right@,
                    m + 1,
                )[i] by {
                    lemma_push_contains_at(left@.take(m as int), l, i as usize);
                    lemma_push_contains_at(right@.take(m as int), r, i as usize);
                }
                assert(side@ =~= swapped(start, left@, right@, m + 1));
            }
            m += 1;
        }
    }
    proof {
        assert(swap_at(values, start, left@, right@, m as int));
        if m > 0 {
            let l = left@[0];
            assert(left@.take(m as int)[0] == l);
            assert(left@.take(m as int).contains(l));
            assert(side@[l as int] == true);
            assert(start[l as int] == false);
        }
    }
    m > 0
}

/// One round of swaps; whether it swapped anything.
fn swap_round(
    doc_terms: &Vec<Vec<u32>>,
    order: &Vec<u32>,
    side: &mut Vec<bool>,
    mid: usize,
) -> (any: bool)
    requires
        valid(term_views(doc_terms@), order@),
        old(side)@.len() == order@.len(),
        0 < mid < order@.len(),
        side_len(old(side)@, false, order@.len() as int) == mid,
    ensures
        final(side)@.len() == order@.len(),
        side_len(final(side)@, false, order@.len() as int) == mid,
        round(docs_of(term_views(doc_terms@), order@), old(side)@, mid as int, final(side)@),
        any <==> final(side)@ != old(side)@,
{
    let ghost docs = docs_of(term_views(doc_terms@), order@);
    let ghost start = side@;
    let g = gains(doc_terms, order, side, mid);
    assert(ints(g@) =~= gains_of(docs, start, mid as int));
    let any: bool = swap_by_gains(side, &g);
    proof {
        let (left, right, m) = choose|left: Seq<usize>, right: Seq<usize>, m: int| #[trigger]
            swap_at(ints(g@), start, left, right, m) && side@ == swapped(start, left, right, m);
        assert(round_at(docs, start, mid as int, left, right, m));
    }
    any
}

proof fn lemma_push_contains_at(s: Seq<usize>, v: usize, x: usize)
    ensures
        s.push(v).contains(x) <==> s.contains(x) || x == v,
{
    if s.contains(x) {
        let j = choose|j: int| 0 <= j < s.len() && s[j] == x;
        assert(s.push(v)[j] == x);
    }
    if x == v {
        assert(s.push(v)[s.len() as int] == x);
    }
}

/// A ranking holds no document twice.
proof fn lemma_not_taken(list: Seq<usize>, m: int, gains: Seq<int>)
    requires
        0 <= m < list.len(),
        forall|j: int, k: int|
            0 <= j < k < list.len() ==> ahead(
                gains,
                #[trigger] list[j] as int,
                #[trigger] list[k] as int,
            ),
    ensures
        !list.take(m).contains(list[m]),
{
    if list.take(m).contains(list[m]) {
        let j = choose|j: int| 0 <= j < m && list.take(m)[j] == list[m];
        assert(ahead(gains, list[j] as int, list[m] as int));
    }
}

/// The two rankings share no document.
proof fn lemma_side_apart(
    left: Seq<usize>,
    right: Seq<usize>,
    side: Seq<bool>,
    gains: Seq<int>,
    m: int,
)
    requires
        is_ranking(left, side, false, gains),
        is_ranking(right, side, true, gains),
        0 <= m < left.len(),
        m < right.len(),
    ensures
        !right.take(m).contains(left[m]),
        !left.take(m).contains(right[m]),
{
    if right.take(m).contains(left[m]) {
        let j = choose|j: int| 0 <= j < m && right.take(m)[j] == left[m];
        assert(side[right[j] as int] == true);
        assert(side[left[m] as int] == false);
    }
    if left.take(m).contains(right[m]) {
        let j = choose|j: int| 0 <= j < m && left.take(m)[j] == right[m];
        assert(side[left[j] as int] == false);
        assert(side[right[m] as int] == true);
    }
}

/// Swap rounds from the split into halves until nothing changes.
fn settle(doc_terms: &Vec<Vec<u32>>, order: &Vec<u32>) -> (side: Vec<bool>)
    requires
        valid(term_views(doc_terms@), order@),
        order@.len() > 1,
    ensures
        settled(term_views(doc_terms@), order@, side@),
        side_len(side@, false, order@.len() as int) == order@.len() / 2,
{
    let n: usize = order.len();
    let mid: usize = n / 2;
    let ghost docs = docs_of(term_views(doc_terms@), order@);
    let mut side: Vec<bool> = Vec::new();
    let mut i: usize = 0;
    while i < n
        invariant
            i <= n,
            mid == n / 2,
            side@.len() == i,
            forall|j: int| 0 <= j < i ==> #[trigger] side@[j] == (j >= mid),
        decreases n - i,
    {
        side.push(i >= mid);
        i += 1;
    }
    assert(side@ =~= halves(n as nat));
    proof {
        lemma_side_len_halves(n as nat, n as int);
    }
    settle_from(doc_terms, order, side, mid, BP_MAX_ITERS)
}

fn settle_from(
    doc_terms: &Vec<Vec<u32>>,
    order: &Vec<u32>,
    side: Vec<bool>,
    mid: usize,
    iters: usize,
) -> (out: Vec<bool>)
    requires
        valid(term_views(doc_terms@), order@),
        side@.len() == order@.len(),
        0 < mid < order@.len(),
        side_len(side@, false, order@.len() as int) == mid,
    ensures
        out@.len() == order@.len(),
        settles(docs_of(term_views(doc_terms@), order@), side@, mid as int, iters as nat, out@),
        side_len(out@, false, order@.len() as int) == mid,
    decreases iters,
{
    if iters == 0 {
        return side;
    }
    let mut next = side;
    if swap_round(doc_terms, order, &mut next, mid) {
        settle_from(doc_terms, order, next, mid, iters - 1)
    } else {
        next
    }
}

fn partition(order: &Vec<u32>, side: &Vec<bool>, s: bool) -> (out: Vec<u32>)
    requires
        side@.len() == order@.len(),
    ensures
        out@ == picked(order@, side@, s, order@.len() as int),
{
    let mut out: Vec<u32> = Vec::new();
    let mut i: usize = 0;
    while i < order.len()
        invariant
            side@.len() == order@.len(),
            i <= order@.len(),
            out@ == picked(order@, side@, s, i as int),
        decreases order@.len() - i,
    {
        if side[i] == s {
            out.push(order[i]);
        }
        i += 1;
    }
    out
}

proof fn lemma_picked(order: Seq<u32>, side: Seq<bool>, n: int)
    requires
        0 <= n <= order.len(),
        side.len() == order.len(),
    ensures
        picked(order, side, false, n).len() == side_len(side, false, n),
        picked(order, side, true, n).len() == n - side_len(side, false, n),
        (picked(order, side, false, n) + picked(order, side, true, n)).to_multiset()
            == order.take(n).to_multiset(),
        forall|s: bool, x: u32|
            #![trigger picked(order, side, s, n).contains(x)]
            picked(order, side, s, n).contains(x) ==> order.contains(x),
    decreases n,
{
    broadcast use vstd::seq_lib::group_to_multiset_ensures;

    let f = picked(order, side, false, n);
    let t = picked(order, side, true, n);
    if n > 0 {
        lemma_picked(order, side, n - 1);
        let f0 = picked(order, side, false, n - 1);
        let t0 = picked(order, side, true, n - 1);
        let x = order[n - 1];
        assert(order.take(n) =~= order.take(n - 1).push(x));
        vstd::seq_lib::lemma_multiset_commutative(f0, t0);
        vstd::seq_lib::lemma_multiset_commutative(f, t);
        if side[n - 1] {
            assert(f =~= f0);
            assert(t =~= t0.push(x));
        } else {
            assert(f =~= f0.push(x));
            assert(t =~= t0);
        }
        assert((f + t).to_multiset() =~= order.take(n).to_multiset());
        assert forall|s: bool, y: u32| #[trigger] picked(order, side, s, n).contains(y) implies order.contains(
            y,
        ) by {
            let p = picked(order, side, s, n);
            let k = choose|k: int| 0 <= k < p.len() && p[k] == y;
            let p0 = picked(order, side, s, n - 1);
            if k < p0.len() {
                assert(p0[k] == y);
                assert(p0.contains(y));
            } else {
                assert(order[n - 1] == y);
            }
        }
    } else {
        assert(f + t =~= Seq::<u32>::empty());
        assert(order.take(0) =~= Seq::<u32>::empty());
    }
}

/// Bisect `order` recursively.
pub fn bisect(order: Vec<u32>, doc_terms: &Vec<Vec<u32>>, depth: usize) -> (out: Vec<u32>)
    requires
        valid(term_views(doc_terms@), order@),
    ensures
        bisected(term_views(doc_terms@), order@, depth as nat, out@),
        out@.to_multiset() == order@.to_multiset(),
        out@.len() == order@.len(),
        order@.len() <= BP_MIN_PARTITION || depth >= BP_MAX_DEPTH ==> out@ == order@,
    decreases BP_MAX_DEPTH - depth,
{
    let n: usize = order.len();
    if n <= BP_MIN_PARTITION || depth >= BP_MAX_DEPTH {
        return order;
    }
    let mid: usize = n / 2;
    let side = settle(doc_terms, &order);
    let left = partition(&order, &side, false);
    let right = partition(&order, &side, true);
    proof {
        lemma_picked(order@, side@, n as int);
        let parts = partitioned(order@, side@);
        assert(parts.take(mid as int) =~= left@);
        assert(parts.skip(mid as int) =~= right@);
        assert forall|i: int| 0 <= i < left@.len() implies #[trigger] left@[i] < term_views(doc_terms@).len() by {
            assert(picked(order@, side@, false, n as int).contains(left@[i]));
            let k = choose|k: int| 0 <= k < order@.len() && order@[k] == left@[i];
        }
        assert forall|i: int| 0 <= i < right@.len() implies #[trigger] right@[i] < term_views(doc_terms@).len() by {
            assert(picked(order@, side@, true, n as int).contains(right@[i]));
            let k = choose|k: int| 0 <= k < order@.len() && order@[k] == right@[i];
        }
    }
    let first = bisect(left, doc_terms, depth + 1);
    let second = bisect(right, doc_terms, depth + 1);
    let mut out: Vec<u32> = Vec::new();
    let mut i: usize = 0;
    while i < first.len()
        invariant
            i <= first@.len(),
            out@ == first@.take(i as int),
        decreases first@.len() - i,
    {
        out.push(first[i]);
        assert(out@ =~= first@.take(i + 1));
        i += 1;
    }
    let mut j: usize = 0;
    assert(out@ =~= first@ + second@.take(0));
    while j < second.len()
        invariant
            j <= second@.len(),
            out@ == first@ + second@.take(j as int),
        decreases second@.len() - j,
    {
        out.push(second[j]);
        assert(out@ =~= first@ + second@.take(j + 1));
        j += 1;
    }
    proof {
        assert(out@ =~= first@ + second@);
        assert(out@.take(mid as int) =~= first@);
        assert(out@.skip(mid as int) =~= second@);
        assert(settled(term_views(doc_terms@), order@, side@));
        assert(bisected(term_views(doc_terms@), order@, depth as nat, out@));
        law_bisection_permutes(term_views(doc_terms@), order@, depth as nat, out@);
    }
    out
}

/// The documents in input order.
pub open spec fn identity(n: nat) -> Seq<u32> {
    Seq::new(n, |i: int| i as u32)
}

/// A bisection ordering of the documents: `order[new_position]` is an old
/// position. `doc_terms[d]` lists the distinct term ids of document `d`.
pub fn bp_order(doc_terms: &Vec<Vec<u32>>) -> (order: Vec<u32>)
    requires
        doc_terms@.len() <= u32::MAX,
        forall|d: int|
            0 <= d < doc_terms@.len() ==> (#[trigger] doc_terms@[d])@.no_duplicates()
                && doc_terms@[d]@.len() <= u32::MAX,
    ensures
        bisected(term_views(doc_terms@), identity(doc_terms@.len()), 0, order@),
        order@.len() == doc_terms@.len(),
{
    let n: usize = doc_terms.len();
    let mut start: Vec<u32> = Vec::new();
    let mut i: usize = 0;
    while i < n
        invariant
            i <= n <= u32::MAX,
            start@.len() == i,
            forall|j: int| 0 <= j < i ==> #[trigger] start@[j] == j,
        decreases n - i,
    {
        start.push(i as u32);
        i += 1;
    }
    assert(start@ =~= identity(n as nat));
    bisect(start, doc_terms, 0)
}

/// Bisection permutes: it neither drops, adds nor repeats a document. Small
/// and deep partitions stay as they are.
pub proof fn law_bisection_permutes(
    doc_terms: Seq<Seq<u32>>,
    order: Seq<u32>,
    depth: nat,
    out: Seq<u32>,
)
    requires
        bisected(doc_terms, order, depth, out),
    ensures
        out.to_multiset() == order.to_multiset(),
        out.len() == order.len(),
        order.len() <= BP_MIN_PARTITION || depth >= BP_MAX_DEPTH ==> out == order,
    decreases BP_MAX_DEPTH - depth,
{
    let n = order.len();
    let mid = (n / 2) as int;
    if n <= BP_MIN_PARTITION || depth >= BP_MAX_DEPTH {
    } else {
        let side = choose|side: Seq<bool>| #[trigger]
            settled(doc_terms, order, side) && {
                let parts = partitioned(order, side);
                &&& bisected(doc_terms, parts.take(mid), depth + 1, out.take(mid))
                &&& bisected(doc_terms, parts.skip(mid), depth + 1, out.skip(mid))
            };
        let parts = partitioned(order, side);
        law_bisection_permutes(doc_terms, parts.take(mid), depth + 1, out.take(mid));
        law_bisection_permutes(doc_terms, parts.skip(mid), depth + 1, out.skip(mid));
        lemma_picked(order, side, n as int);
        vstd::seq_lib::lemma_multiset_commutative(parts.take(mid), parts.skip(mid));
        vstd::seq_lib::lemma_multiset_commutative(out.take(mid), out.skip(mid));
        assert(parts.take(mid) + parts.skip(mid) =~= parts);
        assert(out.take(mid) + out.skip(mid) =~= out);
        assert(order.take(n as int) =~= order);
    }
}

proof fn lemma_ranking_agrees(
    a: Seq<usize>,
    b: Seq<usize>,
    side: Seq<bool>,
    s: bool,
    gains: Seq<int>,
    k: int,
)
    requires
        is_ranking(a, side, s, gains),
        is_ranking(b, side, s, gains),
        0 <= k,
    ensures
        forall|j: int| 0 <= j < k && j < a.len() && j < b.len() ==> #[trigger] a[j] == b[j],
    decreases k,
{
    if k > 0 {
        lemma_ranking_agrees(a, b, side, s, gains, k - 1);
        let j = k - 1;
        if j < a.len() && j < b.len() {
            assert(b.contains(a[j]));
            assert(a.contains(b[j]));
            let p = choose|p: int| 0 <= p < b.len() && b[p] == a[j];
            let q = choose|q: int| 0 <= q < a.len() && a[q] == b[j];
            if p < j {
                assert(a[p] == b[p]);
                assert(ahead(gains, a[p] as int, a[j] as int));
            } else if q < j {
                assert(a[q] == b[q]);
                assert(ahead(gains, b[q] as int, b[j] as int));
            } else if p > j && q > j {
                assert(ahead(gains, b[j] as int, b[p] as int));
                assert(ahead(gains, a[j] as int, a[q] as int));
            }
        }
    }
}

proof fn lemma_ranking_unique(
    a: Seq<usize>,
    b: Seq<usize>,
    side: Seq<bool>,
    s: bool,
    gains: Seq<int>,
)
    requires
        is_ranking(a, side, s, gains),
        is_ranking(b, side, s, gains),
    ensures
        a == b,
{
    lemma_ranking_agrees(a, b, side, s, gains, (a.len() + b.len()) as int);
    if a.len() < b.len() {
        let x = b[a.len() as int];
        assert(a.contains(x));
        let j = choose|j: int| 0 <= j < a.len() && a[j] == x;
        assert(a[j] == b[j]);
        assert(ahead(gains, b[j] as int, b[a.len() as int] as int));
    }
    if b.len() < a.len() {
        let x = a[b.len() as int];
        assert(b.contains(x));
        let j = choose|j: int| 0 <= j < b.len() && b[j] == x;
        assert(a[j] == b[j]);
        assert(ahead(gains, a[j] as int, a[b.len() as int] as int));
    }
    assert(a =~= b);
}

proof fn lemma_round_unique(
    docs: Seq<Seq<u32>>,
    side: Seq<bool>,
    mid: int,
    x: Seq<bool>,
    y: Seq<bool>,
)
    requires
        round(docs, side, mid, x),
        round(docs, side, mid, y),
    ensures
        x == y,
{
    let gains = gains_of(docs, side, mid);
    let (l1, r1, m1) = choose|left: Seq<usize>, right: Seq<usize>, m: int| #[trigger]
        round_at(docs, side, mid, left, right, m) && x == swapped(side, left, right, m);
    let (l2, r2, m2) = choose|left: Seq<usize>, right: Seq<usize>, m: int| #[trigger]
        round_at(docs, side, mid, left, right, m) && y == swapped(side, left, right, m);
    lemma_ranking_unique(l1, l2, side, false, gains);
    lemma_ranking_unique(r1, r2, side, true, gains);
    if m1 < m2 {
        assert(gains[l1[m1] as int] + gains[r1[m1] as int] > 0);
    }
    if m2 < m1 {
        assert(gains[l1[m2] as int] + gains[r1[m2] as int] > 0);
    }
}

proof fn lemma_settles_unique(
    docs: Seq<Seq<u32>>,
    side: Seq<bool>,
    mid: int,
    iters: nat,
    x: Seq<bool>,
    y: Seq<bool>,
)
    requires
        settles(docs, side, mid, iters, x),
        settles(docs, side, mid, iters, y),
    ensures
        x == y,
    decreases iters,
{
    if iters > 0 {
        let k = (iters - 1) as nat;
        let a = choose|next: Seq<bool>| #[trigger]
            round(docs, side, mid, next) && if next == side {
                x == side
            } else {
                settles(docs, next, mid, k, x)
            };
        let b = choose|next: Seq<bool>| #[trigger]
            round(docs, side, mid, next) && if next == side {
                y == side
            } else {
                settles(docs, next, mid, k, y)
            };
        lemma_round_unique(docs, side, mid, a, b);
        if a != side {
            lemma_settles_unique(docs, a, mid, k, x, y);
        }
    }
}

/// Ties are broken by position, so the same documents always get the same
/// order.
pub proof fn law_bisection_is_deterministic(
    doc_terms: Seq<Seq<u32>>,
    order: Seq<u32>,
    depth: nat,
    x: Seq<u32>,
    y: Seq<u32>,
)
    requires
        bisected(doc_terms, order, depth, x),
        bisected(doc_terms, order, depth, y),
    ensures
        x == y,
    decreases BP_MAX_DEPTH - depth,
{
    let n = order.len();
    let mid = (n / 2) as int;
    if n <= BP_MIN_PARTITION || depth >= BP_MAX_DEPTH {
    } else {
        let a = choose|side: Seq<bool>| #[trigger]
            settled(doc_terms, order, side) && {
                let parts = partitioned(order, side);
                &&& bisected(doc_terms, parts.take(mid), depth + 1, x.take(mid))
                &&& bisected(doc_terms, parts.skip(mid), depth + 1, x.skip(mid))
            };
        let b = choose|side: Seq<bool>| #[trigger]
            settled(doc_terms, order, side) && {
                let parts = partitioned(order, side);
                &&& bisected(doc_terms, parts.take(mid), depth + 1, y.take(mid))
                &&& bisected(doc_terms, parts.skip(mid), depth + 1, y.skip(mid))
            };
        lemma_settles_unique(
            docs_of(doc_terms, order),
            halves(n),
            mid,
            BP_MAX_ITERS as nat,
            a,
            b,
        );
        let parts = partitioned(order, a);
        law_bisection_is_deterministic(
            doc_terms,
            parts.take(mid),
            depth + 1,
            x.take(mid),
            y.take(mid),
        );
        law_bisection_is_deterministic(
            doc_terms,
            parts.skip(mid),
            depth + 1,
            x.skip(mid),
            y.skip(mid),
        );
        assert(x =~= x.take(mid) + x.skip(mid));
        assert(y =~= y.take(mid) + y.skip(mid));
    }
}

// ---------------------------------------------------------------------------
// Gains from elsewhere
// ---------------------------------------------------------------------------

/// Partitions smaller than this are bisected with gains computed here.
pub const GPU_MIN_PARTITION: usize = 8192;

/// No document of the partition has a term.
pub open spec fn termless(docs: Seq<Seq<u32>>) -> bool {
    forall|i: int| 0 <= i < docs.len() ==> (#[trigger] docs[i]).len() == 0
}

fn any_terms(doc_terms: &Vec<Vec<u32>>, order: &Vec<u32>) -> (r: bool)
    requires
        valid(term_views(doc_terms@), order@),
    ensures
        r == !termless(docs_of(term_views(doc_terms@), order@)),
{
    let ghost docs = docs_of(term_views(doc_terms@), order@);
    let mut i: usize = 0;
    while i < order.len()
        invariant
            valid(term_views(doc_terms@), order@),
            docs == docs_of(term_views(doc_terms@), order@),
            i <= order@.len(),
            forall|j: int| 0 <= j < i ==> (#[trigger] docs[j]).len() == 0,
        decreases order@.len() - i,
    {
        assert(order@[i as int] < doc_terms@.len());
        let terms = &doc_terms[order[i] as usize];
        assert(docs[i as int] == terms@);
        if terms.len() > 0 {
            return true;
        }
        i += 1;
    }
    false
}

/// The gains are as many as the documents.
pub open spec fn one_each<G: Fn(&Vec<u32>, &Vec<bool>) -> Vec<i64>>(gains: G) -> bool {
    forall|order: &Vec<u32>, side: &Vec<bool>, g: Vec<i64>|
        #[trigger] call_ensures(gains, (order, side), g) ==> g@.len() == order@.len()
}

/// The gains as numbers.
pub open spec fn told_ints(g: Seq<i64>) -> Seq<int> {
    Seq::new(g.len(), |i: int| g[i] as int)
}

/// `gains` may answer `g` when it is asked about `order` and `side`.
pub open spec fn told<G: Fn(&Vec<u32>, &Vec<bool>) -> Vec<i64>>(
    gains: G,
    order: Seq<u32>,
    side: Seq<bool>,
    g: Seq<int>,
) -> bool {
    exists|o: &Vec<u32>, s: &Vec<bool>, v: Vec<i64>| #[trigger]
        call_ensures(gains, (o, s), v) && o@ == order && s@ == side && g == told_ints(v@)
}

/// One round of swaps by an answer of `gains` takes `side` to `next`.
pub open spec fn told_round<G: Fn(&Vec<u32>, &Vec<bool>) -> Vec<i64>>(
    gains: G,
    order: Seq<u32>,
    side: Seq<bool>,
    next: Seq<bool>,
) -> bool {
    exists|g: Seq<int>| #[trigger] told(gains, order, side, g) && swaps(g, side, next)
}

/// At most `iters` rounds, until one swaps nothing, take `side` to `out`.
pub open spec fn told_settles<G: Fn(&Vec<u32>, &Vec<bool>) -> Vec<i64>>(
    gains: G,
    order: Seq<u32>,
    side: Seq<bool>,
    iters: nat,
    out: Seq<bool>,
) -> bool
    decreases iters,
{
    if iters == 0 {
        out == side
    } else {
        exists|next: Seq<bool>| #[trigger]
            told_round(gains, order, side, next) && if next == side {
                out == side
            } else {
                told_settles(gains, order, next, (iters - 1) as nat, out)
            }
    }
}

/// `side` is where the swaps on `order` end.
pub open spec fn told_settled<G: Fn(&Vec<u32>, &Vec<bool>) -> Vec<i64>>(
    gains: G,
    order: Seq<u32>,
    side: Seq<bool>,
) -> bool {
    side.len() == order.len() && told_settles(
        gains,
        order,
        halves(order.len()),
        BP_MAX_ITERS as nat,
        side,
    )
}

/// Recursive bisection of `order` with answers of `gains` gives `out`;
/// partitions below `min_partition` are bisected with exact gains, and one
/// without terms is left as it is.
pub open spec fn told_bisected<G: Fn(&Vec<u32>, &Vec<bool>) -> Vec<i64>>(
    gains: G,
    doc_terms: Seq<Seq<u32>>,
    order: Seq<u32>,
    depth: nat,
    min_partition: int,
    out: Seq<u32>,
) -> bool
    decreases BP_MAX_DEPTH - depth,
{
    let n = order.len();
    let mid = (n / 2) as int;
    if n < min_partition || depth >= BP_MAX_DEPTH {
        bisected(doc_terms, order, depth, out)
    } else if termless(docs_of(doc_terms, order)) {
        out == order
    } else {
        &&& out.len() == n
        &&& exists|side: Seq<bool>| #[trigger]
            told_settled(gains, order, side) && {
                let parts = partitioned(order, side);
                &&& told_bisected(
                    gains,
                    doc_terms,
                    parts.take(mid),
                    depth + 1,
                    min_partition,
                    out.take(mid),
                )
                &&& told_bisected(
                    gains,
                    doc_terms,
                    parts.skip(mid),
                    depth + 1,
                    min_partition,
                    out.skip(mid),
                )
            }
    }
}

fn widened(g: &Vec<i64>) -> (w: Vec<i128>)
    ensures
        w@.len() == g@.len(),
        forall|i: int| 0 <= i < w@.len() ==> #[trigger] w@[i] == g@[i],
        ints(w@) == told_ints(g@),
{
    let mut w: Vec<i128> = Vec::new();
    let mut i: usize = 0;
    while i < g.len()
        invariant
            i <= g@.len(),
            w@.len() == i,
            forall|j: int| 0 <= j < i ==> #[trigger] w@[j] == g@[j],
        decreases g@.len() - i,
    {
        w.push(g[i] as i128);
        i += 1;
    }
    assert(ints(w@) =~= told_ints(g@));
    w
}

/// Bisect `order` recursively with gains that `gains` computes for a
/// partition and its sides; partitions below `min_partition` are bisected
/// with exact gains. Whatever the gains are, this rearranges.
pub fn bisect_gpu<G: Fn(&Vec<u32>, &Vec<bool>) -> Vec<i64>>(
    order: Vec<u32>,
    doc_terms: &Vec<Vec<u32>>,
    depth: usize,
    min_partition: usize,
    gains: &G,
) -> (out: Vec<u32>)
    requires
        valid(term_views(doc_terms@), order@),
        forall|o: &Vec<u32>, s: &Vec<bool>| call_requires(*gains, (o, s)),
        one_each(*gains),
    ensures
        told_bisected(
            *gains,
            term_views(doc_terms@),
            order@,
            depth as nat,
            min_partition as int,
            out@,
        ),
        out@.to_multiset() == order@.to_multiset(),
        out@.len() == order@.len(),
    decreases BP_MAX_DEPTH - depth,
{
    let n: usize = order.len();
    if n < min_partition || depth >= BP_MAX_DEPTH {
        let out = bisect(order, doc_terms, depth);
        proof {
            law_bisection_permutes(term_views(doc_terms@), order@, depth as nat, out@);
        }
        return out;
    }
    if !any_terms(doc_terms, &order) {
        return order;
    }
    let mid: usize = n / 2;
    let mut side: Vec<bool> = Vec::new();
    let mut i: usize = 0;
    while i < n
        invariant
            i <= n,
            mid == n / 2,
            side@.len() == i,
            forall|j: int| 0 <= j < i ==> #[trigger] side@[j] == (j >= mid),
        decreases n - i,
    {
        side.push(i >= mid);
        i += 1;
    }
    proof {
        assert(side@ =~= halves(n as nat));
        lemma_side_len_halves(n as nat, n as int);
    }
    let mut iters: usize = 0;
    let mut go: bool = true;
    while iters < BP_MAX_ITERS && go
        invariant
            valid(term_views(doc_terms@), order@),
            n == order@.len(),
            forall|o: &Vec<u32>, s: &Vec<bool>| call_requires(*gains, (o, s)),
            one_each(*gains),
            side@.len() == n,
            side_len(side@, false, n as int) == mid,
            iters <= BP_MAX_ITERS,
            go ==> forall|out: Seq<bool>| #[trigger]
                told_settles(
                    *gains,
                    order@,
                    side@,
                    (BP_MAX_ITERS - iters) as nat,
                    out,
                ) ==> told_settles(*gains, order@, halves(n as nat), BP_MAX_ITERS as nat, out),
            !go ==> told_settles(*gains, order@, halves(n as nat), BP_MAX_ITERS as nat, side@),
        decreases BP_MAX_ITERS - iters,
    {
        let ghost before = side;
        let answer: Vec<i64> = gains(&order, &side);
        let g = widened(&answer);
        go = swap_by_gains(&mut side, &g);
        proof {
            let left = (BP_MAX_ITERS - iters) as nat;
            assert(call_ensures(*gains, (&order, &before), answer));
            assert(told(*gains, order@, before@, ints(g@)));
            assert(told_round(*gains, order@, before@, side@));
            if !go {
                assert(told_settles(*gains, order@, before@, left, side@));
            } else {
                assert forall|out: Seq<bool>| #[trigger]
                    told_settles(
                        *gains,
                        order@,
                        side@,
                        (left - 1) as nat,
                        out,
                    ) implies told_settles(
                    *gains,
                    order@,
                    halves(n as nat),
                    BP_MAX_ITERS as nat,
                    out,
                ) by {
                    assert(told_settles(*gains, order@, before@, left, out));
                }
            }
        }
        iters += 1;
    }
    proof {
        if go {
            assert((BP_MAX_ITERS - iters) as nat == 0);
            assert(told_settles(*gains, order@, side@, (BP_MAX_ITERS - iters) as nat, side@));
        }
        assert(told_settled(*gains, order@, side@));
    }
    let left = partition(&order, &side, false);
    let right = partition(&order, &side, true);
    proof {
        lemma_picked(order@, side@, n as int);
        assert forall|i: int| 0 <= i < left@.len() implies #[trigger] left@[i] < term_views(
            doc_terms@,
        ).len() by {
            assert(picked(order@, side@, false, n as int).contains(left@[i]));
            let k = choose|k: int| 0 <= k < order@.len() && order@[k] == left@[i];
        }
        assert forall|i: int| 0 <= i < right@.len() implies #[trigger] right@[i] < term_views(
            doc_terms@,
        ).len() by {
            assert(picked(order@, side@, true, n as int).contains(right@[i]));
            let k = choose|k: int| 0 <= k < order@.len() && order@[k] == right@[i];
        }
        assert(order@.take(n as int) =~= order@);
    }
    let ghost parts = partitioned(order@, side@);
    let ghost lower = left@;
    let ghost upper = right@;
    proof {
        assert(parts.take(mid as int) =~= lower);
        assert(parts.skip(mid as int) =~= upper);
    }
    let mut first = bisect_gpu(left, doc_terms, depth + 1, min_partition, gains);
    let mut second = bisect_gpu(right, doc_terms, depth + 1, min_partition, gains);
    let ghost one = first@;
    let ghost two = second@;
    proof {
        vstd::seq_lib::lemma_multiset_commutative(lower, upper);
        vstd::seq_lib::lemma_multiset_commutative(one, two);
    }
    first.append(&mut second);
    proof {
        assert(first@ =~= one + two);
        assert(first@.take(mid as int) =~= one);
        assert(first@.skip(mid as int) =~= two);
    }
    first
}

/// A bisection ordering of all documents with gains from `gains`.
pub fn bp_order_gpu<G: Fn(&Vec<u32>, &Vec<bool>) -> Vec<i64>>(
    doc_terms: &Vec<Vec<u32>>,
    min_partition: usize,
    gains: &G,
) -> (order: Vec<u32>)
    requires
        doc_terms@.len() <= u32::MAX,
        forall|d: int|
            0 <= d < doc_terms@.len() ==> (#[trigger] doc_terms@[d])@.no_duplicates()
                && doc_terms@[d]@.len() <= u32::MAX,
        forall|o: &Vec<u32>, s: &Vec<bool>| call_requires(*gains, (o, s)),
        one_each(*gains),
    ensures
        told_bisected(
            *gains,
            term_views(doc_terms@),
            identity(doc_terms@.len()),
            0,
            min_partition as int,
            order@,
        ),
        order@.to_multiset() == identity(doc_terms@.len()).to_multiset(),
        order@.len() == doc_terms@.len(),
{
    let n: usize = doc_terms.len();
    let mut start: Vec<u32> = Vec::new();
    let mut i: usize = 0;
    while i < n
        invariant
            i <= n <= u32::MAX,
            start@.len() == i,
            forall|j: int| 0 <= j < i ==> #[trigger] start@[j] == j,
        decreases n - i,
    {
        start.push(i as u32);
        i += 1;
    }
    assert(start@ =~= identity(n as nat));
    bisect_gpu(start, doc_terms, 0, min_partition, gains)
}

/// A term that no document of a partition holds costs nothing there, and so
/// does one that all but one hold; between, each of `deg` gaps costs the binary
/// logarithm of `n / (deg + 1)`.
pub proof fn law_cost_of_a_term(deg: int, n: int)
    requires
        0 < deg < n <= u32::MAX,
    ensures
        cost_spec(0, n) == 0,
        cost_spec(n - 1, n) == 0,
        cost_spec(deg, n) == deg * (logarithm::lg(n as nat) - logarithm::lg((deg + 1) as nat)),
        cost_spec(deg, n) >= 0,
{
    logarithm::law_log_monotone((deg + 1) as nat, n as nat);
    let x = logarithm::lg(n as nat) - logarithm::lg((deg + 1) as nat);
    assert(deg * x >= 0) by (nonlinear_arith)
        requires
            deg > 0,
            x >= 0,
    ;
    assert((n - 1) * 0 == 0);
}

/// Moving a document to the other side and back gains nothing.
pub proof fn law_moving_back_undoes(from_deg: int, to_deg: int, n_from: int, n_to: int)
    ensures
        gain_spec(from_deg, to_deg, n_from, n_to) + gain_spec(to_deg + 1, from_deg - 1, n_to, n_from)
            == 0,
{
}

/// A move gains what a term costs on both sides before it, less what it costs
/// after it.
pub proof fn law_gain_is_the_saving(from_deg: int, to_deg: int, n_from: int, n_to: int)
    ensures
        gain_spec(from_deg, to_deg, n_from, n_to) == (cost_spec(from_deg, n_from) + cost_spec(
            to_deg,
            n_to,
        )) - (cost_spec(from_deg - 1, n_from) + cost_spec(to_deg + 1, n_to)),
{
}

/// How many documents of a side hold a term.
pub proof fn law_degree_counts(docs: Seq<Seq<u32>>, side: Seq<bool>, s: bool, t: u32, n: int)
    requires
        0 <= n <= docs.len(),
        docs.len() == side.len(),
    ensures
        degree(docs, side, s, t, n) == Seq::new(n as nat, |i: int| i).filter(
            |i: int| side[i] == s && docs[i].contains(t),
        ).len(),
    decreases n,
{
    reveal(Seq::filter);
    let all = Seq::new(n as nat, |i: int| i);
    if n > 0 {
        law_degree_counts(docs, side, s, t, n - 1);
        assert(all.drop_last() =~= Seq::new((n - 1) as nat, |i: int| i));
        assert(all.last() == n - 1);
    }
}

/// A partition keeps the order of the documents of each side: the left side
/// first, then the right one.
pub proof fn law_partition_keeps_the_order(order: Seq<u32>, side: Seq<bool>)
    requires
        order.len() == side.len(),
    ensures
        ({
            let at = Seq::new(order.len(), |i: int| i);
            let left = at.filter(|i: int| !side[i]);
            let right = at.filter(|i: int| side[i]);
            partitioned(order, side) == left.map_values(|i: int| order[i]) + right.map_values(
                |i: int| order[i],
            )
        }),
{
    lemma_picked_filter(order, side, false, order.len() as int);
    lemma_picked_filter(order, side, true, order.len() as int);
    let at = Seq::new(order.len(), |i: int| i);
    lemma_same_filter(at, |i: int| side[i] == false, |i: int| !side[i]);
    lemma_same_filter(at, |i: int| side[i] == true, |i: int| side[i]);
}

proof fn lemma_same_filter(s: Seq<int>, f: spec_fn(int) -> bool, g: spec_fn(int) -> bool)
    requires
        forall|i: int| #[trigger] f(i) == g(i),
    ensures
        s.filter(f) == s.filter(g),
    decreases s.len(),
{
    reveal(Seq::filter);
    if s.len() > 0 {
        lemma_same_filter(s.drop_last(), f, g);
        assert(f(s.last()) == g(s.last()));
    }
}

proof fn lemma_picked_filter(order: Seq<u32>, side: Seq<bool>, s: bool, n: int)
    requires
        0 <= n <= order.len(),
    ensures
        picked(order, side, s, n) == Seq::new(n as nat, |i: int| i).filter(
            |i: int| side[i] == s,
        ).map_values(|i: int| order[i]),
    decreases n,
{
    reveal(Seq::filter);
    let f = |i: int| side[i] == s;
    let at = Seq::new(n as nat, |i: int| i);
    let order_at = |i: int| order[i];
    if n > 0 {
        lemma_picked_filter(order, side, s, n - 1);
        assert(at.drop_last() =~= Seq::new((n - 1) as nat, |i: int| i));
        let front = at.drop_last().filter(f);
        assert(front.push(n - 1).map_values(order_at) =~= front.map_values(order_at).push(
            order[n - 1],
        ));
    } else {
        assert(at.filter(f).map_values(order_at) =~= Seq::<u32>::empty());
    }
}

/// After a swap no two documents of different sides that stayed gain by changing
/// places, and each that moved gained together with one that came.
pub proof fn law_swaps_leave_no_gain(
    gains: Seq<int>,
    side: Seq<bool>,
    next: Seq<bool>,
    i: usize,
    j: usize,
)
    requires
        gains.len() == side.len(),
        side.len() <= usize::MAX,
        swaps(gains, side, next),
        i < side.len(),
        j < side.len(),
        !side[i as int],
        side[j as int],
    ensures
        next.len() == side.len(),
        !next[i as int] && next[j as int] ==> gains[i as int] + gains[j as int] <= 0,
        next[i as int] ==> exists|p: int|
            0 <= p < side.len() && #[trigger] side[p] && !next[p] && gains[i as int] + gains[p] > 0,
{
    let (left, right, m) = choose|left: Seq<usize>, right: Seq<usize>, m: int| #[trigger]
        swap_at(gains, side, left, right, m) && next == swapped(side, left, right, m);
    assert(left.contains(i) && right.contains(j));
    let x = choose|x: int| 0 <= x < left.len() && left[x] == i;
    let y = choose|y: int| 0 <= y < right.len() && right[y] == j;
    if !next[i as int] && next[j as int] {
        if x < m {
            assert(left.take(m)[x] == i);
            assert(left.take(m).contains(i));
        }
        if y < m {
            assert(right.take(m)[y] == j);
            assert(right.take(m).contains(j));
            assert(!left.take(m).contains(j)) by {
                if left.take(m).contains(j) {
                    let z = choose|z: int| 0 <= z < left.take(m).len() && left.take(m)[z] == j;
                    assert(!side[left[z] as int]);
                }
            }
        }
        if m < x {
            assert(ahead(gains, left[m] as int, left[x] as int));
        }
        if m < y {
            assert(ahead(gains, right[m] as int, right[y] as int));
        }
    }
    if next[i as int] {
        assert(left.take(m).contains(i)) by {
            if right.take(m).contains(i) {
                let z = choose|z: int| 0 <= z < right.take(m).len() && right.take(m)[z] == i;
                assert(side[right[z] as int]);
            }
        }
        let z = choose|z: int| 0 <= z < left.take(m).len() && left.take(m)[z] == i;
        assert(left[z] == i);
        let p = right[z];
        assert(side[p as int]);
        assert(right.take(m)[z] == p);
        assert(right.take(m).contains(p));
        assert(!left.take(m).contains(p)) by {
            if left.take(m).contains(p) {
                let w = choose|w: int| 0 <= w < left.take(m).len() && left.take(m)[w] == p;
                assert(!side[left[w] as int]);
            }
        }
        assert(gains[left[z] as int] + gains[right[z] as int] > 0);
        assert(!next[p as int]);
    }
}

/// What a document gains by changing sides: for each of its terms, what the term
/// costs on both sides before, less what it costs after.
pub proof fn law_documents_gain_by_their_terms(
    docs: Seq<Seq<u32>>,
    side: Seq<bool>,
    mid: int,
    i: int,
    k: int,
)
    requires
        0 <= i < docs.len(),
        0 <= k < docs[i].len(),
    ensures
        doc_gain(docs, side, mid, i, 0) == 0,
        ({
            let t = docs[i][k];
            let n = docs.len() as int;
            let left = degree(docs, side, false, t, n) as int;
            let right = degree(docs, side, true, t, n) as int;
            let before = cost_spec(left, mid) + cost_spec(right, n - mid);
            let after = if side[i] {
                cost_spec(left + 1, mid) + cost_spec(right - 1, n - mid)
            } else {
                cost_spec(left - 1, mid) + cost_spec(right + 1, n - mid)
            };
            doc_gain(docs, side, mid, i, k + 1) == doc_gain(docs, side, mid, i, k) + before - after
        }),
{
}

} // verus!
