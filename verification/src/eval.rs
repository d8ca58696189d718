//! Retrieval-quality metrics, as fractions of [`ONE`].

use crate::sums;
use crate::text;
use vstd::prelude::*;

verus! {

/// The unit of a metric.
pub const ONE: u64 = 0x1_0000_0000;

/// A judgement: a document and its relevance, 0 for none.
pub type Judgement = (String, u32);

/// The document is judged relevant.
pub open spec fn relevant(rels: Seq<(String, u32)>, id: Seq<char>) -> bool {
    exists|i: int| 0 <= i < rels.len() && (#[trigger] rels[i]).0@ == id && rels[i].1 > 0
}

fn same(a: &String, b: &String) -> (r: bool)
    ensures
        r == (a@ == b@),
{
    *a == *b
}

fn owned(s: &str) -> (t: String)
    ensures
        t@ == s@,
{
    let chars = text::chars_of(s);
    text::string_of(chars.as_slice())
}

pub fn is_relevant(rels: &[Judgement], id: &str) -> (r: bool)
    ensures
        r == relevant(rels@, id@),
{
    let wanted = owned(id);
    let mut i: usize = 0;
    while i < rels.len()
        invariant
            i <= rels@.len(),
            wanted@ == id@,
            forall|j: int| 0 <= j < i ==> !((#[trigger] rels@[j]).0@ == id@ && rels@[j].1 > 0),
        decreases rels@.len() - i,
    {
        if same(&rels[i].0, &wanted) && rels[i].1 > 0 {
            assert(rels@[i as int].0@ == id@);
            return true;
        }
        i += 1;
    }
    false
}

/// The first judgement among the first `n` that is about the document.
pub open spec fn judged(rels: Seq<(String, u32)>, id: Seq<char>, n: int) -> Option<u32>
    decreases n,
{
    if n <= 0 {
        None
    } else {
        match judged(rels, id, n - 1) {
            Some(r) => Some(r),
            None => if rels[n - 1].0@ == id {
                Some(rels[n - 1].1)
            } else {
                None
            },
        }
    }
}

/// The relevance that a document was given first.
pub fn relevance_of(rels: &[Judgement], id: &str) -> (r: Option<u32>)
    ensures
        r == judged(rels@, id@, rels@.len() as int),
{
    let wanted = owned(id);
    let mut found: Option<u32> = None;
    let mut i: usize = 0;
    while i < rels.len()
        invariant
            i <= rels@.len(),
            wanted@ == id@,
            found == judged(rels@, id@, i as int),
        decreases rels@.len() - i,
    {
        if found.is_none() && same(&rels[i].0, &wanted) {
            found = Some(rels[i].1);
        }
        i += 1;
    }
    found
}

/// `i` is the position of the first relevant document.
pub open spec fn first_relevant_at(ranked: Seq<String>, rels: Seq<(String, u32)>, i: int) -> bool {
    &&& 0 <= i < ranked.len()
    &&& relevant(rels, ranked[i]@)
    &&& forall|j: int| 0 <= j < i ==> !relevant(rels, (#[trigger] ranked[j])@)
}

/// Where the first relevant document stands.
pub fn first_relevant(ranked: &[String], rels: &[Judgement]) -> (r: Option<usize>)
    ensures
        match r {
            Some(i) => first_relevant_at(ranked@, rels@, i as int),
            None => forall|j: int|
                0 <= j < ranked@.len() ==> !relevant(rels@, (#[trigger] ranked@[j])@),
        },
{
    let mut i: usize = 0;
    while i < ranked.len()
        invariant
            i <= ranked@.len(),
            forall|j: int| 0 <= j < i ==> !relevant(rels@, (#[trigger] ranked@[j])@),
        decreases ranked@.len() - i,
    {
        if is_relevant(rels, ranked[i].as_str()) {
            return Some(i);
        }
        i += 1;
    }
    None
}

/// The reciprocal of the rank of the first relevant document, 0 if there is
/// none.
pub open spec fn is_reciprocal_rank(v: nat, ranked: Seq<String>, rels: Seq<(String, u32)>) -> bool {
    ||| exists|i: int| #[trigger] first_relevant_at(ranked, rels, i) && v == ONE as int / (i + 1)
    ||| v == 0 && forall|j: int| !#[trigger] first_relevant_at(ranked, rels, j)
}

proof fn lemma_none_relevant(ranked: Seq<String>, rels: Seq<(String, u32)>, j: int)
    requires
        forall|k: int| 0 <= k < ranked.len() ==> !relevant(rels, (#[trigger] ranked[k])@),
    ensures
        !first_relevant_at(ranked, rels, j),
{
}

fn reciprocal_rank(ranked: &[String], rels: &[Judgement]) -> (v: u64)
    ensures
        is_reciprocal_rank(v as nat, ranked@, rels@),
        v <= ONE,
{
    let n: usize = ranked.len();
    match first_relevant(ranked, rels) {
        Some(i) => {
            let rank: u64 = i as u64 + 1;
            let v: u64 = ONE / rank;
            assert(first_relevant_at(ranked@, rels@, i as int));
            assert(v <= ONE) by (nonlinear_arith)
                requires
                    v == ONE / rank,
                    rank >= 1,
            ;
            v
        },
        None => {
            proof {
                assert forall|j: int| !#[trigger] first_relevant_at(ranked@, rels@, j) by {
                    lemma_none_relevant(ranked@, rels@, j);
                }
            }
            0
        },
    }
}

/// How many of the first `n` judgements are positive.
pub open spec fn positives(rels: Seq<(String, u32)>, n: int) -> nat
    decreases n,
{
    if n <= 0 {
        0
    } else {
        positives(rels, n - 1) + (if rels[n - 1].1 > 0 {
            1nat
        } else {
            0
        })
    }
}

/// How many of the first `n` ranked documents are relevant.
pub open spec fn hits_among(ranked: Seq<String>, rels: Seq<(String, u32)>, n: int) -> nat
    decreases n,
{
    if n <= 0 {
        0
    } else {
        hits_among(ranked, rels, n - 1) + (if relevant(rels, ranked[n - 1]@) {
            1nat
        } else {
            0
        })
    }
}

/// The share of the relevant documents that the first `k` results hold.
pub open spec fn recall(ranked: Seq<String>, rels: Seq<(String, u32)>, k: nat) -> int {
    let found = hits_among(
        ranked,
        rels,
        if ranked.len() < k {
            ranked.len() as int
        } else {
            k as int
        },
    );
    if positives(rels, rels.len() as int) == 0 {
        0
    } else {
        found * ONE as int / positives(rels, rels.len() as int) as int
    }
}

fn recall_at(ranked: &[String], rels: &[Judgement], k: usize) -> (v: u64)
    requires
        k <= 10,
    ensures
        v == recall(ranked@, rels@, k as nat),
        v <= 10 * ONE,
{
    let mut total: usize = 0;
    let mut i: usize = 0;
    while i < rels.len()
        invariant
            i <= rels@.len(),
            total <= i,
            total == positives(rels@, i as int),
        decreases rels@.len() - i,
    {
        if rels[i].1 > 0 {
            total += 1;
        }
        i += 1;
    }
    if total == 0 {
        return 0;
    }
    let n: usize = if ranked.len() < k { ranked.len() } else { k };
    let mut found: usize = 0;
    let mut j: usize = 0;
    while j < n
        invariant
            j <= n,
            n <= ranked@.len(),
            n <= 10,
            found <= j,
            found == hits_among(ranked@, rels@, j as int),
        decreases n - j,
    {
        if is_relevant(rels, ranked[j].as_str()) {
            found += 1;
        }
        j += 1;
    }
    let v: u64 = (found as u64 * ONE) / (total as u64);
    assert(v <= 10 * ONE) by (nonlinear_arith)
        requires
            v == (found as int * ONE as int) / (total as int),
            0 <= found <= 10,
            total >= 1,
    ;
    v
}

/// The quality of a list of rankings: averages over all of them, in units of
/// 1 / [`ONE`].
pub struct Metrics {
    pub mrr: u64,
    pub recall_at_5: u64,
    pub recall_at_10: u64,
    pub n: usize,
}

/// The reciprocal ranks of the rankings; one without judgements has none.
pub open spec fn are_reciprocal_ranks(
    values: Seq<nat>,
    ranked: Seq<Vec<String>>,
    qrels: Seq<Vec<(String, u32)>>,
) -> bool {
    &&& values.len() == ranked.len()
    &&& forall|q: int|
        0 <= q < ranked.len() ==> if qrels[q]@.len() == 0 {
            (#[trigger] values[q]) == 0
        } else {
            is_reciprocal_rank(values[q], ranked[q]@, qrels[q]@)
        }
}

/// The recalls of the rankings.
pub open spec fn recalls(
    ranked: Seq<Vec<String>>,
    qrels: Seq<Vec<(String, u32)>>,
    k: nat,
) -> spec_fn(int) -> nat {
    |q: int|
        if qrels[q]@.len() == 0 {
            0
        } else {
            recall(ranked[q]@, qrels[q]@, k) as nat
        }
}

/// `n`, but at least 1.
pub open spec fn at_least_one(n: nat) -> int {
    if n == 0 {
        1
    } else {
        n as int
    }
}

/// Average the metrics over all queries. A query without judgements counts
/// with zeros.
pub fn evaluate(ranked: &Vec<Vec<String>>, qrels: &Vec<Vec<Judgement>>) -> (m: Metrics)
    requires
        ranked@.len() == qrels@.len(),
    ensures
        m.n == ranked@.len(),
        exists|values: Seq<nat>| #[trigger]
            are_reciprocal_ranks(values, ranked@, qrels@) && m.mrr == sums::total(
                sums::of_seq(values),
                ranked@.len(),
            ) as int / at_least_one(ranked@.len()),
        m.recall_at_5 == sums::total(recalls(ranked@, qrels@, 5), ranked@.len()) as int
            / at_least_one(ranked@.len()),
        m.recall_at_10 == sums::total(recalls(ranked@, qrels@, 10), ranked@.len()) as int
            / at_least_one(ranked@.len()),
{
    let n: usize = ranked.len();
    let ghost mut values: Seq<nat> = Seq::empty();
    let ghost five = recalls(ranked@, qrels@, 5);
    let ghost ten = recalls(ranked@, qrels@, 10);
    let mut mrr: u128 = 0;
    let mut r5: u128 = 0;
    let mut r10: u128 = 0;
    let mut q: usize = 0;
    while q < n
        invariant
            q <= n,
            n == ranked@.len(),
            n == qrels@.len(),
            five == recalls(ranked@, qrels@, 5),
            ten == recalls(ranked@, qrels@, 10),
            values.len() == q,
            forall|i: int|
                0 <= i < q ==> if qrels@[i]@.len() == 0 {
                    (#[trigger] values[i]) == 0
                } else {
                    is_reciprocal_rank(values[i], ranked@[i]@, qrels@[i]@)
                },
            mrr == sums::total(sums::of_seq(values), q as nat),
            r5 == sums::total(five, q as nat),
            r10 == sums::total(ten, q as nat),
            mrr <= q * ONE,
            r5 <= q * (10 * ONE),
            r10 <= q * (10 * ONE),
        decreases n - q,
    {
        let ghost before = values;
        let mut rr: u64 = 0;
        let mut a: u64 = 0;
        let mut b: u64 = 0;
        if qrels[q].len() > 0 {
            rr = reciprocal_rank(ranked[q].as_slice(), qrels[q].as_slice());
            a = recall_at(ranked[q].as_slice(), qrels[q].as_slice(), 5);
            b = recall_at(ranked[q].as_slice(), qrels[q].as_slice(), 10);
        }
        proof {
            values = values.push(rr as nat);
            assert forall|i: int| 0 <= i < q implies #[trigger] sums::of_seq(before)(i)
                == sums::of_seq(values)(i) by {}
            sums::lemma_total_eq(sums::of_seq(before), sums::of_seq(values), q as nat);
            assert(sums::of_seq(values)(q as int) == rr);
            assert(five(q as int) == a);
            assert(ten(q as int) == b);
            assert forall|i: int| 0 <= i < q + 1 implies if qrels@[i]@.len() == 0 {
                (#[trigger] values[i]) == 0
            } else {
                is_reciprocal_rank(values[i], ranked@[i]@, qrels@[i]@)
            } by {
                if i < q {
                    assert(values[i] == before[i]);
                }
            }
        }
        assert(q * (10 * ONE) + 10 * ONE <= u128::MAX && (q + 1) * (10 * ONE) == q * (10 * ONE) + 10
            * ONE && (q + 1) * ONE == q * ONE + ONE) by (nonlinear_arith)
            requires
                q <= u64::MAX,
        ;
        mrr = mrr + rr as u128;
        r5 = r5 + a as u128;
        r10 = r10 + b as u128;
        q += 1;
    }
    let d: u128 = if n == 0 { 1 } else { n as u128 };
    proof {
        assert(mrr / d <= ONE) by (nonlinear_arith)
            requires
                mrr <= n * ONE,
                d >= 1,
                d >= n,
        ;
        assert(r5 / d <= 10 * ONE) by (nonlinear_arith)
            requires
                r5 <= n * (10 * ONE),
                d >= 1,
                d >= n,
        ;
        assert(r10 / d <= 10 * ONE) by (nonlinear_arith)
            requires
                r10 <= n * (10 * ONE),
                d >= 1,
                d >= n,
        ;
        assert(are_reciprocal_ranks(values, ranked@, qrels@));
    }
    Metrics {
        mrr: (mrr / d) as u64,
        recall_at_5: (r5 / d) as u64,
        recall_at_10: (r10 / d) as u64,
        n,
    }
}

proof fn lemma_positives(rels: Seq<(String, u32)>, n: int)
    requires
        0 <= n <= rels.len(),
    ensures
        positives(rels, n) == rels.take(n).filter(|r: (String, u32)| r.1 > 0).len(),
    decreases n,
{
    reveal(Seq::filter);
    if n > 0 {
        lemma_positives(rels, n - 1);
        assert(rels.take(n).drop_last() =~= rels.take(n - 1));
        assert(rels.take(n).last() == rels[n - 1]);
    }
}

proof fn lemma_hits_among(ranked: Seq<String>, rels: Seq<(String, u32)>, n: int)
    requires
        0 <= n <= ranked.len(),
    ensures
        hits_among(ranked, rels, n) == ranked.take(n).filter(
            |id: String| relevant(rels, id@),
        ).len(),
    decreases n,
{
    reveal(Seq::filter);
    if n > 0 {
        lemma_hits_among(ranked, rels, n - 1);
        assert(ranked.take(n).drop_last() =~= ranked.take(n - 1));
        assert(ranked.take(n).last() == ranked[n - 1]);
    }
}

/// Recall is the number of relevant documents among the first `k` results over
/// the number of positive judgements, in units of 2^-32 and rounded down; 0 if
/// nothing is relevant.
pub proof fn law_recall(ranked: Seq<String>, rels: Seq<(String, u32)>, k: nat)
    ensures
        ({
            let top = if ranked.len() < k {
                ranked
            } else {
                ranked.take(k as int)
            };
            let found = top.filter(|id: String| relevant(rels, id@)).len() as int;
            let all = rels.filter(|r: (String, u32)| r.1 > 0).len() as int;
            let v = recall(ranked, rels, k);
            &&& all == 0 ==> v == 0
            &&& all > 0 ==> v * all <= found * 0x1_0000_0000 < (v + 1) * all
        }),
{
    let n = if ranked.len() < k {
        ranked.len() as int
    } else {
        k as int
    };
    lemma_hits_among(ranked, rels, n);
    lemma_positives(rels, rels.len() as int);
    assert(rels.take(rels.len() as int) =~= rels);
    assert(ranked.take(ranked.len() as int) =~= ranked);
    let found = hits_among(ranked, rels, n) as int;
    let all = positives(rels, rels.len() as int) as int;
    if all > 0 {
        let top = found * 0x1_0000_0000;
        let q = top / all;
        vstd::arithmetic::div_mod::lemma_fundamental_div_mod(top, all);
        vstd::arithmetic::div_mod::lemma_mod_bound(top, all);
        assert(q * all <= top < (q + 1) * all) by (nonlinear_arith)
            requires
                top == all * q + top % all,
                0 <= top % all < all,
        ;
    }
}

/// The reciprocal rank is one over the place of the first relevant result, in
/// units of 2^-32 and rounded down, and 0 if no result is relevant.
pub proof fn law_reciprocal_rank(v: nat, ranked: Seq<String>, rels: Seq<(String, u32)>, i: int)
    requires
        is_reciprocal_rank(v, ranked, rels),
    ensures
        0 <= i < ranked.len() && relevant(rels, ranked[i]@) && (forall|j: int|
            0 <= j < i ==> !relevant(rels, (#[trigger] ranked[j])@)) ==> v * (i + 1)
            <= 0x1_0000_0000 < (v + 1) * (i + 1),
        (forall|j: int| 0 <= j < ranked.len() ==> !relevant(rels, (#[trigger] ranked[j])@)) ==> v
            == 0,
{
    if 0 <= i < ranked.len() && relevant(rels, ranked[i]@) && (forall|j: int|
        0 <= j < i ==> !relevant(rels, (#[trigger] ranked[j])@)) {
        assert(first_relevant_at(ranked, rels, i));
        let q = choose|q: int| #[trigger]
            first_relevant_at(ranked, rels, q) && v == ONE as int / (q + 1);
        assert(q == i) by {
            if q < i {
                assert(!relevant(rels, ranked[q]@));
            } else if i < q {
                assert(!relevant(rels, ranked[i]@));
            }
        }
        let n = i + 1;
        vstd::arithmetic::div_mod::lemma_fundamental_div_mod(0x1_0000_0000, n);
        vstd::arithmetic::div_mod::lemma_mod_bound(0x1_0000_0000, n);
        assert(v * n <= 0x1_0000_0000 < (v + 1) * n) by (nonlinear_arith)
            requires
                0x1_0000_0000 == n * v + 0x1_0000_0000int % n,
                0 <= 0x1_0000_0000int % n < n,
        ;
    }
}

/// The relevance of a document is that of its first judgement.
pub proof fn law_first_judgement_counts(rels: Seq<(String, u32)>, id: Seq<char>, i: int)
    ensures
        0 <= i < rels.len() && rels[i].0@ == id && (forall|j: int|
            0 <= j < i ==> (#[trigger] rels[j]).0@ != id) ==> judged(rels, id, rels.len() as int)
            == Some(rels[i].1),
        (forall|j: int| 0 <= j < rels.len() ==> (#[trigger] rels[j]).0@ != id) ==> judged(
            rels,
            id,
            rels.len() as int,
        ) is None,
{
    lemma_judged(rels, id, rels.len() as int, i);
}

proof fn lemma_judged(rels: Seq<(String, u32)>, id: Seq<char>, n: int, i: int)
    requires
        0 <= n <= rels.len(),
    ensures
        0 <= i < n && rels[i].0@ == id && (forall|j: int|
            0 <= j < i ==> (#[trigger] rels[j]).0@ != id) ==> judged(rels, id, n) == Some(rels[i].1),
        (forall|j: int| 0 <= j < n ==> (#[trigger] rels[j]).0@ != id) ==> judged(rels, id, n) is None,
    decreases n,
{
    if n > 0 {
        lemma_judged(rels, id, n - 1, i);
        if i == n - 1 && forall|j: int| 0 <= j < i ==> (#[trigger] rels[j]).0@ != id {
            assert(judged(rels, id, n - 1) is None);
        }
        if forall|j: int| 0 <= j < n ==> (#[trigger] rels[j]).0@ != id {
            assert(rels[n - 1].0@ != id);
        }
    }
}

/// A document is relevant to a query through a judgement above zero; judgements
/// of zero, and those of other documents, change nothing.
pub proof fn law_relevance(rels: Seq<(String, u32)>, j: (String, u32), id: Seq<char>)
    ensures
        !relevant(Seq::empty(), id),
        relevant(rels.push(j), id) <==> relevant(rels, id) || (j.0@ == id && j.1 > 0),
        positives(Seq::empty(), 0) == 0,
        positives(rels.push(j), rels.len() as int + 1) == positives(rels, rels.len() as int) + if j.1
            > 0 {
            1nat
        } else {
            0
        },
{
    let all = rels.push(j);
    if relevant(rels, id) {
        let i = choose|i: int| 0 <= i < rels.len() && (#[trigger] rels[i]).0@ == id && rels[i].1 > 0;
        assert(all[i] == rels[i]);
    }
    if j.0@ == id && j.1 > 0 {
        assert(all[rels.len() as int] == j);
    }
    if relevant(all, id) && !(j.0@ == id && j.1 > 0) {
        let i = choose|i: int| 0 <= i < all.len() && (#[trigger] all[i]).0@ == id && all[i].1 > 0;
        assert(rels[i] == all[i]);
    }
    lemma_positives_front(rels, j, rels.len() as int);
}

proof fn lemma_positives_front(rels: Seq<(String, u32)>, j: (String, u32), n: int)
    requires
        0 <= n <= rels.len(),
    ensures
        positives(rels.push(j), n) == positives(rels, n),
    decreases n,
{
    if n > 0 {
        lemma_positives_front(rels, j, n - 1);
        assert(rels.push(j)[n - 1] == rels[n - 1]);
    }
}

} // verus!
