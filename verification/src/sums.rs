//! Finite sums.

use vstd::prelude::*;

verus! {

/// `f(0) + f(1) + ... + f(n - 1)`.
pub open spec fn total(f: spec_fn(int) -> nat, n: nat) -> nat
    decreases n,
{
    if n == 0 {
        0
    } else {
        total(f, (n - 1) as nat) + f(n - 1)
    }
}

/// The elements of a sequence as terms of a sum.
pub open spec fn of_seq(s: Seq<nat>) -> spec_fn(int) -> nat {
    |j: int| s[j]
}

/// The terms of a sum taken in the order of a list of positions.
pub open spec fn along(f: spec_fn(int) -> nat, order: Seq<usize>) -> spec_fn(int) -> nat {
    |i: int| f(order[i] as int)
}

pub proof fn lemma_total_le(f: spec_fn(int) -> nat, g: spec_fn(int) -> nat, n: nat)
    requires
        forall|i: int| 0 <= i < n ==> #[trigger] f(i) <= g(i),
    ensures
        total(f, n) <= total(g, n),
    decreases n,
{
    if n > 0 {
        lemma_total_le(f, g, (n - 1) as nat);
        assert(f(n - 1) <= g(n - 1));
    }
}

pub proof fn lemma_total_eq(f: spec_fn(int) -> nat, g: spec_fn(int) -> nat, n: nat)
    requires
        forall|i: int| 0 <= i < n ==> #[trigger] f(i) == g(i),
    ensures
        total(f, n) == total(g, n),
    decreases n,
{
    if n > 0 {
        lemma_total_eq(f, g, (n - 1) as nat);
        assert(f(n - 1) == g(n - 1));
    }
}

pub proof fn lemma_total_monotone(f: spec_fn(int) -> nat, m: nat, n: nat)
    requires
        m <= n,
    ensures
        total(f, m) <= total(f, n),
    decreases n,
{
    if m < n {
        lemma_total_monotone(f, m, (n - 1) as nat);
    }
}

/// Clearing one term takes it off the sum.
proof fn lemma_total_clear(f: spec_fn(int) -> nat, n: nat, at: int)
    requires
        0 <= at < n,
    ensures
        total(f, n) == total(|i: int| if i == at { 0 } else { f(i) }, n) + f(at),
    decreases n,
{
    let g = |i: int| if i == at { 0nat } else { f(i) };
    if at == n - 1 {
        lemma_total_eq(f, g, (n - 1) as nat);
    } else {
        lemma_total_clear(f, (n - 1) as nat, at);
    }
}

/// A sum whose terms vanish outside the first `m` positions of `order` can be
/// taken along those positions.
pub proof fn lemma_total_support(f: spec_fn(int) -> nat, n: nat, order: Seq<usize>, m: nat)
    requires
        m <= order.len(),
        forall|i: int| 0 <= i < m ==> #[trigger] order[i] < n,
        forall|i: int, j: int| 0 <= i < j < m ==> #[trigger] order[i] != #[trigger] order[j],
        forall|j: int| 0 <= j < n && #[trigger] f(j) > 0 ==> exists|i: int| 0 <= i < m && order[i] == j,
    ensures
        total(f, n) == total(along(f, order), m),
    decreases m,
{
    if m == 0 {
        let z = |i: int| 0nat;
        assert forall|j: int| 0 <= j < n implies #[trigger] f(j) == z(j) by {}
        lemma_total_eq(f, z, n);
        lemma_total_zero(n);
    } else {
        let at = order[m - 1] as int;
        let g = |i: int| if i == at { 0nat } else { f(i) };
        lemma_total_clear(f, n, at);
        assert forall|j: int| 0 <= j < n && #[trigger] g(j) > 0 implies exists|i: int|
            0 <= i < m - 1 && order[i] == j by {
            assert(f(j) > 0);
            let i = choose|i: int| 0 <= i < m && order[i] == j;
            assert(i != m - 1);
        }
        lemma_total_support(g, n, order, (m - 1) as nat);
        assert forall|i: int| 0 <= i < m - 1 implies #[trigger] along(g, order)(i) == along(
            f,
            order,
        )(i) by {
            assert(order[i] != order[m - 1]);
        }
        lemma_total_eq(along(g, order), along(f, order), (m - 1) as nat);
    }
}

proof fn lemma_total_zero(n: nat)
    ensures
        total(|i: int| 0nat, n) == 0,
    decreases n,
{
    if n > 0 {
        lemma_total_zero((n - 1) as nat);
    }
}

/// A sum shrinks when no term grows and one shrinks.
pub proof fn lemma_total_lt(f: spec_fn(int) -> nat, g: spec_fn(int) -> nat, n: nat, at: int)
    requires
        0 <= at < n,
        f(at) < g(at),
        forall|i: int| 0 <= i < n ==> #[trigger] f(i) <= g(i),
    ensures
        total(f, n) < total(g, n),
    decreases n,
{
    assert(f(n - 1) <= g(n - 1));
    if at == n - 1 {
        lemma_total_le(f, g, (n - 1) as nat);
    } else {
        lemma_total_lt(f, g, (n - 1) as nat, at);
    }
}

/// A sum splits at any place, and its terms are added one by one.
pub proof fn law_total(f: spec_fn(int) -> nat, m: nat, n: nat)
    ensures
        total(f, 0) == 0,
        total(f, 1) == f(0),
        total(f, m + n) == total(f, m) + total(|i: int| f(m + i), n),
    decreases n,
{
    assert(total(f, 1) == total(f, 0) + f(0));
    if n > 0 {
        law_total(f, m, (n - 1) as nat);
    }
}

} // verus!
