//! Sorting.
//!
//! Items are sorted through their indices: [`sort_indices`] returns the
//! positions `0..n` in the order of a strict total relation on them, so that
//! the relation can look at whatever the positions stand for.

use crate::text;
use vstd::prelude::*;

verus! {

/// `less` is a strict total order on the indices below `n`.
pub open spec fn strict_total(less: spec_fn(int, int) -> bool, n: int) -> bool {
    &&& forall|a: int| 0 <= a < n ==> !#[trigger] less(a, a)
    &&& forall|a: int, b: int|
        0 <= a < n && 0 <= b < n && a != b ==> (#[trigger] less(a, b) <==> !less(b, a))
    &&& forall|a: int, b: int, c: int|
        0 <= a < n && 0 <= b < n && 0 <= c < n && #[trigger] less(a, b) && #[trigger] less(b, c)
            ==> less(a, c)
}

/// `order` holds every index from `lo` below `hi` once.
pub open spec fn covers(order: Seq<usize>, lo: int, hi: int) -> bool {
    &&& order.len() == hi - lo
    &&& forall|i: int| 0 <= i < order.len() ==> lo <= #[trigger] order[i] < hi
    &&& forall|v: usize| lo <= v < hi ==> #[trigger] order.contains(v)
}

/// `order` is increasing under `less`.
pub open spec fn increasing(order: Seq<usize>, less: spec_fn(int, int) -> bool) -> bool {
    forall|i: int, j: int|
        0 <= i < j < order.len() ==> less(#[trigger] order[i] as int, #[trigger] order[j] as int)
}

/// `order` lists the indices below `n` in the order of `less`.
pub open spec fn sorted_indices(order: Seq<usize>, n: int, less: spec_fn(int, int) -> bool) -> bool {
    &&& covers(order, 0, n)
    &&& increasing(order, less)
}

/// Indices are sorted in one way.
pub proof fn lemma_sorted_unique(
    a: Seq<usize>,
    b: Seq<usize>,
    n: int,
    less: spec_fn(int, int) -> bool,
)
    requires
        strict_total(less, n),
        sorted_indices(a, n, less),
        sorted_indices(b, n, less),
    ensures
        a == b,
{
    lemma_sorted_prefix(a, b, n, less, n);
    assert(a =~= b);
}

proof fn lemma_sorted_prefix(
    a: Seq<usize>,
    b: Seq<usize>,
    n: int,
    less: spec_fn(int, int) -> bool,
    m: int,
)
    requires
        strict_total(less, n),
        sorted_indices(a, n, less),
        sorted_indices(b, n, less),
        0 <= m <= n,
    ensures
        forall|i: int| 0 <= i < m ==> #[trigger] a[i] == b[i],
    decreases m,
{
    if m > 0 {
        let l = m - 1;
        lemma_sorted_prefix(a, b, n, less, l);
        let (x, y) = (a[l], b[l]);
        if x != y {
            assert(b.contains(x) && a.contains(y));
            let i = choose|i: int| 0 <= i < b.len() && b[i] == x;
            let j = choose|j: int| 0 <= j < a.len() && a[j] == y;
            if i < l {
                assert(a[i] == b[i]);
                assert(less(a[i] as int, a[l] as int));
            }
            if j < l {
                assert(a[j] == b[j]);
                assert(less(b[j] as int, b[l] as int));
            }
            assert(less(b[l] as int, b[i] as int));
            assert(less(a[l] as int, a[j] as int));
        }
    }
}

/// The order of keys is a strict total one.
pub proof fn lemma_key_less_total(keys: Seq<u64>)
    ensures
        strict_total(key_less(keys), keys.len() as int),
{
}

/// An increasing listing holds no index twice.
pub proof fn lemma_increasing_distinct(
    order: Seq<usize>,
    n: int,
    less: spec_fn(int, int) -> bool,
)
    requires
        strict_total(less, n),
        sorted_indices(order, n, less),
    ensures
        order.no_duplicates(),
{
    assert forall|i: int, j: int| 0 <= i < order.len() && 0 <= j < order.len() && i != j implies
        order[i] != order[j] by {
        if i < j {
            assert(less(order[i] as int, order[j] as int));
        } else {
            assert(less(order[j] as int, order[i] as int));
        }
    }
}

/// The indices below `n` in the order of `less`, which `f` decides.
pub(crate) fn sort_indices<F: Fn(usize, usize) -> bool>(
    n: usize,
    f: &F,
    Ghost(less): Ghost<spec_fn(int, int) -> bool>,
) -> (order: Vec<usize>)
    requires
        strict_total(less, n as int),
        forall|a: usize, b: usize| a < n && b < n ==> call_requires(*f, (a, b)),
        forall|a: usize, b: usize, r: bool|
            a < n && b < n && call_ensures(*f, (a, b), r) ==> r == less(a as int, b as int),
    ensures
        sorted_indices(order@, n as int, less),
{
    sort_range(0, n, f, Ghost(less), Ghost(n as int))
}

fn sort_range<F: Fn(usize, usize) -> bool>(
    lo: usize,
    hi: usize,
    f: &F,
    Ghost(less): Ghost<spec_fn(int, int) -> bool>,
    Ghost(n): Ghost<int>,
) -> (order: Vec<usize>)
    requires
        lo <= hi <= n,
        strict_total(less, n),
        forall|a: usize, b: usize| a < n && b < n ==> call_requires(*f, (a, b)),
        forall|a: usize, b: usize, r: bool|
            a < n && b < n && call_ensures(*f, (a, b), r) ==> r == less(a as int, b as int),
    ensures
        covers(order@, lo as int, hi as int),
        increasing(order@, less),
    decreases hi - lo,
{
    if hi - lo == 0 {
        return Vec::new();
    }
    if hi - lo == 1 {
        let mut one: Vec<usize> = Vec::new();
        one.push(lo);
        assert(one@[0] == lo);
        return one;
    }
    let mid: usize = lo + (hi - lo) / 2;
    let left = sort_range(lo, mid, f, Ghost(less), Ghost(n));
    let right = sort_range(mid, hi, f, Ghost(less), Ghost(n));
    let mut out: Vec<usize> = Vec::new();
    let mut i: usize = 0;
    let mut j: usize = 0;
    while i < left.len() || j < right.len()
        invariant
            lo <= mid <= hi <= n,
            strict_total(less, n),
            forall|a: usize, b: usize| a < n && b < n ==> call_requires(*f, (a, b)),
            forall|a: usize, b: usize, r: bool|
                a < n && b < n && call_ensures(*f, (a, b), r) ==> r == less(a as int, b as int),
            covers(left@, lo as int, mid as int),
            covers(right@, mid as int, hi as int),
            increasing(left@, less),
            increasing(right@, less),
            i <= left@.len(),
            j <= right@.len(),
            out@.len() == i + j,
            increasing(out@, less),
            forall|k: int| 0 <= k < out@.len() ==> lo <= #[trigger] out@[k] < hi,
            forall|k: int| 0 <= k < i ==> out@.contains(#[trigger] left@[k]),
            forall|k: int| 0 <= k < j ==> out@.contains(#[trigger] right@[k]),
            forall|k: int, m: int|
                0 <= k < out@.len() && i <= m < left@.len() ==> less(
                    #[trigger] out@[k] as int,
                    #[trigger] left@[m] as int,
                ),
            forall|k: int, m: int|
                0 <= k < out@.len() && j <= m < right@.len() ==> less(
                    #[trigger] out@[k] as int,
                    #[trigger] right@[m] as int,
                ),
        decreases left@.len() - i + right@.len() - j,
    {
        let ghost before = out@;
        let take_left: bool = if i >= left.len() {
            false
        } else if j >= right.len() {
            true
        } else {
            f(left[i], right[j])
        };
        if take_left {
            let v: usize = left[i];
            out.push(v);
            proof {
                assert forall|m: int| j <= m < right@.len() implies less(
                    v as int,
                    #[trigger] right@[m] as int,
                ) by {
                    assert(less(v as int, right@[j as int] as int));
                    if m > j {
                        assert(less(right@[j as int] as int, right@[m] as int));
                    }
                }
                assert forall|k: int| 0 <= k < i + 1 implies out@.contains(#[trigger] left@[k]) by {
                    lemma_contains_push(before, v, left@[k]);
                }
                assert forall|k: int| 0 <= k < j implies out@.contains(#[trigger] right@[k]) by {
                    lemma_contains_push(before, v, right@[k]);
                }
            }
            i += 1;
        } else {
            let v: usize = right[j];
            out.push(v);
            proof {
                assert forall|m: int| i <= m < left@.len() implies less(
                    v as int,
                    #[trigger] left@[m] as int,
                ) by {
                    assert(left@[i as int] < mid && right@[j as int] >= mid);
                    assert(less(v as int, left@[i as int] as int));
                    if m > i {
                        assert(less(left@[i as int] as int, left@[m] as int));
                    }
                }
                assert forall|k: int| 0 <= k < j + 1 implies out@.contains(#[trigger] right@[k]) by {
                    lemma_contains_push(before, v, right@[k]);
                }
                assert forall|k: int| 0 <= k < i implies out@.contains(#[trigger] left@[k]) by {
                    lemma_contains_push(before, v, left@[k]);
                }
            }
            j += 1;
        }
    }
    proof {
        assert forall|v: usize| lo <= v < hi implies #[trigger] out@.contains(v) by {
            if v < mid {
                assert(left@.contains(v));
                let k = choose|k: int| 0 <= k < left@.len() && left@[k] == v;
                assert(out@.contains(left@[k]));
            } else {
                assert(right@.contains(v));
                let k = choose|k: int| 0 <= k < right@.len() && right@[k] == v;
                assert(out@.contains(right@[k]));
            }
        }
    }
    out
}

proof fn lemma_contains_push(s: Seq<usize>, v: usize, x: usize)
    requires
        s.contains(x) || x == v,
    ensures
        s.push(v).contains(x),
{
    if s.contains(x) {
        let k = choose|k: int| 0 <= k < s.len() && s[k] == x;
        assert(s.push(v)[k] == x);
    } else {
        assert(s.push(v)[s.len() as int] == x);
    }
}

/// Positions by ascending key, equal keys by position.
pub open spec fn key_less(keys: Seq<u64>) -> spec_fn(int, int) -> bool {
    |a: int, b: int| keys[a] < keys[b] || (keys[a] == keys[b] && a < b)
}

/// Stable sort by an integer key: the positions of `keys` by ascending key,
/// equal keys by position.
pub fn order_by_key(keys: &[u64]) -> (order: Vec<usize>)
    ensures
        sorted_indices(order@, keys@.len() as int, key_less(keys@)),
{
    let f = |a: usize, b: usize| -> (r: bool)
        requires
            a < keys@.len(),
            b < keys@.len(),
        ensures
            r == key_less(keys@)(a as int, b as int),
        { keys[a] < keys[b] || (keys[a] == keys[b] && a < b) };
    sort_indices(keys.len(), &f, Ghost(key_less(keys@)))
}

/// Positions by descending key, equal keys by position.
pub open spec fn best_less(keys: Seq<u32>) -> spec_fn(int, int) -> bool {
    |a: int, b: int| keys[a] > keys[b] || (keys[a] == keys[b] && a < b)
}

/// The positions of `keys`, best first, equal keys by position.
pub fn best_first(keys: &[u32]) -> (order: Vec<usize>)
    ensures
        sorted_indices(order@, keys@.len() as int, best_less(keys@)),
{
    let f = |a: usize, b: usize| -> (r: bool)
        requires
            a < keys@.len(),
            b < keys@.len(),
        ensures
            r == best_less(keys@)(a as int, b as int),
        { keys[a] > keys[b] || (keys[a] == keys[b] && a < b) };
    sort_indices(keys.len(), &f, Ghost(best_less(keys@)))
}

/// Picking the elements of `s` in the order of a listing of its positions
/// rearranges `s`.
pub proof fn lemma_rearranged<T>(s: Seq<T>, order: Seq<usize>)
    requires
        s.len() <= usize::MAX,
        covers(order, 0, s.len() as int),
        order.no_duplicates(),
    ensures
        Seq::new(order.len(), |i: int| s[order[i] as int]).to_multiset() == s.to_multiset(),
    decreases s.len(),
{
    let picked = Seq::new(order.len(), |i: int| s[order[i] as int]);
    if s.len() == 0 {
        assert(picked =~= s);
    } else {
        let last = (s.len() - 1) as usize;
        assert(order.contains(last));
        let k = choose|k: int| 0 <= k < order.len() && order[k] == last;
        let rest = order.remove(k);
        let front = s.drop_last();
        assert forall|i: int| 0 <= i < rest.len() implies 0 <= #[trigger] rest[i] < front.len() by {
            let o = if i < k { i } else { i + 1 };
            assert(rest[i] == order[o]);
            assert(order[o] != order[k]);
        }
        assert forall|v: usize| 0 <= v < front.len() implies #[trigger] rest.contains(v) by {
            assert(order.contains(v));
            let o = choose|o: int| 0 <= o < order.len() && order[o] == v;
            if o < k {
                assert(rest[o] == v);
            } else {
                assert(rest[o - 1] == v);
            }
        }
        assert(rest.no_duplicates()) by {
            assert forall|i: int, j: int|
                0 <= i < rest.len() && 0 <= j < rest.len() && i != j implies rest[i] != rest[j] by {
                let oi = if i < k { i } else { i + 1 };
                let oj = if j < k { j } else { j + 1 };
                assert(order[oi] != order[oj]);
            }
        }
        lemma_rearranged(front, rest);
        let sub = Seq::new(rest.len(), |i: int| front[rest[i] as int]);
        assert(picked.remove(k) =~= sub) by {
            assert forall|i: int| 0 <= i < sub.len() implies picked.remove(k)[i] == sub[i] by {
                let o = if i < k { i } else { i + 1 };
                assert(rest[i] == order[o]);
                assert(order[o] != order[k]);
            }
        }
        broadcast use vstd::seq_lib::group_to_multiset_ensures;
        assert(picked.remove(k).to_multiset() == picked.to_multiset().remove(picked[k]));
        assert(picked.to_multiset().count(picked[k]) > 0) by {
            assert(picked.contains(picked[k]));
        }
        assert(s =~= front.push(s.last()));
        assert(s.to_multiset() =~= front.to_multiset().insert(s.last()));
        assert(picked.to_multiset() =~= sub.to_multiset().insert(s.last()));
    }
}

/// Lexicographic order of texts by character, which is also the order of
/// their UTF-8 bytes.
pub open spec fn lex_less(a: Seq<char>, b: Seq<char>) -> bool
    decreases a.len(),
{
    if b.len() == 0 {
        false
    } else if a.len() == 0 {
        true
    } else if a[0] != b[0] {
        a[0] < b[0]
    } else {
        lex_less(a.drop_first(), b.drop_first())
    }
}

pub proof fn lemma_lex_irreflexive(a: Seq<char>)
    ensures
        !lex_less(a, a),
    decreases a.len(),
{
    if a.len() > 0 {
        lemma_lex_irreflexive(a.drop_first());
    }
}

pub proof fn lemma_lex_total(a: Seq<char>, b: Seq<char>)
    requires
        a != b,
    ensures
        lex_less(a, b) <==> !lex_less(b, a),
    decreases a.len(),
{
    if a.len() == 0 || b.len() == 0 {
        if a.len() == b.len() {
            assert(a =~= b);
        }
    } else if a[0] == b[0] {
        assert(a.drop_first() != b.drop_first()) by {
            if a.drop_first() == b.drop_first() {
                assert(a =~= seq![a[0]] + a.drop_first());
                assert(b =~= seq![b[0]] + b.drop_first());
            }
        }
        lemma_lex_total(a.drop_first(), b.drop_first());
    }
}

pub proof fn lemma_lex_transitive(a: Seq<char>, b: Seq<char>, c: Seq<char>)
    requires
        lex_less(a, b),
        lex_less(b, c),
    ensures
        lex_less(a, c),
    decreases a.len(),
{
    if a.len() > 0 && a[0] == b[0] && b[0] == c[0] {
        lemma_lex_transitive(a.drop_first(), b.drop_first(), c.drop_first());
    }
}

/// Does `a` come before `b`?
pub fn text_before(a: &[char], b: &[char]) -> (r: bool)
    ensures
        r == lex_less(a@, b@),
{
    let mut i: usize = 0;
    assert(a@.skip(0) =~= a@);
    assert(b@.skip(0) =~= b@);
    while i < a.len() && i < b.len()
        invariant
            i <= a@.len(),
            i <= b@.len(),
            lex_less(a@, b@) == lex_less(a@.skip(i as int), b@.skip(i as int)),
        decreases a@.len() - i,
    {
        proof {
            assert(a@.skip(i as int).drop_first() =~= a@.skip(i + 1));
            assert(b@.skip(i as int).drop_first() =~= b@.skip(i + 1));
        }
        if a[i] != b[i] {
            return a[i] < b[i];
        }
        i += 1;
    }
    i < b.len()
}

/// Texts in lexicographic order, equal ones by position.
pub open spec fn text_less(texts: Seq<Seq<char>>) -> spec_fn(int, int) -> bool {
    |a: int, b: int| lex_less(texts[a], texts[b]) || (texts[a] == texts[b] && a < b)
}

/// Stable sort of texts: their positions in lexicographic order.
pub fn order_by_text(texts: &Vec<Vec<char>>) -> (order: Vec<usize>)
    ensures
        sorted_indices(order@, texts@.len() as int, text_less(text::views(texts@))),
{
    let f = |a: usize, b: usize| -> (r: bool)
        requires
            a < texts@.len(),
            b < texts@.len(),
        ensures
            r == text_less(text::views(texts@))(a as int, b as int),
        {
            let x: &[char] = texts[a].as_slice();
            let y: &[char] = texts[b].as_slice();
            text_before(x, y) || (a < b && text::same(x, y))
        };
    proof {
        lemma_text_less_total(text::views(texts@));
    }
    sort_indices(texts.len(), &f, Ghost(text_less(text::views(texts@))))
}

pub proof fn lemma_text_less_total(texts: Seq<Seq<char>>)
    ensures
        strict_total(text_less(texts), texts.len() as int),
{
    let less = text_less(texts);
    let n = texts.len() as int;
    assert forall|a: int| 0 <= a < n implies !#[trigger] less(a, a) by {
        lemma_lex_irreflexive(texts[a]);
    }
    assert forall|a: int, b: int| 0 <= a < n && 0 <= b < n && a != b implies (#[trigger] less(a, b)
        <==> !less(b, a)) by {
        if texts[a] == texts[b] {
            lemma_lex_irreflexive(texts[a]);
        } else {
            lemma_lex_total(texts[a], texts[b]);
        }
    }
    assert forall|a: int, b: int, c: int|
        0 <= a < n && 0 <= b < n && 0 <= c < n && #[trigger] less(a, b) && #[trigger] less(
            b,
            c,
        ) implies less(a, c) by {
        if lex_less(texts[a], texts[b]) && lex_less(texts[b], texts[c]) {
            lemma_lex_transitive(texts[a], texts[b], texts[c]);
        }
    }
}

/// `items` in the order of a listing of their positions.
pub open spec fn arranged<T>(items: Seq<T>, order: Seq<usize>) -> Seq<T> {
    Seq::new(order.len(), |i: int| items[order[i] as int])
}

/// Move the items into the order of a listing of their positions.
pub fn permute<T>(items: Vec<T>, order: &Vec<usize>) -> (out: Vec<T>)
    requires
        covers(order@, 0, items@.len() as int),
        order@.no_duplicates(),
    ensures
        out@ == arranged(items@, order@),
{
    let ghost all = items@;
    let n: usize = items.len();
    let mut items = items;
    // Taken from the back, so that slot `j` holds item `n - 1 - j`.
    let mut slots: Vec<Option<T>> = Vec::new();
    while items.len() > 0
        invariant
            n == all.len(),
            items@.len() + slots@.len() == n,
            items@ == all.take(items@.len() as int),
            forall|j: int| 0 <= j < slots@.len() ==> #[trigger] slots@[j] == Some(all[n - 1 - j]),
        decreases items@.len(),
    {
        if let Some(x) = items.pop() {
            slots.push(Some(x));
        }
    }
    let mut out: Vec<T> = Vec::new();
    let mut i: usize = 0;
    while i < n
        invariant
            n == all.len(),
            covers(order@, 0, n as int),
            order@.no_duplicates(),
            slots@.len() == n,
            i <= n,
            out@.len() == i,
            forall|j: int| 0 <= j < i ==> #[trigger] out@[j] == all[order@[j] as int],
            forall|j: int|
                i <= j < n ==> slots@[n - 1 - #[trigger] order@[j]] == Some(
                    all[order@[j] as int],
                ),
        decreases n - i,
    {
        let at: usize = order[i];
        assert(order@[i as int] == at);
        let slot: usize = n - 1 - at;
        let taken: Option<T> = slots[slot].take();
        if let Some(x) = taken {
            out.push(x);
        }
        proof {
            assert forall|j: int| i < j < n implies slots@[n - 1 - #[trigger] order@[j]] == Some(
                all[order@[j] as int],
            ) by {
                assert(order@[j] != order@[i as int]);
            }
        }
        i += 1;
    }
    assert(out@ =~= arranged(all, order@));
    out
}

/// Texts in strict order.
pub open spec fn lex_sorted(texts: Seq<Seq<char>>) -> bool {
    forall|i: int, j: int| 0 <= i < j < texts.len() ==> lex_less(#[trigger] texts[i], #[trigger] texts[j])
}

/// Texts have one strict order.
pub proof fn lemma_lex_sorted_unique(a: Seq<Seq<char>>, b: Seq<Seq<char>>)
    requires
        lex_sorted(a),
        lex_sorted(b),
        forall|t: Seq<char>| #[trigger] a.contains(t) <==> b.contains(t),
    ensures
        a == b,
    decreases a.len(),
{
    if a.len() == 0 {
        if b.len() > 0 {
            assert(b.contains(b[0]));
            assert(a.contains(b[0]));
        }
        assert(a =~= b);
    } else {
        assert(a.contains(a[0]));
        assert(b.len() > 0);
        let (x, y) = (a.last(), b.last());
        assert(a.contains(x) && b.contains(y));
        assert(b.contains(x) && a.contains(y));
        assert(x == y) by {
            if x != y {
                let i = choose|i: int| 0 <= i < b.len() && b[i] == x;
                let j = choose|j: int| 0 <= j < a.len() && a[j] == y;
                assert(lex_less(b[i], b[b.len() - 1]));
                assert(lex_less(a[j], a[a.len() - 1]));
                lemma_lex_total(x, y);
            }
        }
        let (c, d) = (a.drop_last(), b.drop_last());
        assert forall|t: Seq<char>| #[trigger] c.contains(t) <==> d.contains(t) by {
            lemma_lex_irreflexive(x);
            if c.contains(t) {
                let i = choose|i: int| 0 <= i < c.len() && c[i] == t;
                assert(a[i] == t);
                assert(a.contains(t));
                assert(lex_less(a[i], a[a.len() - 1]));
                let j = choose|j: int| 0 <= j < b.len() && b[j] == t;
                assert(j < d.len());
                assert(d[j] == t);
            }
            if d.contains(t) {
                let i = choose|i: int| 0 <= i < d.len() && d[i] == t;
                assert(b[i] == t);
                assert(b.contains(t));
                assert(a.contains(t));
                assert(lex_less(b[i], b[b.len() - 1]));
                let j = choose|j: int| 0 <= j < a.len() && a[j] == t;
                assert(j < c.len());
                assert(c[j] == t);
            }
        }
        lemma_lex_sorted_unique(c, d);
        assert(a =~= c.push(x));
        assert(b =~= d.push(y));
    }
}

/// Texts are ordered by the first place where they differ; one that ends there
/// comes first.
pub proof fn law_dictionary_order(a: Seq<char>, b: Seq<char>)
    ensures
        lex_less(a, b) <==> exists|n: int|
            {
                &&& 0 <= n <= a.len()
                &&& n < b.len()
                &&& #[trigger] a.take(n) == b.take(n)
                &&& n == a.len() || a[n] < b[n]
            },
    decreases a.len(),
{
    if b.len() > 0 && a.len() > 0 && a[0] == b[0] {
        let x = a.drop_first();
        let y = b.drop_first();
        law_dictionary_order(x, y);
        if lex_less(a, b) {
            let n = choose|n: int|
                {
                    &&& 0 <= n <= x.len()
                    &&& n < y.len()
                    &&& #[trigger] x.take(n) == y.take(n)
                    &&& n == x.len() || x[n] < y[n]
                };
            assert(a.take(n + 1) =~= seq![a[0]] + x.take(n));
            assert(b.take(n + 1) =~= seq![b[0]] + y.take(n));
        }
        if exists|n: int|
            {
                &&& 0 <= n <= a.len()
                &&& n < b.len()
                &&& #[trigger] a.take(n) == b.take(n)
                &&& n == a.len() || a[n] < b[n]
            } {
            let n = choose|n: int|
                {
                    &&& 0 <= n <= a.len()
                    &&& n < b.len()
                    &&& #[trigger] a.take(n) == b.take(n)
                    &&& n == a.len() || a[n] < b[n]
                };
            assert(n > 0);
            assert(x.take(n - 1) =~= a.take(n).drop_first());
            assert(y.take(n - 1) =~= b.take(n).drop_first());
        }
    } else if b.len() > 0 {
        assert(a.take(0) =~= b.take(0));
        assert forall|n: int|
            {
                &&& 0 <= n <= a.len()
                &&& n < b.len()
                &&& #[trigger] a.take(n) == b.take(n)
                &&& n == a.len() || a[n] < b[n]
            } implies lex_less(a, b) by {
            if n > 0 {
                assert(a.take(n)[0] == b.take(n)[0]);
            }
        }
    }
}

} // verus!
