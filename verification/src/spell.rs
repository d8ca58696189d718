//! Query-time typo correction by symmetric deletes.
//!
//! The dictionary is the vocabulary of an index with its document
//! frequencies. For every term, the hashes of all strings that up to
//! [`MAX_ED`] deletions make of its first [`PREFIX_LEN`] characters point back
//! at the term. A misspelled word is looked up through the same deletions,
//! and every candidate is verified by its true edit distance. The lookup
//! misses nothing: a word and a term within the edit budget always share a
//! deletion ([`law_deletes_are_complete`]).

use crate::codec;
use crate::hash;
use crate::text;
use std::collections::HashMap;
use std::collections::HashSet;
use vstd::prelude::*;

verus! {

/// Maximum edit distance for long words. Words of three to five characters
/// are corrected at distance one, shorter ones never.
pub const MAX_ED: usize = 2;

/// Deletions are taken of this many leading characters.
pub const PREFIX_LEN: usize = 7;

/// Terms in fewer documents are no correction targets.
pub const MIN_DF: u32 = 3;

pub open spec fn min2(a: nat, b: nat) -> nat {
    if a <= b {
        a
    } else {
        b
    }
}

/// Optimal string alignment distance of the first `i` characters of `a` and
/// the first `j` of `b`: the least number of insertions, deletions,
/// substitutions and transpositions of neighbours that turns one into the
/// other, no substring being edited twice.
pub open spec fn osa(a: Seq<char>, b: Seq<char>, i: nat, j: nat) -> nat
    decreases i + j,
{
    if i == 0 {
        j
    } else if j == 0 {
        i
    } else {
        let cost: nat = if a[i - 1] == b[j - 1] {
            0
        } else {
            1
        };
        let plain = min2(
            min2(osa(a, b, (i - 1) as nat, j) + 1, osa(a, b, i, (j - 1) as nat) + 1),
            osa(a, b, (i - 1) as nat, (j - 1) as nat) + cost,
        );
        if i > 1 && j > 1 && a[i - 1] == b[j - 2] && a[i - 2] == b[j - 1] {
            min2(plain, osa(a, b, (i - 2) as nat, (j - 2) as nat) + 1)
        } else {
            plain
        }
    }
}

/// The edit distance of two words.
pub open spec fn distance(a: Seq<char>, b: Seq<char>) -> nat {
    osa(a, b, a.len(), b.len())
}

/// One edit. Each takes its own piece of the two words, so that no substring
/// is edited twice.
pub enum Edit {
    Keep,
    Insert,
    Delete,
    Replace,
    /// Exchange two neighbours.
    Swap,
}

/// The edits, done one after the other, turn the first `i` characters of `a`
/// into the first `j` of `b`.
pub open spec fn turns(e: Seq<Edit>, a: Seq<char>, b: Seq<char>, i: int, j: int) -> bool
    decreases e.len(),
{
    if e.len() == 0 {
        i == 0 && j == 0
    } else {
        let front = e.drop_last();
        match e.last() {
            Edit::Keep => i > 0 && j > 0 && a[i - 1] == b[j - 1] && turns(front, a, b, i - 1, j - 1),
            Edit::Insert => j > 0 && turns(front, a, b, i, j - 1),
            Edit::Delete => i > 0 && turns(front, a, b, i - 1, j),
            Edit::Replace => i > 0 && j > 0 && turns(front, a, b, i - 1, j - 1),
            Edit::Swap => i > 1 && j > 1 && a[i - 1] == b[j - 2] && a[i - 2] == b[j - 1] && turns(
                front,
                a,
                b,
                i - 2,
                j - 2,
            ),
        }
    }
}

/// How many of the edits change something.
pub open spec fn cost(e: Seq<Edit>) -> nat
    decreases e.len(),
{
    if e.len() == 0 {
        0
    } else {
        cost(e.drop_last()) + if e.last() is Keep {
            0nat
        } else {
            1
        }
    }
}

/// The distance is the least number of edits: some edits of that number turn
/// one word into the other, and no fewer do.
pub proof fn law_distance_is_least(a: Seq<char>, b: Seq<char>)
    ensures
        forall|e: Seq<Edit>| #[trigger]
            turns(e, a, b, a.len() as int, b.len() as int) ==> distance(a, b) <= cost(e),
        exists|e: Seq<Edit>| #[trigger]
            turns(e, a, b, a.len() as int, b.len() as int) && cost(e) == distance(a, b),
{
    assert forall|e: Seq<Edit>| #[trigger]
        turns(e, a, b, a.len() as int, b.len() as int) implies distance(a, b) <= cost(e) by {
        lemma_no_cheaper(e, a, b, a.len(), b.len());
    }
    let e = lemma_cheapest(a, b, a.len(), b.len());
    assert(turns(e, a, b, a.len() as int, b.len() as int));
}

proof fn lemma_no_cheaper(e: Seq<Edit>, a: Seq<char>, b: Seq<char>, i: nat, j: nat)
    requires
        turns(e, a, b, i as int, j as int),
    ensures
        osa(a, b, i, j) <= cost(e),
    decreases e.len(),
{
    if e.len() > 0 {
        let front = e.drop_last();
        match e.last() {
            Edit::Keep => lemma_no_cheaper(front, a, b, (i - 1) as nat, (j - 1) as nat),
            Edit::Insert => lemma_no_cheaper(front, a, b, i, (j - 1) as nat),
            Edit::Delete => lemma_no_cheaper(front, a, b, (i - 1) as nat, j),
            Edit::Replace => lemma_no_cheaper(front, a, b, (i - 1) as nat, (j - 1) as nat),
            Edit::Swap => lemma_no_cheaper(front, a, b, (i - 2) as nat, (j - 2) as nat),
        }
    }
}

proof fn lemma_cheapest(a: Seq<char>, b: Seq<char>, i: nat, j: nat) -> (e: Seq<Edit>)
    ensures
        turns(e, a, b, i as int, j as int),
        cost(e) == osa(a, b, i, j),
    decreases i + j,
{
    let d = osa(a, b, i, j);
    if i == 0 && j == 0 {
        Seq::empty()
    } else {
        let (front, last) = if i == 0 || (j > 0 && d == osa(a, b, i, (j - 1) as nat) + 1) {
            (lemma_cheapest(a, b, i, (j - 1) as nat), Edit::Insert)
        } else if j == 0 || d == osa(a, b, (i - 1) as nat, j) + 1 {
            (lemma_cheapest(a, b, (i - 1) as nat, j), Edit::Delete)
        } else if a[i - 1] == b[j - 1] && d == osa(a, b, (i - 1) as nat, (j - 1) as nat) {
            (lemma_cheapest(a, b, (i - 1) as nat, (j - 1) as nat), Edit::Keep)
        } else if d == osa(a, b, (i - 1) as nat, (j - 1) as nat) + 1 {
            (lemma_cheapest(a, b, (i - 1) as nat, (j - 1) as nat), Edit::Replace)
        } else {
            (lemma_cheapest(a, b, (i - 2) as nat, (j - 2) as nat), Edit::Swap)
        };
        let e = front.push(last);
        assert(e.drop_last() =~= front);
        e
    }
}

proof fn lemma_osa_bound(a: Seq<char>, b: Seq<char>, i: nat, j: nat)
    ensures
        osa(a, b, i, j) <= i || osa(a, b, i, j) <= j,
    decreases i + j,
{
    if i > 0 && j > 0 {
        lemma_osa_bound(a, b, (i - 1) as nat, (j - 1) as nat);
    }
}

proof fn lemma_osa_symmetric(a: Seq<char>, b: Seq<char>, i: nat, j: nat)
    ensures
        osa(a, b, i, j) == osa(b, a, j, i),
    decreases i + j,
{
    if i > 0 && j > 0 {
        lemma_osa_symmetric(a, b, (i - 1) as nat, j);
        lemma_osa_symmetric(a, b, i, (j - 1) as nat);
        lemma_osa_symmetric(a, b, (i - 1) as nat, (j - 1) as nat);
        if i > 1 && j > 1 {
            lemma_osa_symmetric(a, b, (i - 2) as nat, (j - 2) as nat);
        }
    }
}

proof fn lemma_osa_zero(a: Seq<char>, b: Seq<char>, i: nat, j: nat)
    requires
        i <= a.len(),
        j <= b.len(),
    ensures
        osa(a, b, i, j) == 0 <==> a.take(i as int) == b.take(j as int),
    decreases i + j,
{
    let (x, y) = (a.take(i as int), b.take(j as int));
    if i == 0 || j == 0 {
        assert(i == j ==> x =~= y);
        assert(x == y ==> x.len() == y.len());
    } else {
        lemma_osa_zero(a, b, (i - 1) as nat, (j - 1) as nat);
        assert(x.drop_last() =~= a.take(i - 1));
        assert(y.drop_last() =~= b.take(j - 1));
        assert(x =~= x.drop_last().push(a[i - 1]));
        assert(y =~= y.drop_last().push(b[j - 1]));
        if x == y {
            assert(x.last() == y.last());
        }
    }
}

/// The edit distance is a distance between words: it does not depend on
/// their order, is zero for equal words alone, and lies between the
/// difference of the lengths and the longer length.
pub proof fn law_distance_measures(a: Seq<char>, b: Seq<char>)
    ensures
        distance(a, b) == distance(b, a),
        distance(a, b) == 0 <==> a == b,
        a.len() <= b.len() + distance(a, b),
        b.len() <= a.len() + distance(a, b),
        distance(a, b) <= a.len() || distance(a, b) <= b.len(),
{
    lemma_osa_symmetric(a, b, a.len(), b.len());
    lemma_osa_zero(a, b, a.len(), b.len());
    assert(a.take(a.len() as int) =~= a);
    assert(b.take(b.len() as int) =~= b);
    lemma_length_gap(a, b);
    lemma_osa_bound(a, b, a.len(), b.len());
}

/// An entry of the table from its neighbours.
pub open spec fn cell(up: nat, left: nat, corner: nat, same: bool, swap: Option<nat>) -> nat {
    let plain = min2(
        min2(up + 1, left + 1),
        corner + if same {
            0nat
        } else {
            1
        },
    );
    match swap {
        Some(s) => min2(plain, s + 1),
        None => plain,
    }
}

proof fn lemma_cell(a: Seq<char>, b: Seq<char>, i: nat, j: nat)
    ensures
        osa(a, b, i + 1, j + 1) == cell(
            osa(a, b, i, j + 1),
            osa(a, b, i + 1, j),
            osa(a, b, i, j),
            a[i as int] == b[j as int],
            (if i > 0 && j > 0 && a[i as int] == b[j - 1] && a[i - 1] == b[j as int] {
                Some(osa(a, b, (i - 1) as nat, (j - 1) as nat))
            } else {
                None
            }),
        ),
{
}

proof fn lemma_edge(a: Seq<char>, b: Seq<char>, i: nat)
    ensures
        osa(a, b, i, 0) == i,
{
}

/// The cheapest way to an entry. No entry exceeds the longer prefix, so that
/// saturation never shows.
fn cheapest(
    up: usize,
    left: usize,
    corner: usize,
    same: bool,
    swap: Option<usize>,
    Ghost(v): Ghost<nat>,
) -> (best: usize)
    requires
        v <= usize::MAX,
        v == cell(
            up as nat,
            left as nat,
            corner as nat,
            same,
            match swap {
                Some(s) => Some(s as nat),
                None => None,
            },
        ),
    ensures
        best == v,
{
    let mut best: usize = up.saturating_add(1);
    let inserted: usize = left.saturating_add(1);
    if inserted < best {
        best = inserted;
    }
    let replaced: usize = if same { corner } else { corner.saturating_add(1) };
    if replaced < best {
        best = replaced;
    }
    if let Some(s) = swap {
        let swapped: usize = s.saturating_add(1);
        if swapped < best {
            best = swapped;
        }
    }
    best
}

/// Edit distance of two words, over three rolling rows of the table. A row
/// leaves out the column of the empty prefix, which holds the row's number.
pub fn osa_distance(a: &[char], b: &[char]) -> (d: usize)
    ensures
        d == distance(a@, b@),
{
    let m: usize = a.len();
    let n: usize = b.len();
    let ghost sa = a@;
    let ghost sb = b@;
    if n == 0 {
        return m;
    }
    let mut prev2: Vec<usize> = Vec::new();
    let mut prev: Vec<usize> = Vec::new();
    let mut cur: Vec<usize> = Vec::new();
    let mut t: usize = 0;
    while t < n
        invariant
            t <= n,
            prev2@.len() == t,
            prev@.len() == t,
            cur@.len() == t,
            forall|c: int| 0 <= c < t ==> #[trigger] prev@[c] == osa(sa, sb, 0, (c + 1) as nat),
        decreases n - t,
    {
        prev2.push(0);
        prev.push(t + 1);
        cur.push(0);
        t += 1;
    }
    let mut i: usize = 0;
    while i < m
        invariant
            sa == a@,
            sb == b@,
            m == sa.len(),
            n == sb.len(),
            i <= m,
            prev2@.len() == n,
            prev@.len() == n,
            cur@.len() == n,
            forall|c: int|
                0 <= c < n ==> #[trigger] prev@[c] == osa(sa, sb, i as nat, (c + 1) as nat),
            i > 0 ==> forall|c: int|
                0 <= c < n ==> #[trigger] prev2@[c] == osa(sa, sb, (i - 1) as nat, (c + 1) as nat),
        decreases m - i,
    {
        let mut c: usize = 0;
        while c < n
            invariant
                sa == a@,
                sb == b@,
                m == sa.len(),
                n == sb.len(),
                i < m,
                c <= n,
                prev2@.len() == n,
                prev@.len() == n,
                cur@.len() == n,
                forall|c: int|
                    0 <= c < n ==> #[trigger] prev@[c] == osa(sa, sb, i as nat, (c + 1) as nat),
                i > 0 ==> forall|c: int|
                    0 <= c < n ==> #[trigger] prev2@[c] == osa(
                        sa,
                        sb,
                        (i - 1) as nat,
                        (c + 1) as nat,
                    ),
                forall|q: int|
                    0 <= q < c ==> #[trigger] cur@[q] == osa(sa, sb, (i + 1) as nat, (q + 1) as nat),
            decreases n - c,
        {
            let left: usize = if c == 0 { i + 1 } else { cur[c - 1] };
            let corner: usize = if c == 0 { i } else { prev[c - 1] };
            let swap: Option<usize> = if i > 0 && c > 0 && a[i] == b[c - 1] && a[i - 1] == b[c] {
                Some(if c == 1 { i - 1 } else { prev2[c - 2] })
            } else {
                None
            };
            proof {
                lemma_edge(sa, sb, (i + 1) as nat);
                lemma_edge(sa, sb, i as nat);
                if i > 0 {
                    lemma_edge(sa, sb, (i - 1) as nat);
                }
                lemma_cell(sa, sb, i as nat, c as nat);
                lemma_osa_bound(sa, sb, (i + 1) as nat, (c + 1) as nat);
            }
            let best: usize = cheapest(
                prev[c],
                left,
                corner,
                a[i] == b[c],
                swap,
                Ghost(osa(sa, sb, (i + 1) as nat, (c + 1) as nat)),
            );
            cur.set(c, best);
            c += 1;
        }
        let recycled = prev2;
        prev2 = prev;
        prev = cur;
        cur = recycled;
        i += 1;
    }
    prev[n - 1]
}

/// `t` is `w` without its `i`-th character.
pub open spec fn removed(w: Seq<char>, i: int, t: Seq<char>) -> bool {
    0 <= i < w.len() && t == w.remove(i)
}

/// `t` is what `n` deletions of single characters leave of `s`.
pub open spec fn deletion(s: Seq<char>, t: Seq<char>, n: nat) -> bool
    decreases n,
{
    if n == 0 {
        s == t
    } else {
        exists|w: Seq<char>, i: int| #[trigger] removed(w, i, t) && deletion(s, w, (n - 1) as nat)
    }
}

/// `t` is what at most `n` deletions leave of `s`.
pub open spec fn within(s: Seq<char>, t: Seq<char>, n: nat) -> bool {
    exists|m: nat| m <= n && #[trigger] deletion(s, t, m)
}

proof fn lemma_deletion_len(s: Seq<char>, t: Seq<char>, n: nat)
    requires
        deletion(s, t, n),
    ensures
        t.len() + n == s.len(),
    decreases n,
{
    if n > 0 {
        let (w, i) = choose|w: Seq<char>, i: int| #[trigger]
            removed(w, i, t) && deletion(s, w, (n - 1) as nat);
        lemma_deletion_len(s, w, (n - 1) as nat);
    }
}

/// The leading characters that deletions are taken of.
pub open spec fn prefix_of(word: Seq<char>) -> Seq<char> {
    if word.len() > PREFIX_LEN {
        word.take(PREFIX_LEN as int)
    } else {
        word
    }
}

/// Some element of `out` has the characters `t`.
pub open spec fn listed(out: Seq<Vec<char>>, t: Seq<char>) -> bool {
    exists|i: int| 0 <= i < out.len() && (#[trigger] out[i])@ == t
}

fn same_chars(a: &Vec<char>, b: &Vec<char>) -> (r: bool)
    ensures
        r == (a@ == b@),
{
    if a.len() != b.len() {
        return false;
    }
    let mut i: usize = 0;
    while i < a.len()
        invariant
            a@.len() == b@.len(),
            i <= a@.len(),
            forall|k: int| 0 <= k < i ==> #[trigger] a@[k] == b@[k],
        decreases a@.len() - i,
    {
        if a[i] != b[i] {
            return false;
        }
        i += 1;
    }
    assert(a@ =~= b@);
    true
}

fn is_listed(out: &Vec<Vec<char>>, t: &Vec<char>) -> (r: bool)
    ensures
        r == listed(out@, t@),
{
    let mut i: usize = 0;
    while i < out.len()
        invariant
            i <= out@.len(),
            forall|k: int| 0 <= k < i ==> (#[trigger] out@[k])@ != t@,
        decreases out@.len() - i,
    {
        if same_chars(&out[i], t) {
            assert(out@[i as int]@ == t@);
            return true;
        }
        i += 1;
    }
    false
}

fn without(w: &Vec<char>, at: usize) -> (out: Vec<char>)
    requires
        at < w@.len(),
    ensures
        out@ == w@.remove(at as int),
{
    let mut out: Vec<char> = Vec::new();
    let mut i: usize = 0;
    while i < w.len()
        invariant
            at < w@.len(),
            i <= w@.len(),
            out@ == w@.take(i as int) || i > at,
            i > at ==> out@ == w@.take(i as int).remove(at as int),
            i <= at ==> out@ == w@.take(i as int),
        decreases w@.len() - i,
    {
        if i != at {
            out.push(w[i]);
        }
        proof {
            if i == at {
                assert(w@.take(i + 1).remove(at as int) =~= w@.take(i as int));
            } else if i < at {
                assert(out@ =~= w@.take(i + 1));
            } else {
                assert(out@ =~= w@.take(i + 1).remove(at as int));
            }
        }
        i += 1;
    }
    assert(w@.take(i as int) =~= w@);
    out
}

fn copy_chars(w: &Vec<char>) -> (out: Vec<char>)
    ensures
        out@ == w@,
{
    let mut out: Vec<char> = Vec::new();
    let mut i: usize = 0;
    while i < w.len()
        invariant
            i <= w@.len(),
            out@ == w@.take(i as int),
        decreases w@.len() - i,
    {
        out.push(w[i]);
        assert(out@ =~= w@.take(i + 1));
        i += 1;
    }
    assert(out@ =~= w@);
    out
}

proof fn lemma_listed_push(out: Seq<Vec<char>>, v: Vec<char>, t: Seq<char>)
    ensures
        listed(out.push(v), t) <==> listed(out, t) || v@ == t,
{
    if listed(out, t) {
        let i = choose|i: int| 0 <= i < out.len() && (#[trigger] out[i])@ == t;
        assert(out.push(v)[i]@ == t);
    }
    if v@ == t {
        assert(out.push(v)[out.len() as int]@ == t);
    }
    if listed(out.push(v), t) {
        let i = choose|i: int| 0 <= i < out.push(v).len() && (#[trigger] out.push(v)[i])@ == t;
        if i < out.len() {
            assert(out[i]@ == t);
        }
    }
}

/// All strings reachable from the first [`PREFIX_LEN`] characters of `word`
/// by deleting up to `max_ed` characters, the prefix itself among them, each
/// once.
pub fn delete_variants(word: &str, max_ed: usize) -> (out: Vec<Vec<char>>)
    ensures
        forall|t: Seq<char>| #[trigger]
            listed(out@, t) <==> within(prefix_of(word@), t, max_ed as nat),
        forall|i: int, j: int| 0 <= i < j < out@.len() ==> (#[trigger] out@[i])@ != (#[trigger] out@[j])@,
{
    let all = text::chars_of(word);
    let ghost p = prefix_of(word@);
    let mut prefix: Vec<char> = Vec::new();
    let mut i: usize = 0;
    while i < all.len() && i < PREFIX_LEN
        invariant
            all@ == word@,
            i <= all@.len(),
            i <= PREFIX_LEN,
            prefix@ == all@.take(i as int),
        decreases all@.len() - i,
    {
        prefix.push(all[i]);
        assert(prefix@ =~= all@.take(i + 1));
        i += 1;
    }
    assert(prefix@ =~= p);
    let mut out: Vec<Vec<char>> = Vec::new();
    let mut frontier: Vec<Vec<char>> = Vec::new();
    out.push(copy_chars(&prefix));
    frontier.push(prefix);
    let mut round: usize = 0;
    proof {
        assert(deletion(p, p, 0));
        assert forall|t: Seq<char>| #[trigger] listed(out@, t) <==> within(p, t, 0) by {
            if listed(out@, t) {
                assert(deletion(p, t, 0));
            }
            if within(p, t, 0) {
                let m = choose|m: nat| m <= 0 && #[trigger] deletion(p, t, m);
                assert(out@[0]@ == t);
            }
        }
        assert forall|t: Seq<char>| #[trigger] listed(frontier@, t) <==> deletion(p, t, 0) by {
            if deletion(p, t, 0) {
                assert(frontier@[0]@ == t);
            }
        }
    }
    while round < max_ed
        invariant
            round <= max_ed,
            forall|t: Seq<char>| #[trigger] listed(out@, t) <==> within(p, t, round as nat),
            forall|t: Seq<char>| #[trigger]
                listed(frontier@, t) <==> deletion(p, t, round as nat),
            forall|i: int, j: int|
                0 <= i < j < out@.len() ==> (#[trigger] out@[i])@ != (#[trigger] out@[j])@,
        decreases max_ed - round,
    {
        let ghost base = out@;
        let ghost next_level = (round + 1) as nat;
        let mut next: Vec<Vec<char>> = Vec::new();
        let mut f: usize = 0;
        while f < frontier.len()
            invariant
                next_level == round + 1,
                f <= frontier@.len(),
                forall|t: Seq<char>| #[trigger]
                    listed(frontier@, t) <==> deletion(p, t, round as nat),
                forall|t: Seq<char>| #[trigger] listed(base, t) <==> within(p, t, round as nat),
                forall|t: Seq<char>| #[trigger]
                    listed(out@, t) <==> listed(base, t) || listed(next@, t),
                forall|t: Seq<char>| #[trigger] listed(next@, t) ==> deletion(p, t, next_level),
                forall|q: int, i: int|
                    #![trigger frontier@[q]@.remove(i)]
                    0 <= q < f && 0 <= i < frontier@[q]@.len() ==> listed(
                        next@,
                        frontier@[q]@.remove(i),
                    ),
                forall|i: int, j: int|
                    0 <= i < j < out@.len() ==> (#[trigger] out@[i])@ != (#[trigger] out@[j])@,
            decreases frontier@.len() - f,
        {
            let ghost w = frontier@[f as int]@;
            assert(listed(frontier@, w));
            let mut at: usize = 0;
            let width: usize = frontier[f].len();
            while at < width
                invariant
                    next_level == round + 1,
                    f < frontier@.len(),
                    w == frontier@[f as int]@,
                    width == w.len(),
                    at <= width,
                    deletion(p, w, round as nat),
                    forall|t: Seq<char>| #[trigger] listed(base, t) <==> within(p, t, round as nat),
                    forall|t: Seq<char>| #[trigger]
                        listed(out@, t) <==> listed(base, t) || listed(next@, t),
                    forall|t: Seq<char>| #[trigger]
                        listed(next@, t) ==> deletion(p, t, next_level),
                    forall|q: int, i: int|
                        #![trigger frontier@[q]@.remove(i)]
                        0 <= q < f && 0 <= i < frontier@[q]@.len() ==> listed(
                            next@,
                            frontier@[q]@.remove(i),
                        ),
                    forall|i: int|
                        #![trigger w.remove(i)]
                        0 <= i < at ==> listed(next@, w.remove(i)),
                    forall|i: int, j: int|
                        0 <= i < j < out@.len() ==> (#[trigger] out@[i])@ != (#[trigger] out@[j])@,
                decreases width - at,
            {
                let deleted = without(&frontier[f], at);
                let ghost t0 = deleted@;
                let ghost old_next = next@;
                let ghost old_out = out@;
                proof {
                    assert(removed(w, at as int, t0));
                    assert(deletion(p, t0, next_level));
                }
                if !is_listed(&out, &deleted) {
                    out.push(copy_chars(&deleted));
                    next.push(deleted);
                    proof {
                        assert forall|t: Seq<char>| #[trigger]
                            listed(out@, t) <==> listed(base, t) || listed(next@, t) by {
                            lemma_listed_push(old_out, out@[old_out.len() as int], t);
                            lemma_listed_push(old_next, next@[old_next.len() as int], t);
                            assert(out@ =~= old_out.push(out@[old_out.len() as int]));
                            assert(next@ =~= old_next.push(next@[old_next.len() as int]));
                            assert(listed(old_out, t) <==> listed(base, t) || listed(old_next, t));
                        }
                        assert forall|t: Seq<char>| #[trigger] listed(next@, t) implies deletion(
                            p,
                            t,
                            next_level,
                        ) by {
                            lemma_listed_push(old_next, next@[old_next.len() as int], t);
                            assert(next@ =~= old_next.push(next@[old_next.len() as int]));
                        }
                        assert forall|q: int, i: int|
                            #![trigger frontier@[q]@.remove(i)]
                            0 <= q < f && 0 <= i < frontier@[q]@.len() implies listed(
                            next@,
                            frontier@[q]@.remove(i),
                        ) by {
                            lemma_listed_push(
                                old_next,
                                next@[old_next.len() as int],
                                frontier@[q]@.remove(i),
                            );
                            assert(next@ =~= old_next.push(next@[old_next.len() as int]));
                        }
                        assert forall|i: int|
                            #![trigger w.remove(i)]
                            0 <= i < at + 1 implies listed(next@, w.remove(i)) by {
                            lemma_listed_push(old_next, next@[old_next.len() as int], w.remove(i));
                            assert(next@ =~= old_next.push(next@[old_next.len() as int]));
                        }
                        assert forall|i: int, j: int| 0 <= i < j < out@.len() implies (
                        #[trigger] out@[i])@ != (#[trigger] out@[j])@ by {
                            if j == old_out.len() {
                                if out@[i]@ == out@[j]@ {
                                    assert(old_out[i]@ == t0);
                                    assert(listed(old_out, t0));
                                }
                            }
                        }
                    }
                } else {
                    proof {
                        // Everything listed before this round is longer.
                        assert(listed(out@, t0));
                        if listed(base, t0) {
                            let m = choose|m: nat| m <= round as nat && #[trigger] deletion(p, t0, m);
                            lemma_deletion_len(p, t0, m);
                            lemma_deletion_len(p, t0, next_level);
                        }
                        assert(listed(next@, t0));
                    }
                }
                at += 1;
            }
            f += 1;
        }
        proof {
            assert forall|t: Seq<char>| #[trigger] listed(next@, t) <==> deletion(p, t, next_level) by {
                if deletion(p, t, next_level) {
                    let (w, i) = choose|w: Seq<char>, i: int| #[trigger]
                        removed(w, i, t) && deletion(p, w, (next_level - 1) as nat);
                    assert(deletion(p, w, round as nat));
                    assert(listed(frontier@, w));
                    let q = choose|q: int| 0 <= q < frontier@.len() && (#[trigger] frontier@[q])@ == w;
                    assert(listed(next@, frontier@[q]@.remove(i)));
                }
            }
            assert forall|t: Seq<char>| #[trigger] listed(out@, t) <==> within(p, t, next_level) by {
                assert(listed(out@, t) <==> listed(base, t) || listed(next@, t));
                if listed(base, t) {
                    let m = choose|m: nat| m <= round as nat && #[trigger] deletion(p, t, m);
                    assert(m <= next_level && deletion(p, t, m));
                }
                if listed(next@, t) {
                    assert(deletion(p, t, next_level));
                }
                if within(p, t, next_level) {
                    let m = choose|m: nat| m <= next_level && #[trigger] deletion(p, t, m);
                    if m <= round {
                        assert(within(p, t, round as nat));
                    }
                }
            }
        }
        frontier = next;
        round += 1;
    }
    out
}

/// `t` is a subsequence of `s`.
pub open spec fn subsequence(s: Seq<char>, t: Seq<char>) -> bool
    decreases s.len(),
{
    if t.len() == 0 {
        true
    } else if s.len() == 0 {
        false
    } else {
        ||| s.last() == t.last() && subsequence(s.drop_last(), t.drop_last())
        ||| subsequence(s.drop_last(), t)
    }
}

proof fn lemma_subsequence_len(s: Seq<char>, t: Seq<char>)
    requires
        subsequence(s, t),
    ensures
        t.len() <= s.len(),
        t.len() == s.len() ==> s == t,
    decreases s.len(),
{
    if t.len() > 0 {
        if s.last() == t.last() && subsequence(s.drop_last(), t.drop_last()) {
            lemma_subsequence_len(s.drop_last(), t.drop_last());
            if t.len() == s.len() {
                assert(s =~= s.drop_last().push(s.last()));
                assert(t =~= t.drop_last().push(t.last()));
            }
        } else {
            lemma_subsequence_len(s.drop_last(), t);
        }
    } else if s.len() == 0 {
        assert(s =~= t);
    }
}

proof fn lemma_deletion_push(s: Seq<char>, t: Seq<char>, n: nat, c: char)
    requires
        deletion(s, t, n),
    ensures
        deletion(s.push(c), t.push(c), n),
    decreases n,
{
    if n > 0 {
        let (w, i) = choose|w: Seq<char>, i: int| #[trigger]
            removed(w, i, t) && deletion(s, w, (n - 1) as nat);
        lemma_deletion_push(s, w, (n - 1) as nat, c);
        assert(t.push(c) =~= w.push(c).remove(i));
        assert(removed(w.push(c), i, t.push(c)));
    }
}

/// A subsequence is what deletions leave.
proof fn lemma_subsequence_deletion(s: Seq<char>, t: Seq<char>)
    requires
        subsequence(s, t),
    ensures
        t.len() <= s.len(),
        deletion(s, t, (s.len() - t.len()) as nat),
    decreases s.len(),
{
    lemma_subsequence_len(s, t);
    if s.len() == t.len() {
    } else {
        let c = s.last();
        let r = s.drop_last();
        assert(s =~= r.push(c));
        if t.len() > 0 && c == t.last() && subsequence(r, t.drop_last()) {
            lemma_subsequence_deletion(r, t.drop_last());
            lemma_deletion_push(r, t.drop_last(), (r.len() - t.len() + 1) as nat, c);
            assert(t =~= t.drop_last().push(c));
        } else {
            assert(subsequence(r, t));
            let n = (r.len() - t.len()) as nat;
            lemma_subsequence_deletion(r, t);
            lemma_deletion_push(r, t, n, c);
            assert(t.push(c).remove(t.len() as int) =~= t);
            assert(removed(t.push(c), t.len() as int, t));
        }
    }
}

/// Words at distance `e` share a subsequence that lacks at most `e`
/// characters of either.
proof fn lemma_osa_common(a: Seq<char>, b: Seq<char>, i: nat, j: nat) -> (t: Seq<char>)
    requires
        i <= a.len(),
        j <= b.len(),
    ensures
        subsequence(a.take(i as int), t),
        subsequence(b.take(j as int), t),
        t.len() + osa(a, b, i, j) >= i,
        t.len() + osa(a, b, i, j) >= j,
    decreases i + j,
{
    let sa = a.take(i as int);
    let sb = b.take(j as int);
    let e = osa(a, b, i, j);
    if i == 0 || j == 0 {
        Seq::empty()
    } else {
        assert(sa.drop_last() =~= a.take(i - 1));
        assert(sb.drop_last() =~= b.take(j - 1));
        assert(sa.last() == a[i - 1]);
        assert(sb.last() == b[j - 1]);
        if e == osa(a, b, (i - 1) as nat, j) + 1 {
            let t = lemma_osa_common(a, b, (i - 1) as nat, j);
            t
        } else if e == osa(a, b, i, (j - 1) as nat) + 1 {
            let t = lemma_osa_common(a, b, i, (j - 1) as nat);
            t
        } else if a[i - 1] == b[j - 1] && e == osa(a, b, (i - 1) as nat, (j - 1) as nat) {
            let t = lemma_osa_common(a, b, (i - 1) as nat, (j - 1) as nat);
            let x = t.push(a[i - 1]);
            assert(x.drop_last() =~= t);
            x
        } else if e == osa(a, b, (i - 1) as nat, (j - 1) as nat) + 1 {
            let t = lemma_osa_common(a, b, (i - 1) as nat, (j - 1) as nat);
            t
        } else {
            // Neighbours swapped.
            let t = lemma_osa_common(a, b, (i - 2) as nat, (j - 2) as nat);
            let x = t.push(a[i - 1]);
            assert(x.drop_last() =~= t);
            let ra = sa.drop_last();
            let rb = sb.drop_last();
            assert(ra.drop_last() =~= a.take(i - 2));
            assert(rb.drop_last() =~= b.take(j - 2));
            assert(rb.last() == b[j - 2]);
            assert(subsequence(ra, t));
            assert(subsequence(rb, x));
            x
        }
    }
}

/// Cutting the longer word cuts the subsequence by no more.
proof fn lemma_subsequence_cut(s: Seq<char>, t: Seq<char>, p: int) -> (k: int)
    requires
        subsequence(s, t),
        0 <= p <= s.len(),
    ensures
        0 <= k <= t.len(),
        t.len() - k <= s.len() - p,
        subsequence(s.take(p), t.take(k)),
    decreases s.len(),
{
    if p == s.len() {
        assert(s.take(p) =~= s);
        assert(t.take(t.len() as int) =~= t);
        t.len() as int
    } else if t.len() == 0 {
        0
    } else {
        let r = s.drop_last();
        assert(r.take(p) =~= s.take(p));
        if s.last() == t.last() && subsequence(r, t.drop_last()) {
            let k = lemma_subsequence_cut(r, t.drop_last(), p);
            assert(t.drop_last().take(k) =~= t.take(k));
            k
        } else {
            lemma_subsequence_cut(r, t, p)
        }
    }
}

proof fn lemma_subsequence_shorter(s: Seq<char>, t: Seq<char>, k: int)
    requires
        subsequence(s, t),
        0 <= k <= t.len(),
    ensures
        subsequence(s, t.take(k)),
    decreases s.len(),
{
    if k == t.len() {
        assert(t.take(k) =~= t);
    } else if k > 0 {
        let r = s.drop_last();
        if s.last() == t.last() && subsequence(r, t.drop_last()) {
            lemma_subsequence_shorter(r, t.drop_last(), k);
            assert(t.drop_last().take(k) =~= t.take(k));
        } else {
            lemma_subsequence_shorter(r, t, k);
        }
        assert(subsequence(r, t.take(k)));
    }
}

/// Two words within distance `d` share a string that at most `d` deletions
/// make of the leading characters of each: looking up by deletions misses no
/// correction.
pub proof fn law_deletes_are_complete(a: Seq<char>, b: Seq<char>, d: nat)
    requires
        distance(a, b) <= d,
    ensures
        exists|t: Seq<char>|
            #![trigger within(prefix_of(a), t, d)]
            within(prefix_of(a), t, d) && within(prefix_of(b), t, d),
{
    let t = lemma_osa_common(a, b, a.len(), b.len());
    assert(a.take(a.len() as int) =~= a);
    assert(b.take(b.len() as int) =~= b);
    let pa = prefix_of(a);
    let pb = prefix_of(b);
    assert(pa =~= a.take(pa.len() as int));
    assert(pb =~= b.take(pb.len() as int));
    let ka = lemma_subsequence_cut(a, t, pa.len() as int);
    let kb = lemma_subsequence_cut(b, t, pb.len() as int);
    let k = if ka <= kb {
        ka
    } else {
        kb
    };
    let u = t.take(k);
    lemma_subsequence_shorter(pa, t.take(ka), k);
    lemma_subsequence_shorter(pb, t.take(kb), k);
    assert(t.take(ka).take(k) =~= u);
    assert(t.take(kb).take(k) =~= u);
    lemma_subsequence_deletion(pa, u);
    lemma_subsequence_deletion(pb, u);
    assert(pa.len() - k <= d && pb.len() - k <= d);
    assert(within(pa, u, d)) by {
        assert(deletion(pa, u, (pa.len() - k) as nat));
    }
    assert(within(pb, u, d)) by {
        assert(deletion(pb, u, (pb.len() - k) as nat));
    }
}

/// Words further apart in length than `d` are further apart than `d`.
proof fn lemma_length_gap(a: Seq<char>, b: Seq<char>)
    ensures
        a.len() <= b.len() + distance(a, b),
        b.len() <= a.len() + distance(a, b),
{
    let t = lemma_osa_common(a, b, a.len(), b.len());
    assert(a.take(a.len() as int) =~= a);
    assert(b.take(b.len() as int) =~= b);
    lemma_subsequence_len(a, t);
    lemma_subsequence_len(b, t);
}

/// The code points of a word, four bytes each.
pub open spec fn code_bytes(t: Seq<char>) -> Seq<u8>
    decreases t.len(),
{
    if t.len() == 0 {
        Seq::empty()
    } else {
        code_bytes(t.drop_last()) + codec::le_bytes(t.last() as u32 as nat, 4)
    }
}

/// The key under which a string is looked up.
pub open spec fn string_hash(t: Seq<char>) -> u64 {
    hash::fnv1a_spec(code_bytes(t))
}

/// Hash of a string. Collisions are harmless: every candidate is verified by
/// edit distance.
pub fn hash_str(t: &[char]) -> (h: u64)
    ensures
        h == string_hash(t@),
{
    let mut bytes: Vec<u8> = Vec::new();
    let mut i: usize = 0;
    assert(t@.take(0) =~= Seq::<char>::empty());
    while i < t.len()
        invariant
            i <= t@.len(),
            bytes@ == code_bytes(t@.take(i as int)),
        decreases t@.len() - i,
    {
        proof {
            assert(t@.take(i + 1).drop_last() =~= t@.take(i as int));
            assert(t@.take(i + 1).last() == t@[i as int]);
        }
        let code: u32 = t[i] as u32;
        codec::push_le(&mut bytes, code as u64, 4);
        i += 1;
    }
    assert(t@.take(i as int) =~= t@);
    hash::fnv1a(&bytes)
}

/// The entries of a vocabulary that are correction targets, in order.
pub open spec fn targets(vocab: Seq<(String, u32)>) -> Seq<(Seq<char>, u32)>
    decreases vocab.len(),
{
    if vocab.len() == 0 {
        Seq::empty()
    } else {
        let front = targets(vocab.drop_last());
        if vocab.last().1 < MIN_DF {
            front
        } else {
            front.push((vocab.last().0@, vocab.last().1))
        }
    }
}

pub proof fn lemma_targets_len(vocab: Seq<(String, u32)>)
    ensures
        targets(vocab).len() <= vocab.len(),
    decreases vocab.len(),
{
    if vocab.len() > 0 {
        lemma_targets_len(vocab.drop_last());
    }
}

proof fn lemma_targets_grow(vocab: Seq<(String, u32)>, i: int)
    requires
        0 <= i <= vocab.len(),
    ensures
        targets(vocab.take(i)).len() <= targets(vocab).len(),
    decreases vocab.len(),
{
    if i == vocab.len() {
        assert(vocab.take(i) =~= vocab);
    } else {
        lemma_targets_grow(vocab.drop_last(), i);
        assert(vocab.drop_last().take(i) =~= vocab.take(i));
    }
}

/// The edit budget of a word: none under three characters, one up to five,
/// two beyond.
pub open spec fn budget(word: Seq<char>) -> nat {
    if word.len() < 3 {
        0
    } else if word.len() <= 5 {
        1
    } else {
        MAX_ED as nat
    }
}

/// `term` is a correction of `word`: not the word itself, within its budget.
pub open spec fn corrects(word: Seq<char>, term: Seq<char>) -> bool {
    1 <= distance(word, term) <= budget(word)
}

/// Target `x` is at least as good a correction of `word` as target `y`:
/// closer, or as close and as frequent.
pub open spec fn no_worse(word: Seq<char>, x: (Seq<char>, u32), y: (Seq<char>, u32)) -> bool {
    distance(word, x.0) < distance(word, y.0) || (distance(word, x.0) == distance(word, y.0) && x.1
        >= y.1)
}

/// The correction of `word` among the entries of `voc`: the closest within the
/// budget, the most frequent among the closest; none if none is within it.
pub open spec fn is_correction(
    voc: Seq<(Seq<char>, u32)>,
    word: Seq<char>,
    r: Option<Seq<char>>,
) -> bool {
    match r {
        None => forall|i: int| 0 <= i < voc.len() ==> !corrects(word, (#[trigger] voc[i]).0),
        Some(t) => exists|i: int|
            0 <= i < voc.len() && {
                &&& (#[trigger] voc[i]).0 == t
                &&& corrects(word, t)
                &&& forall|j: int|
                    0 <= j < voc.len() && corrects(word, (#[trigger] voc[j]).0) ==> no_worse(
                        word,
                        voc[i],
                        voc[j],
                    )
            },
    }
}

/// A pair of the vocabulary that is frequent enough to be a target.
pub open spec fn is_target(vocab: Seq<(String, u32)>, t: Seq<char>, df: u32) -> bool {
    df >= 3 && exists|i: int|
        0 <= i < vocab.len() && (#[trigger] vocab[i]).0@ == t && vocab[i].1 == df
}

/// The targets are the frequent pairs.
proof fn lemma_targets(vocab: Seq<(String, u32)>, t: Seq<char>, df: u32)
    ensures
        targets(vocab).contains((t, df)) <==> is_target(vocab, t, df),
    decreases vocab.len(),
{
    let all = targets(vocab);
    if vocab.len() > 0 {
        let front = vocab.drop_last();
        let head = targets(front);
        let last = vocab.last();
        lemma_targets(front, t, df);
        if all.contains((t, df)) {
            let i = choose|i: int| 0 <= i < all.len() && all[i] == (t, df);
            if i < head.len() {
                assert(head[i] == (t, df));
                let j = choose|j: int|
                    0 <= j < front.len() && (#[trigger] front[j]).0@ == t && front[j].1 == df;
                assert(vocab[j].0@ == t);
            } else {
                assert(vocab[vocab.len() - 1].0@ == t);
            }
        }
        if is_target(vocab, t, df) {
            let j = choose|j: int|
                0 <= j < vocab.len() && (#[trigger] vocab[j]).0@ == t && vocab[j].1 == df;
            if j < front.len() {
                assert(front[j].0@ == t);
                let i = choose|i: int| 0 <= i < head.len() && head[i] == (t, df);
                assert(all[i] == (t, df));
            } else {
                assert(all[head.len() as int] == (t, df));
            }
        }
    }
}

/// How many edits a word of `n` characters may be corrected by.
pub open spec fn allowed(n: nat) -> nat {
    if n < 3 {
        0
    } else if n <= 5 {
        1
    } else {
        2
    }
}

/// A correction comes from a frequent pair within the budget, and no frequent
/// pair other than the word itself is closer, or as close and more frequent.
pub proof fn law_correction_is_closest(
    vocab: Seq<(String, u32)>,
    word: Seq<char>,
    t: Seq<char>,
)
    requires
        is_correction(targets(vocab), word, Some(t)),
    ensures
        exists|df: u32|
            {
                &&& #[trigger] is_target(vocab, t, df)
                &&& 1 <= distance(word, t) <= allowed(word.len())
                &&& forall|u: Seq<char>, e: u32| #[trigger]
                    is_target(vocab, u, e) && distance(word, u) >= 1 ==> distance(word, t) < distance(
                        word,
                        u,
                    ) || (distance(word, t) == distance(word, u) && df >= e)
            },
{
    let voc = targets(vocab);
    let i = choose|i: int|
        0 <= i < voc.len() && {
            &&& (#[trigger] voc[i]).0 == t
            &&& corrects(word, t)
            &&& forall|j: int|
                0 <= j < voc.len() && corrects(word, (#[trigger] voc[j]).0) ==> no_worse(
                    word,
                    voc[i],
                    voc[j],
                )
        };
    let df = voc[i].1;
    assert(voc.contains((t, df)));
    lemma_targets(vocab, t, df);
    assert forall|u: Seq<char>, e: u32| #[trigger]
        is_target(vocab, u, e) && distance(word, u) >= 1 implies no_worse(
        word,
        (t, df),
        (u, e),
    ) by {
        lemma_targets(vocab, u, e);
        let j = choose|j: int| 0 <= j < voc.len() && voc[j] == (u, e);
        assert(voc[j].0 == u);
    }
}

/// There is no correction exactly if the word is shorter than three characters
/// or no frequent pair lies within the budget.
pub proof fn law_correction_misses_nothing(vocab: Seq<(String, u32)>, word: Seq<char>)
    ensures
        is_correction(targets(vocab), word, None) <==> word.len() < 3 || forall|t: Seq<char>, df: u32|
            #[trigger] is_target(vocab, t, df) ==> !(1 <= distance(word, t) <= allowed(word.len())),
{
    let voc = targets(vocab);
    if is_correction(voc, word, None) {
        assert forall|t: Seq<char>, df: u32| #[trigger] is_target(vocab, t, df) implies !(1
            <= distance(word, t) <= allowed(word.len())) by {
            lemma_targets(vocab, t, df);
            let i = choose|i: int| 0 <= i < voc.len() && voc[i] == (t, df);
            assert(!corrects(word, voc[i].0));
        }
    }
    if word.len() < 3 || forall|t: Seq<char>, df: u32| #[trigger]
        is_target(vocab, t, df) ==> !(1 <= distance(word, t) <= allowed(word.len())) {
        assert forall|i: int| 0 <= i < voc.len() implies !corrects(word, (#[trigger] voc[i]).0) by {
            assert(voc.contains((voc[i].0, voc[i].1)));
            lemma_targets(vocab, voc[i].0, voc[i].1);
        }
    }
}

/// The frequent pairs of a vocabulary, in order.
pub open spec fn frequent(vocab: Seq<(String, u32)>) -> Seq<(String, u32)>
    decreases vocab.len(),
{
    if vocab.len() == 0 {
        Seq::empty()
    } else if vocab.last().1 < MIN_DF {
        frequent(vocab.drop_last())
    } else {
        frequent(vocab.drop_last()).push(vocab.last())
    }
}

/// Rare pairs have no effect: without them there is a correction for the same
/// words, as close and as frequent.
pub proof fn law_rare_terms_do_not_count(
    vocab: Seq<(String, u32)>,
    word: Seq<char>,
    r: Option<Seq<char>>,
    s: Option<Seq<char>>,
)
    requires
        is_correction(targets(vocab), word, r),
        is_correction(targets(frequent(vocab)), word, s),
    ensures
        targets(frequent(vocab)) == targets(vocab),
        r is None <==> s is None,
        r matches Some(t) ==> s matches Some(u) && distance(word, t) == distance(word, u)
            && exists|df: u32|
            #[trigger] is_target(frequent(vocab), t, df) && is_target(frequent(vocab), u, df),
{
    lemma_frequent(vocab);
    let voc = targets(vocab);
    if let Some(t) = r {
        let i = choose|i: int|
            0 <= i < voc.len() && {
                &&& (#[trigger] voc[i]).0 == t
                &&& corrects(word, t)
                &&& forall|j: int|
                    0 <= j < voc.len() && corrects(word, (#[trigger] voc[j]).0) ==> no_worse(
                        word,
                        voc[i],
                        voc[j],
                    )
            };
        assert(corrects(word, voc[i].0));
        if let Some(u) = s {
            let j = choose|j: int|
                0 <= j < voc.len() && {
                    &&& (#[trigger] voc[j]).0 == u
                    &&& corrects(word, u)
                    &&& forall|k: int|
                        0 <= k < voc.len() && corrects(word, (#[trigger] voc[k]).0) ==> no_worse(
                            word,
                            voc[j],
                            voc[k],
                        )
                };
            assert(no_worse(word, voc[i], voc[j]) && no_worse(word, voc[j], voc[i]));
            assert(voc.contains((t, voc[i].1)) && voc.contains((u, voc[i].1)));
            lemma_targets(frequent(vocab), t, voc[i].1);
            lemma_targets(frequent(vocab), u, voc[i].1);
        }
    } else if let Some(u) = s {
        let j = choose|j: int| 0 <= j < voc.len() && (#[trigger] voc[j]).0 == u && corrects(word, u);
        assert(corrects(word, voc[j].0));
    }
}

proof fn lemma_frequent(vocab: Seq<(String, u32)>)
    ensures
        targets(frequent(vocab)) == targets(vocab),
    decreases vocab.len(),
{
    if vocab.len() > 0 {
        lemma_frequent(vocab.drop_last());
        if vocab.last().1 >= MIN_DF {
            assert(frequent(vocab).drop_last() =~= frequent(vocab.drop_last()));
        }
    }
}

/// Typo corrector over a fixed vocabulary.
pub struct SpellCorrector {
    terms: Vec<(String, u32)>,
    deletes: HashMap<u64, Vec<u32>>,
}

impl SpellCorrector {
    /// The correction targets with their document frequencies.
    pub closed spec fn vocabulary(&self) -> Seq<(Seq<char>, u32)> {
        Seq::new(self.terms@.len(), |i: int| (self.terms@[i].0@, self.terms@[i].1))
    }

    /// Term `id` is found under the string `t`.
    spec fn indexed(&self, id: int, t: Seq<char>) -> bool {
        &&& self.deletes@.contains_key(string_hash(t))
        &&& self.deletes@[string_hash(t)]@.contains(id as u32)
    }

    /// Every target is found under every deletion of its leading characters.
    pub closed spec fn wf(&self) -> bool {
        &&& self.terms@.len() <= u32::MAX
        &&& forall|id: int, t: Seq<char>|
            #![trigger self.terms@[id], string_hash(t)]
            0 <= id < self.terms@.len() && within(prefix_of(self.terms@[id].0@), t, MAX_ED as nat)
                ==> self.indexed(id, t)
        &&& forall|h: u64, i: int|
            #![trigger self.deletes@[h]@[i]]
            self.deletes@.contains_key(h) && 0 <= i < self.deletes@[h]@.len()
                ==> self.deletes@[h]@[i] < self.terms@.len()
    }

    /// Build from (term, document frequency) pairs; terms in fewer than
    /// [`MIN_DF`] documents are left out.
    pub fn build(vocab: Vec<(String, u32)>) -> (c: Self)
        requires
            targets(vocab@).len() <= u32::MAX,
        ensures
            c.wf(),
            c.vocabulary() == targets(vocab@),
    {
        let mut c = SpellCorrector { terms: Vec::new(), deletes: HashMap::new() };
        let mut i: usize = 0;
        assert(vocab@.take(0) =~= Seq::<(String, u32)>::empty());
        assert(c.vocabulary() =~= Seq::<(Seq<char>, u32)>::empty());
        while i < vocab.len()
            invariant
                targets(vocab@).len() <= u32::MAX,
                i <= vocab@.len(),
                c.wf(),
                c.vocabulary() == targets(vocab@.take(i as int)),
            decreases vocab@.len() - i,
        {
            proof {
                assert(vocab@.take(i + 1).drop_last() =~= vocab@.take(i as int));
                assert(vocab@.take(i + 1).last() == vocab@[i as int]);
                lemma_targets_grow(vocab@, i + 1);
                assert(c.terms@.len() == c.vocabulary().len());
            }
            let ghost before = c;
            let df: u32 = vocab[i].1;
            if df >= MIN_DF {
                c.add(vocab[i].0.clone(), df);
                assert(c.vocabulary() =~= before.vocabulary().push((vocab@[i as int].0@, df)));
            }
            i += 1;
        }
        assert(vocab@.take(i as int) =~= vocab@);
        c
    }

    /// Add one target and the deletions under which it is found.
    fn add(&mut self, term: String, df: u32)
        requires
            old(self).wf(),
            old(self).terms@.len() < u32::MAX,
        ensures
            final(self).wf(),
            final(self).terms@ == old(self).terms@.push((term, df)),
    {
        let id: u32 = self.terms.len() as u32;
        let variants = delete_variants(term.as_str(), MAX_ED);
        let ghost before = *self;
        let ghost p = prefix_of(term@);
        let mut v: usize = 0;
        while v < variants.len()
            invariant
                before == *old(self),
                before.wf(),
                self.terms@ == before.terms@,
                id == before.terms@.len(),
                v <= variants@.len(),
                forall|k: int| 0 <= k < v ==> self.indexed(id as int, (#[trigger] variants@[k])@),
                forall|x: int, t: Seq<char>|
                    #![trigger before.terms@[x], string_hash(t)]
                    0 <= x < before.terms@.len() && within(
                        prefix_of(before.terms@[x].0@),
                        t,
                        MAX_ED as nat,
                    ) ==> self.indexed(x, t),
                forall|h: u64, i: int|
                    #![trigger self.deletes@[h]@[i]]
                    self.deletes@.contains_key(h) && 0 <= i < self.deletes@[h]@.len()
                        ==> self.deletes@[h]@[i] <= id,
            decreases variants@.len() - v,
        {
            let h: u64 = hash_str(variants[v].as_slice());
            let ghost mid = *self;
            let mut bucket: Vec<u32> = match self.deletes.remove(&h) {
                Some(found) => found,
                None => Vec::new(),
            };
            let ghost old_bucket = bucket@;
            bucket.push(id);
            let ghost new_bucket = bucket@;
            self.deletes.insert(h, bucket);
            proof {
                assert(new_bucket[old_bucket.len() as int] == id);
                assert forall|x: int, t: Seq<char>| mid.indexed(x, t) implies #[trigger] self.indexed(
                    x,
                    t,
                ) by {
                    if string_hash(t) == h {
                        let k = choose|k: int|
                            0 <= k < old_bucket.len() && old_bucket[k] == x as u32;
                        assert(new_bucket[k] == x as u32);
                    }
                }
                assert(self.indexed(id as int, variants@[v as int]@));
            }
            v += 1;
        }
        self.terms.push((term, df));
        proof {
            assert forall|x: int, t: Seq<char>|
                #![trigger self.terms@[x], string_hash(t)]
                0 <= x < self.terms@.len() && within(
                    prefix_of(self.terms@[x].0@),
                    t,
                    MAX_ED as nat,
                ) implies self.indexed(x, t) by {
                if x < before.terms@.len() {
                    assert(before.terms@[x] == self.terms@[x]);
                } else {
                    assert(listed(variants@, t));
                    let k = choose|k: int| 0 <= k < variants@.len() && (#[trigger] variants@[k])@ == t;
                    assert(variants@[k]@ == t);
                }
            }
        }
    }

    /// Best correction of `word`: the closest target within the budget, the
    /// most frequent among the closest; `None` if no target is within the
    /// budget. Which of several equally close and frequent targets is
    /// returned is left open.
    pub fn correct(&self, word: &str) -> (r: Option<&str>)
        requires
            self.wf(),
        ensures
            is_correction(
                self.vocabulary(),
                word@,
                match r {
                    Some(t) => Some(t@),
                    None => None,
                },
            ),
    {
        let word_chars = text::chars_of(word);
        let ghost w = word@;
        let ghost voc = self.vocabulary();
        if word_chars.len() < 3 {
            return None;
        }
        let max_ed: usize = if word_chars.len() <= 5 { 1 } else { MAX_ED };
        let mut seen: HashSet<u32> = HashSet::new();
        let mut best: Option<(usize, u32, u32)> = None;
        let variants = delete_variants(word, max_ed);
        let mut v: usize = 0;
        while v < variants.len()
            invariant
                self.wf(),
                w == word@,
                word_chars@ == w,
                w.len() >= 3,
                max_ed == budget(w),
                voc == self.vocabulary(),
                v <= variants@.len(),
                best_ok(w, voc, best),
                forall|id: u32|
                    seen@.contains(id) && id < voc.len() ==> beaten(
                        w,
                        voc,
                        best,
                        #[trigger] voc[id as int],
                    ),
                forall|k: int, q: int|
                    #![trigger self.deletes@[string_hash(variants@[k]@)]@[q]]
                    0 <= k < v && self.deletes@.contains_key(string_hash(variants@[k]@)) && 0 <= q
                        < self.deletes@[string_hash(variants@[k]@)]@.len() ==> seen@.contains(
                        self.deletes@[string_hash(variants@[k]@)]@[q],
                    ),
            decreases variants@.len() - v,
        {
            let h: u64 = hash_str(variants[v].as_slice());
            match self.deletes.get(&h) {
                None => {},
                Some(ids) => {
                    let mut q: usize = 0;
                    while q < ids.len()
                        invariant
                            self.wf(),
                            w == word@,
                            word_chars@ == w,
                            w.len() >= 3,
                            max_ed == budget(w),
                            voc == self.vocabulary(),
                            v < variants@.len(),
                            h == string_hash(variants@[v as int]@),
                            self.deletes@.contains_key(h),
                            ids@ == self.deletes@[h]@,
                            q <= ids@.len(),
                            best_ok(w, voc, best),
                            forall|id: u32|
                                seen@.contains(id) && id < voc.len() ==> beaten(
                                    w,
                                    voc,
                                    best,
                                    #[trigger] voc[id as int],
                                ),
                            forall|k: int, q: int|
                                #![trigger self.deletes@[string_hash(variants@[k]@)]@[q]]
                                0 <= k < v && self.deletes@.contains_key(
                                    string_hash(variants@[k]@),
                                ) && 0 <= q < self.deletes@[string_hash(variants@[k]@)]@.len()
                                    ==> seen@.contains(
                                    self.deletes@[string_hash(variants@[k]@)]@[q],
                                ),
                            forall|x: int| 0 <= x < q ==> seen@.contains(#[trigger] ids@[x]),
                        decreases ids@.len() - q,
                    {
                        let id: u32 = ids[q];
                        assert(self.deletes@[h]@[q as int] < self.terms@.len());
                        let ghost seen_before = seen@;
                        if seen.insert(id) {
                            let term_chars = text::chars_of(self.terms[id as usize].0.as_str());
                            let df: u32 = self.terms[id as usize].1;
                            let ghost target = voc[id as int];
                            let ghost best_before = best;
                            proof {
                                assert(target == (term_chars@, df));
                                lemma_length_gap(w, term_chars@);
                            }
                            let gap: usize = if term_chars.len() > word_chars.len() {
                                term_chars.len() - word_chars.len()
                            } else {
                                word_chars.len() - term_chars.len()
                            };
                            if gap <= max_ed {
                                let ed: usize = osa_distance(
                                    word_chars.as_slice(),
                                    term_chars.as_slice(),
                                );
                                if ed != 0 && ed <= max_ed {
                                    let better: bool = match best {
                                        None => true,
                                        Some((bed, bdf, _)) => ed < bed || (ed == bed && df > bdf),
                                    };
                                    if better {
                                        best = Some((ed, df, id));
                                    }
                                }
                            }
                            proof {
                                assert(beaten(w, voc, best, target));
                                assert forall|x: u32|
                                    seen@.contains(x) && x < voc.len() implies beaten(
                                    w,
                                    voc,
                                    best,
                                    #[trigger] voc[x as int],
                                ) by {
                                    if x != id {
                                        assert(seen_before.contains(x));
                                        assert(beaten(w, voc, best_before, voc[x as int]));
                                    }
                                }
                            }
                        }
                        q += 1;
                    }
                },
            }
            v += 1;
        }
        proof {
            assert forall|i: int|
                0 <= i < voc.len() && corrects(w, (#[trigger] voc[i]).0) implies beaten(
                w,
                voc,
                best,
                voc[i],
            ) by {
                let term = voc[i].0;
                law_deletes_are_complete(w, term, max_ed as nat);
                let t = choose|t: Seq<char>|
                    #![trigger within(prefix_of(w), t, max_ed as nat)]
                    within(prefix_of(w), t, max_ed as nat) && within(
                        prefix_of(term),
                        t,
                        max_ed as nat,
                    );
                assert(listed(variants@, t));
                let m = choose|m: nat| m <= max_ed as nat && #[trigger] deletion(prefix_of(term), t, m);
                assert(within(prefix_of(term), t, MAX_ED as nat));
                assert(term == self.terms@[i].0@);
                assert(self.indexed(i, t));
                let k = choose|k: int| 0 <= k < variants@.len() && (#[trigger] variants@[k])@ == t;
                let h = string_hash(variants@[k]@);
                let q = choose|q: int|
                    0 <= q < self.deletes@[h]@.len() && self.deletes@[h]@[q] == i as u32;
                assert(seen@.contains(self.deletes@[string_hash(variants@[k]@)]@[q]));
                assert(seen@.contains(i as u32));
                assert(voc[(i as u32) as int] == voc[i]);
            }
        }
        match best {
            None => None,
            Some((_, _, id)) => {
                let found: &str = self.terms[id as usize].0.as_str();
                assert(voc[id as int].0 == found@);
                Some(found)
            },
        }
    }
}

/// The best so far is a correction, with its distance and frequency.
spec fn best_ok(
    w: Seq<char>,
    voc: Seq<(Seq<char>, u32)>,
    best: Option<(usize, u32, u32)>,
) -> bool {
    match best {
        None => true,
        Some((ed, df, id)) => {
            &&& id < voc.len()
            &&& ed == distance(w, voc[id as int].0)
            &&& df == voc[id as int].1
            &&& corrects(w, voc[id as int].0)
        },
    }
}

/// `target` is no correction, or no better one than the best so far.
spec fn beaten(
    w: Seq<char>,
    voc: Seq<(Seq<char>, u32)>,
    best: Option<(usize, u32, u32)>,
    target: (Seq<char>, u32),
) -> bool {
    corrects(w, target.0) ==> match best {
        None => false,
        Some((_, _, id)) => no_worse(w, voc[id as int], target),
    }
}

} // verus!
