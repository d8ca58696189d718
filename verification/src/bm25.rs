//! BM25 scoring in fixed point.
//!
//! ```text
//! score(D, Q) = sum over query terms q of
//!     idf(q) * (tf * (k1 + 1)) / (tf + k1 * (1 - b + b * doc_len / avg_doc_len))
//! ```
//!
//! with `k1 = 1.2` and `b = 0.75`. Weights and scores are multiples of
//! `1 / ONE`, the average document length is a multiple of `1 / AVG_UNIT`
//! tokens, and a contribution is rounded down, though never to nothing. Multiplying the fraction out
//! by ten and by the average leaves integers only:
//!
//! ```text
//! idf * 22 * tf * avg / (10 * tf * avg + 3 * avg + 9 * AVG_UNIT * doc_len)
//! ```

use crate::logarithm;
use vstd::arithmetic::div_mod::*;
use vstd::prelude::*;

verus! {

/// The fixed-point score 1.
pub const ONE: u32 = 0x100_0000;

/// Denominator of a stored average document length.
pub const AVG_UNIT: u32 = 1024;

/// The natural logarithm of 2, as a multiple of 2^-32.
pub const LN_2: u64 = 2977044472;

/// The weight of a term that `df` of `num_docs` documents hold:
///
/// ```text
/// ln(1 + (num_docs - df + 1/2) / (df + 1/2)) = ln 2 * log2((2 * num_docs + 2) / (2 * df + 1))
/// ```
///
/// and at least the smallest weight there is: a weight is always positive,
/// also of a term that more documents hold than are counted.
pub open spec fn idf_spec(num_docs: nat, df: nat) -> nat {
    let bits = logarithm::lg(2 * num_docs + 2) - logarithm::lg(2 * df + 1);
    let w = (bits as nat * LN_2 as nat) / 0x1_0000_0000;
    if df > num_docs || w == 0 {
        1
    } else {
        w
    }
}

/// The weight of a term that `df` of `num_docs` documents hold.
pub fn idf(num_docs: usize, df: usize) -> (w: u32)
    requires
        num_docs <= u32::MAX,
    ensures
        w == idf_spec(num_docs as nat, df as nat),
{
    if df > num_docs {
        return 1;
    }
    let all: u64 = 2 * (num_docs as u64) + 2;
    let held: u64 = 2 * (df as u64) + 1;
    proof {
        logarithm::law_log_monotone(held as nat, all as nat);
        logarithm::law_log_monotone(all as nat, 0x8_0000_0000);
        assert(logarithm::lg(0x8_0000_0000) == 35 * logarithm::UNIT as nat) by {
            vstd::arithmetic::power2::lemma2_to64();
            vstd::arithmetic::power2::lemma2_to64_rest();
            logarithm::law_log_of_power(35);
        }
    }
    let bits: u64 = logarithm::log2(all) - logarithm::log2(held);
    let w: u32 = ((bits as u128 * LN_2 as u128) / 0x1_0000_0000) as u32;
    if w == 0 {
        1
    } else {
        w
    }
}

/// No term weighs more.
pub const MAX_IDF: u32 = 0x2000_0000;

/// No term weighs more than [`MAX_IDF`].
pub proof fn law_idf_bounded(num_docs: nat, df: nat)
    requires
        num_docs <= u32::MAX,
    ensures
        idf_spec(num_docs, df) <= MAX_IDF,
{
    let all = 2 * num_docs + 2;
    let held = 2 * df + 1;
    if df <= num_docs {
        logarithm::law_log_monotone(held, all);
    }
    logarithm::law_log_monotone(all, 0x8_0000_0000);
    assert(logarithm::lg(0x8_0000_0000) == 35 * logarithm::UNIT as nat) by {
        vstd::arithmetic::power2::lemma2_to64();
        vstd::arithmetic::power2::lemma2_to64_rest();
        logarithm::law_log_of_power(35);
    }
    let bits: nat = if df <= num_docs {
        (logarithm::lg(all) - logarithm::lg(held)) as nat
    } else {
        0
    };
    assert(bits * LN_2 as nat <= (35 * logarithm::UNIT as nat) * LN_2 as nat) by (nonlinear_arith)
        requires
            bits <= 35 * logarithm::UNIT as nat,
    ;
}

/// The weight of a term is the natural logarithm of the number of documents
/// over the number that hold it: an index of twice the size adds the logarithm
/// of 2 to it, up to one unit of rounding.
pub proof fn law_idf_grows_with_the_index(num_docs: nat, df: nat)
    requires
        df <= num_docs,
        2 * num_docs + 1 <= u32::MAX,
    ensures
        ({
            let w = idf_spec(num_docs, df) as int;
            let wide = idf_spec(2 * num_docs + 1, df) as int;
            11629078 <= wide - w <= 11629081
        }),
{
    let all = 2 * num_docs + 2;
    logarithm::law_log_doubles(all);
    logarithm::law_log_monotone(2 * df + 1, all);
    logarithm::law_log_monotone(2 * df + 1, 2 * all);
    let b = (logarithm::lg(all) - logarithm::lg(2 * df + 1)) as int;
    let x = b * LN_2;
    assert((b + 0x100_0000) * LN_2 == x + 0x100_0000 * LN_2) by (nonlinear_arith)
        requires
            x == b * LN_2,
    ;
    assert(2 * (2 * num_docs + 1) + 2 == 2 * all);
}

/// A term of no document, in an index of `2^k - 1` documents, weighs `k + 1`
/// times the logarithm of 2.
pub proof fn law_idf_of_powers(k: nat)
    requires
        1 <= k <= 31,
    ensures
        ({
            let w = idf_spec((vstd::arithmetic::power2::pow2(k) - 1) as nat, 0) as int;
            11629079 * (k + 1) <= w <= 11629080 * (k + 1)
        }),
{
    vstd::arithmetic::power2::lemma2_to64();
    vstd::arithmetic::power2::lemma_pow2_unfold(k + 1);
    vstd::arithmetic::power2::lemma_pow2_pos(k);
    logarithm::law_log_of_power(k + 1);
    logarithm::law_log_of_power(0);
    logarithm::law_log_monotone(1, vstd::arithmetic::power2::pow2(k + 1));
    let n = (vstd::arithmetic::power2::pow2(k) - 1) as nat;
    assert(2 * n + 2 == vstd::arithmetic::power2::pow2(k + 1));
    assert((k + 1) * 0x100_0000 >= 0);
}

/// Every term weighs something, even one that all documents hold.
pub proof fn law_idf_positive(num_docs: nat, df: nat)
    ensures
        idf_spec(num_docs, df) > 0,
{
}

/// The more documents hold a term, the less it weighs.
pub proof fn law_idf_decreases(num_docs: nat, df1: nat, df2: nat)
    requires
        df1 <= df2,
        num_docs <= u32::MAX,
    ensures
        idf_spec(num_docs, df2) <= idf_spec(num_docs, df1),
{
    if df2 <= num_docs {
        let all = 2 * num_docs + 2;
        logarithm::law_log_monotone(2 * df1 + 1, 2 * df2 + 1);
        logarithm::law_log_monotone(2 * df2 + 1, all);
        let b1 = (logarithm::lg(all) - logarithm::lg(2 * df1 + 1)) as nat;
        let b2 = (logarithm::lg(all) - logarithm::lg(2 * df2 + 1)) as nat;
        assert(b2 * LN_2 as nat <= b1 * LN_2 as nat) by (nonlinear_arith)
            requires
                b2 <= b1,
        ;
    }
}

/// Numerator of the BM25 fraction.
pub open spec fn numerator(idf: nat, tf: nat, avg_doc_len: nat) -> nat {
    (idf * (22 * avg_doc_len)) * tf
}

/// Denominator of the BM25 fraction.
pub open spec fn denominator(tf: nat, doc_len: nat, avg_doc_len: nat) -> nat {
    (10 * avg_doc_len) * tf + 3 * avg_doc_len + 9216 * doc_len
}

/// What one term adds to the score of a document that holds it `tf` times: the
/// fraction rounded down, but never down to nothing.
pub open spec fn contribution(idf: nat, tf: nat, doc_len: nat, avg_doc_len: nat) -> nat {
    let n = numerator(idf, tf, avg_doc_len);
    let q = n / denominator(tf, doc_len, avg_doc_len);
    if q == 0 && n > 0 {
        1
    } else {
        q
    }
}

/// A contribution is the BM25 fraction with `k1 = 1.2` and `b = 0.75`, rounded
/// down to the unit of scores. With the average `a` in units of 1 / 1024
/// token, the fraction is
///
/// ```text
/// idf * 2.2 * tf / (tf + 1.2 * (0.25 + 0.75 * doc_len / (a / 1024)))
///     = 22 * idf * tf * a / (10 * tf * a + 3 * a + 9 * 1024 * doc_len)
/// ```
///
/// A fraction between nothing and one unit counts as one unit.
pub proof fn law_contribution_is_the_fraction(idf: nat, tf: nat, doc_len: nat, avg_doc_len: nat)
    requires
        avg_doc_len > 0,
    ensures
        ({
            let q = contribution(idf, tf, doc_len, avg_doc_len);
            let above = 22 * idf * tf * avg_doc_len;
            let below = 10 * tf * avg_doc_len + 3 * avg_doc_len + 9 * 1024 * doc_len;
            &&& above == 0 ==> q == 0
            &&& 0 < above < below ==> q == 1
            &&& above >= below ==> q * below <= above < (q + 1) * below
        }),
{
    let a = avg_doc_len;
    let n = numerator(idf, tf, a);
    let d = denominator(tf, doc_len, a);
    let above = 22 * idf * tf * a;
    let below = 10 * tf * a + 3 * a + 9 * 1024 * doc_len;
    lemma_denominator_positive(tf, doc_len, a);
    assert(n == above) by (nonlinear_arith)
        requires
            n == (idf * (22 * a)) * tf,
            above == 22 * idf * tf * a,
    ;
    assert(d == below) by (nonlinear_arith)
        requires
            d == (10 * a) * tf + 3 * a + 9216 * doc_len,
            below == 10 * tf * a + 3 * a + 9 * 1024 * doc_len,
    ;
    let q = n / d;
    lemma_fundamental_div_mod(n as int, d as int);
    lemma_mod_bound(n as int, d as int);
    assert(q * d <= n < (q + 1) * d) by (nonlinear_arith)
        requires
            n == d * q + n % d,
            0 <= n % d < d,
    ;
    if n < d {
        lemma_basic_div(n as int, d as int);
    } else {
        assert(q > 0) by (nonlinear_arith)
            requires
                n >= d,
                n < (q + 1) * d,
                d > 0,
                q >= 0,
        ;
    }
}

/// Of two documents that hold a term equally often the shorter one scores
/// strictly more, once the lengths are far enough apart to show in the unit
/// of scores, below the average as above it.
pub proof fn law_shorter_documents_score_more(
    idf: nat,
    tf: nat,
    short: nat,
    long: nat,
    avg_doc_len: nat,
)
    requires
        avg_doc_len > 0,
        short < long,
        ({
            let below = 10 * tf * avg_doc_len + 3 * avg_doc_len;
            let above = 22 * idf * tf * avg_doc_len;
            &&& above >= below + 9 * 1024 * long
            &&& above * (9 * 1024 * (long - short)) >= (below + 9 * 1024 * short) * (below + 9
                * 1024 * long)
        }),
    ensures
        contribution(idf, tf, short, avg_doc_len) > contribution(idf, tf, long, avg_doc_len),
{
    law_contribution_is_the_fraction(idf, tf, short, avg_doc_len);
    law_contribution_is_the_fraction(idf, tf, long, avg_doc_len);
    let n = (22 * idf * tf * avg_doc_len) as int;
    let base = (10 * tf * avg_doc_len + 3 * avg_doc_len) as int;
    let x = base + 9 * 1024 * short;
    let y = base + 9 * 1024 * long;
    let p = contribution(idf, tf, short, avg_doc_len) as int;
    let q = contribution(idf, tf, long, avg_doc_len) as int;
    let gap = 9 * 1024 * (long - short);
    assert(y - x == gap) by (nonlinear_arith)
        requires
            x == base + 9 * 1024 * short,
            y == base + 9 * 1024 * long,
            gap == 9 * 1024 * (long - short),
    ;
    assert(n * gap >= x * y) by (nonlinear_arith)
        requires
            (22 * idf * tf * avg_doc_len) * gap >= (base + 9 * 1024 * short) * (base + 9 * 1024
                * long),
            n == 22 * idf * tf * avg_doc_len,
            x == base + 9 * 1024 * short,
            y == base + 9 * 1024 * long,
    ;
    assert(n * (y - x) == n * gap);
    if p <= q {
        assert(n < (p + 1) * x && q * y <= n);
        assert(p * y <= n) by (nonlinear_arith)
            requires
                q * y <= n,
                p <= q,
                y >= 0,
        ;
        assert(n * y < (p + 1) * x * y) by (nonlinear_arith)
            requires
                n < (p + 1) * x,
                y > 0,
        ;
        assert((p * y) * x <= n * x) by (nonlinear_arith)
            requires
                p * y <= n,
                x >= 0,
        ;
        assert((p + 1) * x * y == (p * y) * x + x * y) by (nonlinear_arith);
        assert(n * (y - x) == n * y - n * x) by (nonlinear_arith);
    }
}

/// A term that a document holds adds to its score.
pub proof fn law_contribution_positive(idf: nat, tf: nat, doc_len: nat, avg_doc_len: nat)
    requires
        idf > 0,
        tf > 0,
        avg_doc_len > 0,
    ensures
        contribution(idf, tf, doc_len, avg_doc_len) > 0,
{
    assert((idf * (22 * avg_doc_len)) * tf > 0) by (nonlinear_arith)
        requires
            idf > 0,
            tf > 0,
            avg_doc_len > 0,
    ;
}

/// A quotient grows with the fraction it rounds down.
proof fn lemma_floor_monotone(x1: nat, y1: nat, x2: nat, y2: nat)
    requires
        y1 > 0,
        y2 > 0,
        x1 * y2 <= x2 * y1,
    ensures
        x1 / y1 <= x2 / y2,
{
    let q = x1 / y1;
    lemma_fundamental_div_mod(x1 as int, y1 as int);
    assert(q * y1 <= x1) by (nonlinear_arith)
        requires
            x1 == y1 * q + x1 % y1,
            x1 % y1 >= 0,
    ;
    assert(q * y2 <= x2) by (nonlinear_arith)
        requires
            q * y1 <= x1,
            x1 * y2 <= x2 * y1,
            y1 > 0,
            y2 > 0,
            q >= 0,
    ;
    lemma_div_is_ordered(q as int * y2 as int, x2 as int, y2 as int);
    lemma_div_by_multiple(q as int, y2 as int);
}

/// A contribution grows with the term frequency and shrinks with the
/// document length, so the pair (largest tf, smallest length) of a group of
/// postings bounds the contribution of each of them under any statistics.
pub proof fn law_contribution_monotone(
    idf: nat,
    tf1: nat,
    len1: nat,
    tf2: nat,
    len2: nat,
    avg_doc_len: nat,
)
    requires
        avg_doc_len > 0,
        tf1 <= tf2,
        len2 <= len1,
    ensures
        contribution(idf, tf1, len1, avg_doc_len) <= contribution(idf, tf2, len2, avg_doc_len),
{
    let a = avg_doc_len;
    let w = idf * (22 * a);
    let d1 = denominator(tf1, len1, a);
    let d2 = denominator(tf2, len2, a);
    lemma_denominator_positive(tf1, len1, a);
    lemma_denominator_positive(tf2, len2, a);
    let c = 10 * a;
    let k1 = 3 * a + 9216 * len1;
    let k2 = 3 * a + 9216 * len2;
    assert(tf1 * (c * tf2 + k2) <= tf2 * (c * tf1 + k1)) by (nonlinear_arith)
        requires
            tf1 <= tf2,
            k2 <= k1,
            tf1 >= 0,
            k2 >= 0,
    ;
    assert(d1 == c * tf1 + k1);
    assert(d2 == c * tf2 + k2);
    assert((w * tf1) * d2 <= (w * tf2) * d1) by (nonlinear_arith)
        requires
            tf1 * d2 <= tf2 * d1,
            w >= 0,
    ;
    lemma_floor_monotone(w * tf1, d1, w * tf2, d2);
    assert(w * tf1 <= w * tf2) by (nonlinear_arith)
        requires
            tf1 <= tf2,
            w >= 0,
    ;
}

proof fn lemma_denominator_positive(tf: nat, doc_len: nat, a: nat)
    requires
        a > 0,
    ensures
        denominator(tf, doc_len, a) > 0,
{
    assert((10 * a) * tf >= 0) by (nonlinear_arith);
}

/// A contribution stays below `idf * (k1 + 1)`.
pub proof fn law_contribution_saturates(idf: nat, tf: nat, doc_len: nat, avg_doc_len: nat)
    requires
        avg_doc_len > 0,
    ensures
        10 * contribution(idf, tf, doc_len, avg_doc_len) <= 22 * idf,
{
    let a = avg_doc_len;
    let d = denominator(tf, doc_len, a);
    let n = numerator(idf, tf, a);
    let q = n / d;
    lemma_denominator_positive(tf, doc_len, a);
    lemma_fundamental_div_mod(n as int, d as int);
    let x = (10 * a) * tf;
    let y = 3 * a + 9216 * doc_len;
    let top = 22 * idf;
    assert(n > 0 ==> idf > 0) by (nonlinear_arith)
        requires
            n == (idf * (22 * a)) * tf,
    ;
    assert(10 * n == top * x) by (nonlinear_arith)
        requires
            n == (idf * (22 * a)) * tf,
            x == (10 * a) * tf,
            top == 22 * idf,
    ;
    assert(top * d == top * x + top * y) by (nonlinear_arith)
        requires
            d == x + y,
    ;
    assert(top * y >= 0) by (nonlinear_arith);
    if 10 * q > top {
        assert((10 * q) * d > top * d) by (nonlinear_arith)
            requires
                10 * q > top,
                d > 0,
        ;
        assert((10 * q) * d == 10 * (d * q)) by (nonlinear_arith);
    }
}

/// BM25 contribution of a single term within one document.
pub fn term_contribution(idf: u32, tf: u32, doc_len: u32, avg_doc_len: u32) -> (score: u64)
    requires
        avg_doc_len > 0,
    ensures
        score == contribution(idf as nat, tf as nat, doc_len as nat, avg_doc_len as nat),
        score <= 3 * idf,
{
    proof {
        lemma_denominator_positive(tf as nat, doc_len as nat, avg_doc_len as nat);
        law_contribution_saturates(idf as nat, tf as nat, doc_len as nat, avg_doc_len as nat);
        let i = idf as int;
        let a = avg_doc_len as int;
        let t = tf as int;
        assert(i * (22 * a) <= 0xffff_ffff * (22 * 0xffff_ffff)) by (nonlinear_arith)
            requires
                0 <= i <= 0xffff_ffff,
                0 <= a <= 0xffff_ffff,
        ;
        assert((i * (22 * a)) * t <= (0xffff_ffff * (22 * 0xffff_ffff)) * 0xffff_ffff)
            by (nonlinear_arith)
            requires
                0 <= i * (22 * a) <= 0xffff_ffff * (22 * 0xffff_ffff),
                0 <= t <= 0xffff_ffff,
        ;
        assert((10 * a) * t <= (10 * 0xffff_ffff) * 0xffff_ffff) by (nonlinear_arith)
            requires
                0 <= a <= 0xffff_ffff,
                0 <= t <= 0xffff_ffff,
        ;
        assert(0 <= (i * (22 * a)) * t) by (nonlinear_arith)
            requires
                i >= 0,
                a >= 0,
                t >= 0,
        ;
        assert(0 <= i * (22 * a)) by (nonlinear_arith)
            requires
                i >= 0,
                a >= 0,
        ;
    }
    let avg: u128 = avg_doc_len as u128;
    let num: u128 = (idf as u128 * (22 * avg)) * tf as u128;
    let den: u128 = (10 * avg) * tf as u128 + 3 * avg + 9216 * doc_len as u128;
    let q: u64 = (num / den) as u64;
    if q == 0 && num > 0 {
        1
    } else {
        q
    }
}

} // verus!
