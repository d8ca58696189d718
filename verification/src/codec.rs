//! Little-endian integers in byte sequences.
//!
//! Every on-disk format of the crate is described in terms of two functions:
//! [`le_nat`], the number that a run of bytes spells, and [`le_bytes`], the
//! bytes that spell a number.

use vstd::arithmetic::div_mod::*;
use vstd::arithmetic::mul::*;
use vstd::arithmetic::power2::*;
use vstd::prelude::*;

verus! {

/// The number spelled by `b`, least significant byte first.
pub open spec fn le_nat(b: Seq<u8>) -> nat
    decreases b.len(),
{
    if b.len() == 0 {
        0
    } else {
        b[0] as nat + 256 * le_nat(b.drop_first())
    }
}

/// The lowest `n` base-256 digits of `v`, least significant first.
pub open spec fn le_bytes(v: nat, n: nat) -> Seq<u8> {
    Seq::new(n, |i: int| ((v / pow2(8 * i as nat)) % 256) as u8)
}

/// The number spelled by the `n` bytes of `b` that start at `off`.
pub open spec fn le_at(b: Seq<u8>, off: int, n: int) -> nat {
    le_nat(b.subrange(off, off + n))
}

pub proof fn lemma_pow2_byte(i: nat)
    ensures
        pow2(8 * (i + 1)) == 256 * pow2(8 * i),
        pow2(8 * i) > 0,
{
    lemma_pow2_adds(8, 8 * i);
    lemma2_to64();
    lemma_pow2_pos(8 * i);
    assert(8 * (i + 1) == 8 + 8 * i);
}

pub proof fn lemma_le_nat_bound(b: Seq<u8>)
    ensures
        le_nat(b) < pow2(8 * b.len()),
    decreases b.len(),
{
    lemma2_to64();
    if b.len() > 0 {
        lemma_le_nat_bound(b.drop_first());
        lemma_pow2_byte((b.len() - 1) as nat);
    }
}

pub proof fn lemma_le_nat_concat(a: Seq<u8>, b: Seq<u8>)
    ensures
        le_nat(a + b) == le_nat(a) + pow2(8 * a.len()) * le_nat(b),
    decreases a.len(),
{
    lemma2_to64();
    if a.len() == 0 {
        assert(a + b =~= b);
        assert(pow2(0) * le_nat(b) == le_nat(b)) by (nonlinear_arith)
            requires
                pow2(0) == 1,
        ;
    } else {
        let r = a.drop_first();
        lemma_le_nat_concat(r, b);
        assert((a + b).drop_first() =~= r + b);
        lemma_pow2_byte(r.len());
        let p = pow2(8 * r.len());
        let y = le_nat(b);
        assert(256 * (p * y) == (256 * p) * y) by (nonlinear_arith);
    }
}

pub proof fn lemma_le_nat_push(a: Seq<u8>, x: u8)
    ensures
        le_nat(a.push(x)) == le_nat(a) + pow2(8 * a.len()) * x as nat,
{
    lemma_le_nat_concat(a, seq![x]);
    assert(a.push(x) =~= a + seq![x]);
    assert(seq![x].drop_first() =~= Seq::<u8>::empty());
    assert(le_nat(seq![x]) == x as nat) by {
        reveal_with_fuel(le_nat, 2);
    }
}

/// Dropping the first `k` bytes divides the number by 256^k.
pub proof fn lemma_le_nat_skip(b: Seq<u8>, k: nat)
    requires
        k <= b.len(),
    ensures
        le_nat(b.skip(k as int)) == le_nat(b) / pow2(8 * k),
        le_nat(b.take(k as int)) == le_nat(b) % pow2(8 * k),
{
    let a = b.take(k as int);
    let r = b.skip(k as int);
    assert(a + r =~= b);
    lemma_le_nat_concat(a, r);
    lemma_le_nat_bound(a);
    lemma_pow2_pos(8 * k);
    lemma_mul_is_commutative(pow2(8 * k) as int, le_nat(r) as int);
    lemma_fundamental_div_mod_converse(
        le_nat(b) as int,
        pow2(8 * k) as int,
        le_nat(r) as int,
        le_nat(a) as int,
    );
}

/// The `i`-th byte is the `i`-th base-256 digit.
pub proof fn lemma_byte_digit(b: Seq<u8>, i: nat)
    requires
        i < b.len(),
    ensures
        b[i as int] == (le_nat(b) / pow2(8 * i)) % 256,
{
    lemma_le_nat_skip(b, i);
    let r = b.skip(i as int);
    assert(r[0] == b[i as int]);
    lemma_fundamental_div_mod_converse(
        le_nat(r) as int,
        256,
        le_nat(r.drop_first()) as int,
        r[0] as int,
    );
}

/// A byte string is determined by its length and the number it spells.
pub proof fn lemma_le_bytes_of_le_nat(b: Seq<u8>)
    ensures
        le_bytes(le_nat(b), b.len()) == b,
{
    assert forall|i: int| 0 <= i < b.len() implies le_bytes(le_nat(b), b.len())[i] == b[i] by {
        lemma_byte_digit(b, i as nat);
    }
    assert(le_bytes(le_nat(b), b.len()) =~= b);
}

pub proof fn lemma_le_nat_of_le_bytes(v: nat, n: nat)
    ensures
        le_nat(le_bytes(v, n)) == v % pow2(8 * n),
    decreases n,
{
    lemma2_to64();
    if n == 0 {
    } else {
        let m = (n - 1) as nat;
        lemma_le_nat_of_le_bytes(v, m);
        let d = ((v / pow2(8 * m)) % 256) as u8;
        assert(le_bytes(v, n) =~= le_bytes(v, m).push(d));
        lemma_le_nat_push(le_bytes(v, m), d);
        lemma_pow2_byte(m);
        let p = pow2(8 * m);
        // v % (p * 256) == p * ((v / p) % 256) + v % p
        lemma_mod_breakdown(v as int, p as int, 256);
        assert(p * 256 == 256 * p) by (nonlinear_arith);
    }
}

/// The bytes written for a value that fits spell that value.
pub proof fn lemma_le_round_trip(v: nat, n: nat)
    requires
        v < pow2(8 * n),
    ensures
        le_nat(le_bytes(v, n)) == v,
{
    lemma_le_nat_of_le_bytes(v, n);
    lemma_small_mod(v, pow2(8 * n));
}

/// Append the lowest `n` bytes of `v` to `out`.
pub fn push_le(out: &mut Vec<u8>, v: u64, n: usize)
    requires
        n <= 8,
    ensures
        final(out)@ == old(out)@ + le_bytes(v as nat, n as nat),
{
    let ghost start = out@;
    let mut rest: u64 = v;
    let mut i: usize = 0;
    proof {
        lemma2_to64();
        assert(v as nat / pow2(0) == v);
    }
    while i < n
        invariant
            i <= n <= 8,
            rest == v as nat / pow2(8 * i as nat),
            out@ == start + le_bytes(v as nat, i as nat),
        decreases n - i,
    {
        let byte: u8 = (rest % 256) as u8;
        out.push(byte);
        proof {
            assert(le_bytes(v as nat, (i + 1) as nat) =~= le_bytes(v as nat, i as nat).push(byte));
            lemma_pow2_byte(i as nat);
            lemma_div_denominator(v as int, pow2(8 * i as nat) as int, 256);
            assert(pow2(8 * i as nat) * 256 == 256 * pow2(8 * i as nat)) by (nonlinear_arith);
        }
        rest = rest / 256;
        i += 1;
    }
    assert(out@ =~= start + le_bytes(v as nat, n as nat));
}

/// The number spelled by the `n` bytes at `off`.
pub fn read_le(bytes: &[u8], off: usize, n: usize) -> (v: u64)
    requires
        n <= 8,
        off + n <= bytes@.len(),
    ensures
        v == le_at(bytes@, off as int, n as int),
        v < pow2(8 * n as nat),
{
    let ghost window = bytes@.subrange(off as int, off + n);
    let total: usize = bytes.len();
    let mut v: u64 = 0;
    let mut i: usize = n;
    proof {
        lemma2_to64();
        assert(window.skip(n as int) =~= Seq::<u8>::empty());
    }
    while i > 0
        invariant
            i <= n <= 8,
            off + n <= bytes@.len() == total,
            window == bytes@.subrange(off as int, off + n),
            v == le_nat(window.skip(i as int)),
            v < pow2((8 * (n - i)) as nat),
        decreases i,
    {
        i -= 1;
        proof {
            let s = window.skip(i as int);
            assert(s.drop_first() =~= window.skip(i + 1));
            assert(s[0] == window[i as int]);
            lemma_le_nat_bound(s);
            lemma2_to64();
            lemma2_to64_rest();
            if n - i < 8 {
                lemma_pow2_strictly_increases((8 * (n - i)) as nat, 64);
            }
        }
        v = bytes[off + i] as u64 + 256 * v;
    }
    assert(window.skip(0) =~= window);
    v
}

/// A number written between other bytes is read back from its place.
pub proof fn lemma_field(before: Seq<u8>, v: nat, n: nat, after: Seq<u8>)
    requires
        v < pow2(8 * n),
    ensures
        le_at(before + le_bytes(v, n) + after, before.len() as int, n as int) == v,
{
    let whole = before + le_bytes(v, n) + after;
    assert(whole.subrange(before.len() as int, before.len() as int + n as int) =~= le_bytes(v, n));
    lemma_le_round_trip(v, n);
}

/// Append `bytes` to `out`.
pub fn append(out: &mut Vec<u8>, bytes: &[u8])
    ensures
        final(out)@ == old(out)@ + bytes@,
{
    let ghost start = out@;
    let mut i: usize = 0;
    assert(out@ =~= start + bytes@.take(0));
    while i < bytes.len()
        invariant
            i <= bytes@.len(),
            out@ == start + bytes@.take(i as int),
        decreases bytes@.len() - i,
    {
        out.push(bytes[i]);
        assert(out@ =~= start + bytes@.take(i + 1));
        i += 1;
    }
    assert(bytes@.take(i as int) =~= bytes@);
}

/// Append the 16 bytes of `v` to `out`.
pub fn push_le_wide(out: &mut Vec<u8>, v: u128)
    ensures
        final(out)@ == old(out)@ + le_bytes(v as nat, 16),
{
    let ghost start = out@;
    let lo: u64 = (v % 0x1_0000_0000_0000_0000) as u64;
    let hi: u64 = (v / 0x1_0000_0000_0000_0000) as u64;
    push_le(out, lo, 8);
    push_le(out, hi, 8);
    proof {
        let a = le_bytes(lo as nat, 8);
        let b = le_bytes(hi as nat, 8);
        lemma2_to64();
        lemma_le_round_trip(lo as nat, 8);
        lemma_le_round_trip(hi as nat, 8);
        lemma_le_nat_concat(a, b);
        assert(a.len() == 8);
        let p = pow2(8 * a.len());
        let high = le_nat(b);
        assert(p * high == 0x1_0000_0000_0000_0000 * high) by (nonlinear_arith)
            requires
                p == 0x1_0000_0000_0000_0000,
        ;
        assert(le_nat(a + b) == v);
        lemma_le_bytes_of_le_nat(a + b);
        assert(out@ =~= start + (a + b));
    }
}

} // verus!
