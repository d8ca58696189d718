//! Posting-block compression: delta encoding and binary bit-packing.
//!
//! Within a block the document ids are strictly increasing, so a block stores
//! the gaps between consecutive ids (`delta - 1`, as every gap is at least
//! one) packed at the smallest width that fits the largest gap, and `tf - 1`
//! packed the same way.
//!
//! Block layout (little-endian):
//!
//! ```text
//! u16  count            number of postings
//! u8   doc_bits         width of each packed gap
//! u8   tf_bits          width of each packed term frequency
//! u32  first_doc_id     stored raw
//! [count - 1 gaps][count tfs]   bit stream, lowest bit first, zero-padded
//! ```
//!
//! The bit stream is modelled as one number, [`codec::le_nat`] of the payload: the
//! field of width `w` at bit `p` is that number divided by `2^p`, modulo
//! `2^w`.

use crate::codec;
use crate::postings::Posting;
use vstd::arithmetic::div_mod::*;
use vstd::arithmetic::mul::*;
use vstd::arithmetic::power2::*;
use vstd::bits::*;
use vstd::prelude::*;
use vstd::slice::slice_subrange;

verus! {

/// The number of binary digits of `v`; zero has none.
pub open spec fn bit_width(v: nat) -> nat
    decreases v,
{
    if v == 0 {
        0
    } else {
        1 + bit_width(v / 2)
    }
}

/// `bit_width(v)` is the least exponent whose power of two exceeds `v`.
pub proof fn law_bit_width(v: nat)
    ensures
        v < pow2(bit_width(v)),
        v > 0 ==> pow2((bit_width(v) - 1) as nat) <= v,
    decreases v,
{
    lemma2_to64();
    if v > 0 {
        law_bit_width(v / 2);
        lemma_pow2_unfold(bit_width(v));
        if v / 2 > 0 {
            lemma_pow2_unfold((bit_width(v) - 1) as nat);
        }
    }
}

proof fn lemma_bit_width_le(v: nat, n: nat)
    requires
        v < pow2(n),
    ensures
        bit_width(v) <= n,
{
    law_bit_width(v);
    if bit_width(v) > n {
        if n < bit_width(v) - 1 {
            lemma_pow2_strictly_increases(n, (bit_width(v) - 1) as nat);
        }
    }
}

proof fn lemma_bit_width_unique(v: nat, w: nat)
    requires
        v < pow2(w),
        w > 0 ==> pow2((w - 1) as nat) <= v,
    ensures
        bit_width(v) == w,
{
    lemma_bit_width_le(v, w);
    law_bit_width(v);
    if bit_width(v) < w {
        if bit_width(v) < w - 1 {
            lemma_pow2_strictly_increases(bit_width(v), (w - 1) as nat);
        }
    }
}

proof fn lemma_leading_zeros_width(value: u32)
    ensures
        bit_width(value as nat) == 32 - vstd::std_specs::bits::u32_leading_zeros(value),
{
    let lz = vstd::std_specs::bits::u32_leading_zeros(value);
    vstd::std_specs::bits::axiom_u32_leading_zeros(value);
    lemma2_to64();
    if value > 0 {
        let w = (32 - lz) as u32;
        let top = (w - 1) as u32;
        let q = value >> top;
        assert(q & 1u32 != 0u32 ==> q != 0) by (bit_vector);
        lemma_u32_shr_is_div(value, top);
        lemma_pow2_pos(top as nat);
        if (value as nat) < pow2(top as nat) {
            lemma_small_div_converse(value as int, pow2(top as nat) as int);
            lemma_basic_div(value as int, pow2(top as nat) as int);
        }
        if w < 32 {
            lemma_u32_shr_is_div(value, w);
            lemma_pow2_pos(w as nat);
            lemma_small_div_converse(value as int, pow2(w as nat) as int);
        }
        lemma_bit_width_unique(value as nat, w as nat);
    }
}

/// Bits needed to represent `value` (0 needs 0 bits).
pub fn bits_needed(value: u32) -> (w: u8)
    ensures
        w == bit_width(value as nat),
        w <= 32,
{
    proof {
        lemma_leading_zeros_width(value);
        lemma2_to64();
        lemma_bit_width_le(value as nat, 32);
    }
    (32 - value.leading_zeros()) as u8
}

/// The field of width `w` that starts at bit `pos` of a bit stream.
pub open spec fn field(stream: Seq<u8>, pos: nat, w: nat) -> nat {
    (codec::le_nat(stream) / pow2(pos)) % pow2(w)
}

/// `vals` laid side by side at a fixed width, the first one lowest.
pub open spec fn pack(vals: Seq<nat>, w: nat) -> nat
    decreases vals.len(),
{
    if vals.len() == 0 {
        0
    } else {
        pack(vals.drop_last(), w) + pow2(((vals.len() - 1) * w) as nat) * vals.last()
    }
}

/// The largest element, zero for the empty sequence.
pub open spec fn largest(vals: Seq<nat>) -> nat
    decreases vals.len(),
{
    if vals.len() == 0 {
        0
    } else {
        let m = largest(vals.drop_last());
        if vals.last() > m {
            vals.last()
        } else {
            m
        }
    }
}

proof fn lemma_largest(vals: Seq<nat>, i: int)
    requires
        0 <= i < vals.len(),
    ensures
        vals[i] <= largest(vals),
    decreases vals.len(),
{
    if i < vals.len() - 1 {
        lemma_largest(vals.drop_last(), i);
    }
}

/// Bits above a cut come from the high part alone.
proof fn lemma_high_part(lo: nat, hi: nat, cut: nat, q: nat)
    requires
        lo < pow2(cut),
    ensures
        (lo + pow2(cut) * hi) / pow2(cut + q) == hi / pow2(q),
{
    lemma_pow2_adds(cut, q);
    lemma_pow2_pos(cut);
    lemma_pow2_pos(q);
    let x = lo + pow2(cut) * hi;
    lemma_mul_is_commutative(pow2(cut) as int, hi as int);
    lemma_fundamental_div_mod_converse(x as int, pow2(cut) as int, hi as int, lo as int);
    lemma_div_denominator(x as int, pow2(cut) as int, pow2(q) as int);
}

/// Bits below a cut come from the low part alone.
proof fn lemma_low_part(lo: nat, hi: nat, cut: nat, pos: nat, w: nat)
    requires
        pos + w <= cut,
    ensures
        ((lo + pow2(cut) * hi) / pow2(pos)) % pow2(w) == (lo / pow2(pos)) % pow2(w),
{
    let mid = (cut - pos - w) as nat;
    lemma_pow2_pos(pos);
    lemma_pow2_pos(w);
    lemma_pow2_adds(pos, w);
    lemma_pow2_adds(pos + w, mid);
    let a = pow2(pos) as int;
    let b = pow2(w) as int;
    let c = pow2(mid) as int;
    let h = hi as int;
    assert(pow2(cut) * hi == a * (b * (c * h))) by (nonlinear_arith)
        requires
            pow2(cut) == (a * b) * c,
            h == hi,
    ;
    let t = b * (c * h);
    lemma_hoist_over_denominator(lo as int, t, a as nat);
    lemma_mul_is_commutative(a, t);
    assert((lo + pow2(cut) * hi) as int / a == lo as int / a + t);
    lemma_mod_multiples_vanish(c * h, lo as int / a, b);
    lemma_mul_is_commutative(b, c * h);
}

proof fn lemma_pack_bound(vals: Seq<nat>, w: nat)
    requires
        forall|i: int| 0 <= i < vals.len() ==> #[trigger] vals[i] < pow2(w),
    ensures
        pack(vals, w) < pow2(vals.len() * w),
    decreases vals.len(),
{
    lemma2_to64();
    if vals.len() == 0 {
        assert(0 * w == 0) by (nonlinear_arith);
    } else {
        let r = vals.drop_last();
        lemma_pack_bound(r, w);
        let k = r.len() * w;
        assert(vals.len() * w == k + w) by (nonlinear_arith)
            requires
                k == r.len() * w,
                vals.len() == r.len() + 1,
        ;
        lemma_pow2_adds(k, w);
        let p = pow2(k);
        let q = pow2(w);
        let l = vals.last();
        assert(p + p * l <= p * q) by (nonlinear_arith)
            requires
                l + 1 <= q,
        ;
    }
}

proof fn lemma_pack_field(vals: Seq<nat>, w: nat, i: int)
    requires
        0 <= i < vals.len(),
        forall|j: int| 0 <= j < vals.len() ==> #[trigger] vals[j] < pow2(w),
    ensures
        (pack(vals, w) / pow2((i * w) as nat)) % pow2(w) == vals[i],
    decreases vals.len(),
{
    let r = vals.drop_last();
    let cut = (r.len() * w) as nat;
    lemma_pack_bound(r, w);
    assert(0 <= i * w) by (nonlinear_arith)
        requires
            0 <= i,
            0 <= w,
    ;
    if i == r.len() {
        lemma_high_part(pack(r, w), vals.last(), cut, 0);
        lemma2_to64();
        lemma_small_mod(vals.last(), pow2(w));
        assert(vals.last() as int / 1 == vals.last());
    } else {
        lemma_pack_field(r, w, i);
        assert(i * w + w <= r.len() * w) by (nonlinear_arith)
            requires
                i + 1 <= r.len(),
        ;
        lemma_low_part(pack(r, w), vals.last(), cut, (i * w) as nat, w);
    }
}

/// Bit stream writer, lowest bit first, over a 64-bit accumulator: whole
/// bytes are flushed as they fill, so that fewer than eight bits wait
/// between writes.
pub struct BitWriter<'a> {
    pub out: &'a mut Vec<u8>,
    pub acc: u64,
    pub acc_bits: u32,
}

impl<'a> BitWriter<'a> {
    pub open spec fn wf(&self) -> bool {
        &&& self.acc_bits < 8
        &&& self.acc < pow2(self.acc_bits as nat)
    }

    /// Everything written so far, as one number.
    pub open spec fn value(&self) -> nat {
        codec::le_nat(self.out@) + pow2(8 * self.out@.len()) * self.acc as nat
    }

    /// How many bits have been written.
    pub open spec fn bit_len(&self) -> nat {
        8 * self.out@.len() + self.acc_bits as nat
    }

    /// Start writing at the end of `out`.
    pub fn new(out: &'a mut Vec<u8>) -> (w: Self)
        ensures
            w.wf(),
            w.value() == codec::le_nat(old(out)@),
            w.bit_len() == 8 * old(out)@.len(),
            final(w.out)@ == final(out)@,
    {
        proof {
            lemma2_to64();
        }
        BitWriter { out, acc: 0, acc_bits: 0 }
    }

    /// Append the `bits` low bits of `value`.
    pub fn write(&mut self, value: u32, bits: u8)
        requires
            old(self).wf(),
            bits <= 32,
            value < pow2(bits as nat),
        ensures
            final(self).wf(),
            final(self).value() == old(self).value() + pow2(old(self).bit_len()) * value as nat,
            final(self).bit_len() == old(self).bit_len() + bits,
            final(final(self).out)@ == final(old(self).out)@,
    {
        let ghost before = self.value();
        let ghost start_bits = self.bit_len();
        let s: u32 = self.acc_bits;
        let v: u64 = value as u64;
        let a: u64 = self.acc;
        proof {
            lemma2_to64();
            lemma2_to64_rest();
            lemma_pow2_strictly_increases(s as nat, 8);
            lemma_pow2_adds(32, s as nat);
            if bits < 32 {
                lemma_pow2_strictly_increases(bits as nat, 32);
            }
            if s < 7 {
                lemma_pow2_strictly_increases(s as nat, 7);
            }
            assert(v * pow2(s as nat) <= 0xffff_ffff * 128) by (nonlinear_arith)
                requires
                    v <= 0xffff_ffff,
                    pow2(s as nat) <= 128,
            ;
            lemma_u64_shl_is_mul(v, s as u64);
            assert(1u64 * pow2(s as nat) == pow2(s as nat));
            lemma_u64_shl_is_mul(1u64, s as u64);
            assert(a | (v << (s as u64)) == a + (v << (s as u64))) by (bit_vector)
                requires
                    s < 8,
                    v <= 0xffff_ffff,
                    a < (1u64 << (s as u64)),
            ;
            assert(v << s == v << (s as u64)) by (bit_vector);
        }
        self.acc = a | (v << s);
        self.acc_bits = s + bits as u32;
        proof {
            let p = pow2(8 * self.out@.len());
            let q = pow2(s as nat);
            lemma_pow2_adds(8 * self.out@.len(), s as nat);
            assert(p * (a + v * q) == p * a + (p * q) * v) by (nonlinear_arith);
            // The accumulator now holds `acc_bits` bits.
            lemma_pow2_adds(s as nat, bits as nat);
            let r = pow2(bits as nat);
            assert(a + v * q < q * r) by (nonlinear_arith)
                requires
                    a < q,
                    v + 1 <= r,
            ;
        }
        while self.acc_bits >= 8
            invariant
                self.acc_bits < 40,
                self.acc < pow2(self.acc_bits as nat),
                self.value() == before + pow2(start_bits) * value as nat,
                self.bit_len() == start_bits + bits,
                final(self.out)@ == final(old(self).out)@,
            decreases self.acc_bits,
        {
            let ghost head = self.out@;
            let x: u64 = self.acc;
            proof {
                let lo = (x & 0xff) as u8;
                assert(x as u8 == (x % 256) as u8) by (bit_vector);
                assert(x >> 8 == x / 256) by (bit_vector);
                codec::lemma_le_nat_push(head, (x % 256) as u8);
                codec::lemma_pow2_byte(head.len());
                let p = pow2(8 * head.len());
                let d = x as nat / 256;
                let m = x as nat % 256;
                assert(p * m + (256 * p) * d == p * x) by (nonlinear_arith)
                    requires
                        x == 256 * d + m,
                ;
                lemma2_to64();
                lemma_pow2_adds(8, (self.acc_bits - 8) as nat);
                let t = pow2((self.acc_bits - 8) as nat);
                assert(d < t) by (nonlinear_arith)
                    requires
                        x == 256 * d + m,
                        x < 256 * t,
                        m >= 0,
                ;
            }
            self.out.push(x as u8);
            self.acc = x >> 8;
            self.acc_bits = self.acc_bits - 8;
        }
    }

    /// Flush the residual bits, zero-padded to a byte.
    pub fn finish(self)
        requires
            self.wf(),
        ensures
            codec::le_nat(final(self.out)@) == self.value(),
            final(self.out)@.len() == (self.bit_len() + 7) / 8,
    {
        let ghost head = self.out@;
        if self.acc_bits > 0 {
            let x: u64 = self.acc;
            proof {
                lemma2_to64();
                lemma_pow2_strictly_increases(self.acc_bits as nat, 8);
                assert(x < 256 ==> x as u8 == x) by (bit_vector);
                codec::lemma_le_nat_push(head, x as u8);
            }
            self.out.push(x as u8);
            assert(codec::le_nat(self.out@) == codec::le_nat(head) + pow2(8 * head.len()) * x as nat);
        } else {
            proof {
                lemma2_to64();
                assert(self.acc == 0);
                assert(pow2(8 * head.len()) * 0 == 0);
            }
        }
    }
}

/// The eight bytes at `byte_idx` as one number, zero past the end of `bytes`.
pub fn read_word(bytes: &[u8], byte_idx: usize) -> (word: u64)
    ensures
        word == (codec::le_nat(bytes@) / pow2(8 * byte_idx as nat)) % pow2(64),
{
    let total: usize = bytes.len();
    proof {
        lemma2_to64();
        lemma2_to64_rest();
        lemma_pow2_pos(8 * byte_idx as nat);
    }
    if byte_idx < total {
        let avail: usize = total - byte_idx;
        let n: usize = if avail >= 8 { 8 } else { avail };
        proof {
            let tail = bytes@.skip(byte_idx as int);
            codec::lemma_le_nat_skip(bytes@, byte_idx as nat);
            assert(bytes@.subrange(byte_idx as int, byte_idx + n) =~= tail.take(n as int));
            codec::lemma_le_nat_skip(tail, n as nat);
            if avail < 8 {
                assert(tail.take(n as int) =~= tail);
                codec::lemma_le_nat_bound(tail);
                lemma_pow2_strictly_increases(8 * n as nat, 64);
                lemma_small_mod(codec::le_nat(tail), pow2(64));
            }
        }
        codec::read_le(bytes, byte_idx, n)
    } else {
        proof {
            codec::lemma_le_nat_bound(bytes@);
            if total < byte_idx {
                lemma_pow2_strictly_increases(8 * total as nat, 8 * byte_idx as nat);
            }
            lemma_basic_div(codec::le_nat(bytes@) as int, pow2(8 * byte_idx as nat) as int);
        }
        0
    }
}

/// The width that a field read actually has: values are 32 bits wide.
pub open spec fn value_width(bits: nat) -> nat {
    if bits >= 32 {
        32
    } else {
        bits
    }
}

/// A mask of `bits` ones, at most 32.
pub fn width_mask(bits: u8) -> (mask: u32)
    ensures
        mask == pow2(value_width(bits as nat)) - 1,
        mask == low_bits_mask(value_width(bits as nat)),
{
    proof {
        lemma2_to64();
        lemma_low_bits_mask_values();
        lemma_pow2_pos(bits as nat);
    }
    if bits >= 32 {
        u32::MAX
    } else {
        proof {
            lemma_pow2_strictly_increases(bits as nat, 32);
            lemma_u32_shl_is_mul(1u32, bits as u32);
            assert(1u32 << bits == 1u32 << (bits as u32)) by (bit_vector);
        }
        (1u32 << bits) - 1
    }
}

/// A window of 64 bits taken at a byte boundary holds every field that ends
/// inside it.
proof fn lemma_window_field(n: nat, byte: nat, shift: nat, w: nat)
    requires
        shift + w <= 64,
    ensures
        (((n / pow2(8 * byte)) % pow2(64)) / pow2(shift)) % pow2(w) == (n / pow2(8 * byte + shift))
            % pow2(w),
{
    let x = n / pow2(8 * byte);
    let rest = (64 - shift - w) as nat;
    lemma_pow2_pos(8 * byte);
    lemma_pow2_pos(shift);
    lemma_pow2_pos(w);
    lemma_pow2_pos(rest);
    lemma_pow2_adds(8 * byte, shift);
    lemma_div_denominator(n as int, pow2(8 * byte) as int, pow2(shift) as int);
    let a = pow2(shift) as int;
    let b = pow2(w + rest) as int;
    lemma_pow2_adds(w, rest);
    lemma_pow2_adds(shift, w + rest);
    // x % (a * b) == a * ((x / a) % b) + x % a
    lemma_pow2_pos(w + rest);
    lemma_mod_breakdown(x as int, a, b);
    let y = (x as int / a) % b;
    lemma_mod_pos_bound(x as int, a);
    lemma_mul_is_commutative(a, y);
    lemma_fundamental_div_mod_converse(x as int % (a * b), a, y, x as int % a);
    lemma_mod_mod(x as int / a, pow2(w) as int, pow2(rest) as int);
}

/// Shifting and masking a 64-bit window extracts a field.
fn extract(word: u64, shift: usize, bits: u8, mask: u32) -> (v: u32)
    requires
        shift + value_width(bits as nat) <= 64,
        shift < 64,
        mask == low_bits_mask(value_width(bits as nat)),
        mask == pow2(value_width(bits as nat)) - 1,
    ensures
        v == (word as nat / pow2(shift as nat)) % pow2(value_width(bits as nat)),
{
    let x: u64 = word >> shift;
    let y: u32 = x as u32;
    proof {
        let w = value_width(bits as nat);
        assert(word >> shift == word >> (shift as u64)) by (bit_vector)
            requires
                shift < 64,
        ;
        lemma_u64_shr_is_div(word, shift as u64);
        assert(x as u32 == x % 0x1_0000_0000) by (bit_vector);
        lemma2_to64();
        lemma_pow2_pos(w);
        if w < 32 {
            lemma_pow2_strictly_increases(w, 32);
            lemma_u32_low_bits_mask_is_mod(y, w);
            lemma_pow2_adds(w, (32 - w) as nat);
            lemma_pow2_pos((32 - w) as nat);
            lemma_mod_mod(x as int, pow2(w) as int, pow2((32 - w) as nat) as int);
        } else {
            assert(y & 0xffff_ffffu32 == y) by (bit_vector);
            lemma_small_mod(y as nat, pow2(32));
        }
    }
    y & mask
}

/// Bit stream reader, lowest bit first.
pub struct BitReader<'a> {
    pub bytes: &'a [u8],
    pub bit_pos: usize,
}

impl<'a> BitReader<'a> {
    pub fn new(bytes: &'a [u8]) -> (r: Self)
        ensures
            r.bytes@ == bytes@,
            r.bit_pos == 0,
    {
        BitReader { bytes, bit_pos: 0 }
    }

    pub fn at(bytes: &'a [u8], bit_pos: usize) -> (r: Self)
        ensures
            r.bytes@ == bytes@,
            r.bit_pos == bit_pos,
    {
        BitReader { bytes, bit_pos }
    }

    /// Read the field of width `bits` at the current position and step past it.
    pub fn read(&mut self, bits: u8) -> (v: u32)
        requires
            old(self).bit_pos + bits <= usize::MAX,
        ensures
            v == field(old(self).bytes@, old(self).bit_pos as nat, value_width(bits as nat)),
            final(self).bytes@ == old(self).bytes@,
            final(self).bit_pos == old(self).bit_pos + bits,
    {
        if bits == 0 {
            proof {
                lemma2_to64();
            }
            return 0;
        }
        let word: u64 = read_word(self.bytes, self.bit_pos / 8);
        let shift: usize = self.bit_pos % 8;
        proof {
            lemma_window_field(
                codec::le_nat(self.bytes@),
                (self.bit_pos / 8) as nat,
                shift as nat,
                value_width(bits as nat),
            );
        }
        self.bit_pos = self.bit_pos + bits as usize;
        extract(word, shift, bits, width_mask(bits))
    }
}

/// Bytes before the bit stream of a block.
pub const HEADER_BYTES: usize = 8;

/// How many postings a block declares.
pub open spec fn block_count(b: Seq<u8>) -> nat {
    codec::le_at(b, 0, 2)
}

/// The declared width of a gap.
pub open spec fn block_doc_bits(b: Seq<u8>) -> nat {
    b[2] as nat
}

/// The declared width of a term frequency.
pub open spec fn block_tf_bits(b: Seq<u8>) -> nat {
    b[3] as nat
}

/// The bit stream of a block.
pub open spec fn block_payload(b: Seq<u8>) -> Seq<u8> {
    b.skip(HEADER_BYTES as int)
}

/// The bit at which the term frequencies start.
pub open spec fn tf_start(b: Seq<u8>) -> nat {
    ((block_count(b) - 1) * block_doc_bits(b)) as nat
}

/// The `i`-th stored gap.
pub open spec fn block_gap(b: Seq<u8>, i: nat) -> nat {
    field(block_payload(b), i * block_doc_bits(b), value_width(block_doc_bits(b)))
}

/// The `i`-th document id of a block: the first id plus the gaps before it.
pub open spec fn block_doc(b: Seq<u8>, i: nat) -> nat
    decreases i,
{
    if i == 0 {
        codec::le_at(b, 4, 4)
    } else {
        block_doc(b, (i - 1) as nat) + block_gap(b, (i - 1) as nat) + 1
    }
}

/// The `i`-th term frequency of a block.
pub open spec fn block_tf_at(b: Seq<u8>, i: nat) -> nat {
    field(
        block_payload(b),
        tf_start(b) + i * block_tf_bits(b),
        value_width(block_tf_bits(b)),
    ) + 1
}

/// Length in bits of the stream that the header declares.
pub open spec fn block_bits(b: Seq<u8>) -> nat {
    tf_start(b) + block_count(b) * block_tf_bits(b)
}

/// Length in bytes of the block that `b` starts with.
pub open spec fn block_len(b: Seq<u8>) -> nat {
    HEADER_BYTES as nat + (block_bits(b) + 7) / 8
}

/// The document ids of the block can be read: there is a header, and no id
/// leaves the 32-bit range.
pub open spec fn docs_readable(b: Seq<u8>) -> bool {
    &&& b.len() >= HEADER_BYTES
    &&& block_count(b) >= 1
    &&& block_doc(b, (block_count(b) - 1) as nat) <= u32::MAX
}

/// The whole block can be read.
pub open spec fn block_readable(b: Seq<u8>) -> bool {
    &&& docs_readable(b)
    &&& b.len() >= block_len(b)
    &&& forall|i: nat| i < block_count(b) ==> #[trigger] block_tf_at(b, i) <= u32::MAX
}

proof fn lemma_block_doc_monotone(b: Seq<u8>, i: nat, j: nat)
    requires
        i <= j,
    ensures
        block_doc(b, i) + (j - i) <= block_doc(b, j),
    decreases j,
{
    if i < j {
        lemma_block_doc_monotone(b, i, (j - 1) as nat);
    }
}

/// The fixed part of a block.
pub struct BlockHeader {
    pub count: usize,
    pub doc_bits: u8,
    pub tf_bits: u8,
    pub first_doc_id: u32,
}

pub fn read_header(bytes: &[u8]) -> (h: BlockHeader)
    requires
        bytes@.len() >= HEADER_BYTES,
    ensures
        h.count == block_count(bytes@),
        h.count <= 0xffff,
        h.doc_bits == block_doc_bits(bytes@),
        h.tf_bits == block_tf_bits(bytes@),
        h.first_doc_id == block_doc(bytes@, 0),
{
    proof {
        lemma2_to64();
    }
    BlockHeader {
        count: codec::read_le(bytes, 0, 2) as usize,
        doc_bits: bytes[2],
        tf_bits: bytes[3],
        first_doc_id: codec::read_le(bytes, 4, 4) as u32,
    }
}

/// Can the document ids of the block be read?
pub fn check_docs(bytes: &[u8]) -> (r: bool)
    ensures
        r == docs_readable(bytes@),
{
    if bytes.len() < HEADER_BYTES {
        return false;
    }
    let header = read_header(bytes);
    if header.count == 0 {
        return false;
    }
    let ghost b = bytes@;
    let n: usize = header.count - 1;
    let payload: &[u8] = slice_subrange(bytes, HEADER_BYTES, bytes.len());
    assert(payload@ =~= block_payload(b));
    let mut reader = BitReader::new(payload);
    let mut doc: u64 = header.first_doc_id as u64;
    let mut i: usize = 0;
    assert(0 * header.doc_bits == 0);
    while i < n
        invariant
            n == block_count(b) - 1,
            n < 0xffff,
            header.doc_bits == block_doc_bits(b),
            reader.bytes@ == block_payload(b),
            i <= n,
            reader.bit_pos == i * header.doc_bits,
            doc == block_doc(b, i as nat),
            doc <= (i + 1) * 0x1_0000_0000,
        decreases n - i,
    {
        proof {
            let db = header.doc_bits as int;
            assert((i + 1) * db == i * db + db) by (nonlinear_arith);
            assert((i + 1) * db <= 0xffff * 255) by (nonlinear_arith)
                requires
                    i + 1 <= 0xffff,
                    0 <= db <= 255,
            ;
        }
        let gap: u32 = reader.read(header.doc_bits);
        assert(gap == block_gap(b, i as nat));
        doc = doc + gap as u64 + 1;
        i += 1;
    }
    doc <= u32::MAX as u64
}

/// Can the whole block be read?
pub fn check_block(bytes: &[u8]) -> (r: bool)
    ensures
        r == block_readable(bytes@),
{
    if !check_docs(bytes) {
        return false;
    }
    let header = read_header(bytes);
    let ghost b = bytes@;
    let total: usize = bytes.len();
    let n: usize = header.count - 1;
    proof {
        lemma_bits_fit(
            header.count as nat,
            header.doc_bits as nat,
            header.count as nat,
            header.tf_bits as nat,
        );
    }
    let bits: usize = n * header.doc_bits as usize + header.count * header.tf_bits as usize;
    if total - HEADER_BYTES < (bits + 7) / 8 {
        return false;
    }
    let payload: &[u8] = slice_subrange(bytes, HEADER_BYTES, total);
    assert(payload@ =~= block_payload(b));
    let mut reader = BitReader::at(payload, n * header.doc_bits as usize);
    let mut j: usize = 0;
    assert(0 * header.tf_bits == 0);
    while j < header.count
        invariant
            b == bytes@,
            n == block_count(b) - 1,
            n < 0xffff,
            header.count == n + 1,
            header.doc_bits == block_doc_bits(b),
            header.tf_bits == block_tf_bits(b),
            reader.bytes@ == block_payload(b),
            j <= header.count,
            reader.bit_pos == n * header.doc_bits + j * header.tf_bits,
            forall|i: nat| i < j ==> #[trigger] block_tf_at(b, i) <= u32::MAX,
        decreases header.count - j,
    {
        proof {
            let tb = header.tf_bits as int;
            let db = header.doc_bits as int;
            assert((j + 1) * tb == j * tb + tb) by (nonlinear_arith);
            assert((j + 1) * tb <= 0x10000 * 255) by (nonlinear_arith)
                requires
                    j + 1 <= 0x10000,
                    0 <= tb <= 255,
            ;
            assert(n * db <= 0xffff * 255) by (nonlinear_arith)
                requires
                    0 <= n <= 0xffff,
                    0 <= db <= 255,
            ;
            assert(0 <= n * db && 0 <= j * tb) by (nonlinear_arith)
                requires
                    n >= 0,
                    db >= 0,
                    j >= 0,
                    tb >= 0,
            ;
        }
        let v: u32 = reader.read(header.tf_bits);
        assert(v + 1 == block_tf_at(b, j as nat));
        if v == u32::MAX {
            assert(block_tf_at(bytes@, j as nat) > u32::MAX);
            return false;
        }
        j += 1;
    }
    true
}

/// Decode only the document ids of a block into `out`, which is cleared
/// first. Term frequencies are fetched one at a time with [`block_tf`].
pub fn decode_block_docs(bytes: &[u8], out: &mut Vec<u32>)
    requires
        docs_readable(bytes@),
    ensures
        final(out)@.len() == block_count(bytes@),
        forall|i: int|
            0 <= i < final(out)@.len() ==> #[trigger] final(out)@[i] == block_doc(bytes@, i as nat),
{
    let header = read_header(bytes);
    out.clear();
    let mut doc_id: u32 = header.first_doc_id;
    out.push(doc_id);
    let n: usize = header.count - 1;
    let ghost b = bytes@;
    // Dense block: every gap is one and the payload is empty.
    if header.doc_bits == 0 {
        let mut i: usize = 0;
        while i < n
            invariant
                docs_readable(b),
                n == block_count(b) - 1,
                block_doc_bits(b) == 0,
                i <= n,
                out@.len() == i + 1,
                doc_id == block_doc(b, i as nat),
                forall|j: int| 0 <= j < out@.len() ==> #[trigger] out@[j] == block_doc(b, j as nat),
            decreases n - i,
        {
            proof {
                lemma2_to64();
                lemma_block_doc_monotone(b, (i + 1) as nat, n as nat);
                assert(block_gap(b, i as nat) == 0);
            }
            doc_id = doc_id + 1;
            out.push(doc_id);
            i += 1;
        }
        return;
    }
    let payload: &[u8] = slice_subrange(bytes, HEADER_BYTES, bytes.len());
    let plen: usize = payload.len();
    let db: usize = header.doc_bits as usize;
    let mask: u32 = width_mask(header.doc_bits);
    let quota: usize = 57 / db;
    let per_load: usize = if quota >= 1 { quota } else { 1 };
    let mut bit_pos: usize = 0;
    let mut i: usize = 0;
    proof {
        assert(payload@ =~= block_payload(b));
        assert(0 * db == 0);
        assert(quota * db <= 57) by (nonlinear_arith)
            requires
                quota == 57int / db as int,
                db >= 1,
        ;
    }
    // Wide zone: one 64-bit window yields several gaps.
    while n - i >= per_load && bit_pos / 8 <= plen && plen - bit_pos / 8 >= 8
        invariant
            docs_readable(b),
            payload@ == block_payload(b),
            plen == payload@.len(),
            n == block_count(b) - 1,
            n < 0xffff,
            1 <= db <= 255,
            db == block_doc_bits(b),
            header.doc_bits == db,
            mask == low_bits_mask(value_width(db as nat)),
            mask == pow2(value_width(db as nat)) - 1,
            1 <= per_load,
            per_load == 1 || per_load * db <= 57,
            i <= n,
            bit_pos == i * db,
            bit_pos <= 0xffff * 255,
            out@.len() == i + 1,
            doc_id == block_doc(b, i as nat),
            forall|j: int| 0 <= j < out@.len() ==> #[trigger] out@[j] == block_doc(b, j as nat),
        decreases n - i,
    {
        let word: u64 = read_word(payload, bit_pos / 8);
        let base: usize = bit_pos % 8;
        let mut shift: usize = base;
        let mut k: usize = 0;
        while k < per_load
            invariant
                docs_readable(b),
                payload@ == block_payload(b),
                n == block_count(b) - 1,
                n < 0xffff,
                1 <= db <= 255,
                db == block_doc_bits(b),
                header.doc_bits == db,
                mask == low_bits_mask(value_width(db as nat)),
                mask == pow2(value_width(db as nat)) - 1,
                1 <= per_load <= n - i,
                per_load == 1 || per_load * db <= 57,
                bit_pos == i * db,
                bit_pos <= 0xffff * 255,
                base == bit_pos % 8,
                word == (codec::le_nat(payload@) / pow2(8 * (bit_pos / 8) as nat)) % pow2(64),
                k <= per_load,
                shift == base + k * db,
                out@.len() == i + k + 1,
                doc_id == block_doc(b, (i + k) as nat),
                forall|j: int| 0 <= j < out@.len() ==> #[trigger] out@[j] == block_doc(b, j as nat),
            decreases per_load - k,
        {
            proof {
                assert(k * db + db <= per_load * db) by (nonlinear_arith)
                    requires
                        k + 1 <= per_load,
                ;
                assert(per_load == 1 ==> k * db == 0) by (nonlinear_arith)
                    requires
                        0 <= k < per_load,
                ;
                assert((i + k) * db == i * db + k * db) by (nonlinear_arith);
                lemma_window_field(
                    codec::le_nat(payload@),
                    (bit_pos / 8) as nat,
                    shift as nat,
                    value_width(db as nat),
                );
                lemma_block_doc_monotone(b, (i + k + 1) as nat, n as nat);
                assert((8 * (bit_pos / 8) as nat + shift as nat) as nat == (i + k) as nat * block_doc_bits(b));
            }
            let gap: u32 = extract(word, shift, header.doc_bits, mask);
            assert(gap == block_gap(b, (i + k) as nat));
            doc_id = doc_id + gap + 1;
            out.push(doc_id);
            proof {
                assert((k + 1) * db == k * db + db) by (nonlinear_arith);
            }
            shift = shift + db;
            k += 1;
        }
        proof {
            assert((i + per_load) * db == i * db + per_load * db) by (nonlinear_arith);
            assert((i + per_load) * db <= 0xffff * 255) by (nonlinear_arith)
                requires
                    i + per_load <= 0xffff,
                    db <= 255,
            ;
            assert(per_load * db <= 0xffff * 255) by (nonlinear_arith)
                requires
                    per_load <= 0xffff,
                    db <= 255,
            ;
        }
        bit_pos = bit_pos + per_load * db;
        i = i + per_load;
    }
    // The remaining gaps, one load each; the last ones run past the payload.
    while i < n
        invariant
            docs_readable(b),
            payload@ == block_payload(b),
            n == block_count(b) - 1,
            n < 0xffff,
            1 <= db <= 255,
            db == block_doc_bits(b),
            header.doc_bits == db,
            mask == low_bits_mask(value_width(db as nat)),
            mask == pow2(value_width(db as nat)) - 1,
            i <= n,
            bit_pos == i * db,
            bit_pos <= 0xffff * 255,
            out@.len() == i + 1,
            doc_id == block_doc(b, i as nat),
            forall|j: int| 0 <= j < out@.len() ==> #[trigger] out@[j] == block_doc(b, j as nat),
        decreases n - i,
    {
        let word: u64 = read_word(payload, bit_pos / 8);
        let shift: usize = bit_pos % 8;
        proof {
            lemma_window_field(
                codec::le_nat(payload@),
                (bit_pos / 8) as nat,
                shift as nat,
                value_width(db as nat),
            );
            lemma_block_doc_monotone(b, (i + 1) as nat, n as nat);
            assert((i + 1) * db == i * db + db) by (nonlinear_arith);
            assert((i + 1) * db <= 0xffff * 255) by (nonlinear_arith)
                requires
                    i + 1 <= 0xffff,
                    db <= 255,
            ;
        }
        let gap: u32 = extract(word, shift, header.doc_bits, mask);
        assert(gap == block_gap(b, i as nat));
        doc_id = doc_id + gap + 1;
        out.push(doc_id);
        bit_pos = bit_pos + db;
        i += 1;
    }
}

/// Random access to the `idx`-th term frequency of a block.
pub fn block_tf(bytes: &[u8], idx: usize) -> (tf: u32)
    requires
        bytes@.len() >= HEADER_BYTES,
        idx < block_count(bytes@),
        block_tf_at(bytes@, idx as nat) <= u32::MAX,
    ensures
        tf == block_tf_at(bytes@, idx as nat),
{
    let header = read_header(bytes);
    if header.tf_bits == 0 {
        proof {
            lemma2_to64();
        }
        return 1;
    }
    proof {
        lemma_bits_fit(header.count as nat, header.doc_bits as nat, idx as nat, header.tf_bits as nat);
    }
    let bit_pos: usize = (header.count - 1) * header.doc_bits as usize + idx
        * header.tf_bits as usize;
    let payload: &[u8] = slice_subrange(bytes, HEADER_BYTES, bytes.len());
    assert(payload@ =~= block_payload(bytes@));
    let mut reader = BitReader::at(payload, bit_pos);
    reader.read(header.tf_bits) + 1
}

proof fn lemma_bits_fit(count: nat, db: nat, idx: nat, tb: nat)
    requires
        1 <= count <= 0xffff,
        idx <= count,
        db <= 255,
        tb <= 255,
    ensures
        0 <= (count - 1) * db <= 0xffff * 255,
        0 <= idx * tb <= 0xffff * 255,
{
    assert(0 <= (count - 1) * db <= 0xffff * 255) by (nonlinear_arith)
        requires
            0 <= count - 1 <= 0xffff,
            0 <= db <= 255,
    ;
    assert(0 <= idx * tb <= 0xffff * 255) by (nonlinear_arith)
        requires
            0 <= idx <= 0xffff,
            0 <= tb <= 255,
    ;
}

/// Decode a full block (document ids and term frequencies) into `out`, which
/// is cleared first. Returns the number of bytes that the block takes.
pub fn decode_block(bytes: &[u8], out: &mut Vec<Posting>) -> (used: usize)
    requires
        block_readable(bytes@),
    ensures
        used == block_len(bytes@),
        final(out)@.len() == block_count(bytes@),
        forall|i: int|
            0 <= i < final(out)@.len() ==> {
                &&& (#[trigger] final(out)@[i]).doc_id == block_doc(bytes@, i as nat)
                &&& final(out)@[i].tf == block_tf_at(bytes@, i as nat)
            },
{
    let header = read_header(bytes);
    let ghost b = bytes@;
    proof {
        lemma_bits_fit(
            header.count as nat,
            header.doc_bits as nat,
            header.count as nat,
            header.tf_bits as nat,
        );
    }
    let n: usize = header.count - 1;
    let payload_bits: usize = n * header.doc_bits as usize + header.count * header.tf_bits as usize;
    let payload_bytes: usize = (payload_bits + 7) / 8;
    let window: &[u8] = slice_subrange(bytes, HEADER_BYTES, HEADER_BYTES + payload_bytes);
    let ghost cut = (8 * payload_bytes) as nat;
    proof {
        // Every field of the block lies inside the window.
        let p = block_payload(b);
        assert(window@ =~= p.take(payload_bytes as int));
        assert(p =~= window@ + p.skip(payload_bytes as int));
        codec::lemma_le_nat_concat(window@, p.skip(payload_bytes as int));
        assert(block_bits(b) <= cut);
    }
    let ghost hi = codec::le_nat(block_payload(b).skip(payload_bytes as int));
    let mut reader = BitReader::new(window);
    out.clear();
    let mut doc_id: u32 = header.first_doc_id;
    out.push(Posting { doc_id, tf: 0 });
    let mut i: usize = 0;
    assert(0 * header.doc_bits == 0);
    while i < n
        invariant
            block_readable(b),
            n == block_count(b) - 1,
            n < 0xffff,
            header.doc_bits == block_doc_bits(b),
            reader.bytes@ == window@,
            codec::le_nat(block_payload(b)) == codec::le_nat(window@) + pow2(cut) * hi,
            block_bits(b) <= cut,
            i <= n,
            reader.bit_pos == i * header.doc_bits,
            out@.len() == i + 1,
            doc_id == block_doc(b, i as nat),
            forall|j: int|
                0 <= j < out@.len() ==> (#[trigger] out@[j]).doc_id == block_doc(b, j as nat),
        decreases n - i,
    {
        proof {
            let db = header.doc_bits as int;
            assert((i + 1) * db == i * db + db) by (nonlinear_arith);
            assert((i + 1) * db <= n * db) by (nonlinear_arith)
                requires
                    i + 1 <= n,
                    db >= 0,
            ;
            assert(n * db <= 0xffff * 255) by (nonlinear_arith)
                requires
                    0 <= n <= 0xffff,
                    0 <= db <= 255,
            ;
            assert(block_count(b) * block_tf_bits(b) >= 0) by (nonlinear_arith)
                requires
                    block_count(b) >= 0,
                    block_tf_bits(b) >= 0,
            ;
            lemma_low_part(
                codec::le_nat(window@),
                hi,
                cut,
                (i * db) as nat,
                value_width(db as nat),
            );
            lemma_block_doc_monotone(b, (i + 1) as nat, n as nat);
        }
        let gap: u32 = reader.read(header.doc_bits);
        assert(gap == block_gap(b, i as nat));
        doc_id = doc_id + gap + 1;
        out.push(Posting { doc_id, tf: 0 });
        i += 1;
    }
    let mut j: usize = 0;
    assert(0 * header.tf_bits == 0);
    while j < out.len()
        invariant
            block_readable(b),
            n == block_count(b) - 1,
            n < 0xffff,
            header.doc_bits == block_doc_bits(b),
            header.tf_bits == block_tf_bits(b),
            reader.bytes@ == window@,
            codec::le_nat(block_payload(b)) == codec::le_nat(window@) + pow2(cut) * hi,
            block_bits(b) <= cut,
            j <= out@.len(),
            reader.bit_pos == n * header.doc_bits + j * header.tf_bits,
            out@.len() == n + 1,
            forall|k: int|
                0 <= k < out@.len() ==> (#[trigger] out@[k]).doc_id == block_doc(b, k as nat),
            forall|k: int| 0 <= k < j ==> (#[trigger] out@[k]).tf == block_tf_at(b, k as nat),
        decreases out@.len() - j,
    {
        proof {
            let tb = header.tf_bits as int;
            assert((j + 1) * tb == j * tb + tb) by (nonlinear_arith);
            assert((j + 1) * tb <= (n + 1) * tb) by (nonlinear_arith)
                requires
                    j + 1 <= n + 1,
                    tb >= 0,
            ;
            lemma_bits_fit(
                (n + 1) as nat,
                header.doc_bits as nat,
                (n + 1) as nat,
                header.tf_bits as nat,
            );
            assert(0 <= j * tb) by (nonlinear_arith)
                requires
                    0 <= j,
                    0 <= tb,
            ;
            lemma_low_part(
                codec::le_nat(window@),
                hi,
                cut,
                (n * header.doc_bits + j * tb) as nat,
                value_width(tb as nat),
            );
            assert(block_tf_at(b, j as nat) <= u32::MAX);
        }
        let doc: u32 = out[j].doc_id;
        let tf: u32 = reader.read(header.tf_bits);
        out.set(j, Posting { doc_id: doc, tf: tf + 1 });
        j += 1;
    }
    HEADER_BYTES + payload_bytes
}

/// The gaps between consecutive document ids, each less one.
pub open spec fn gaps(p: Seq<Posting>) -> Seq<nat> {
    Seq::new(
        (p.len() - 1) as nat,
        |i: int| (p[i + 1].doc_id - p[i].doc_id - 1) as nat,
    )
}

/// The term frequencies, each less one.
pub open spec fn tails(p: Seq<Posting>) -> Seq<nat> {
    Seq::new(p.len(), |i: int| (p[i].tf - 1) as nat)
}

/// Width at which the gaps of `p` are packed.
pub open spec fn doc_width(p: Seq<Posting>) -> nat {
    bit_width(largest(gaps(p)))
}

/// Width at which the term frequencies of `p` are packed.
pub open spec fn tf_width(p: Seq<Posting>) -> nat {
    bit_width(largest(tails(p)))
}

/// Length in bits of the stream of `p`.
pub open spec fn stream_bits(p: Seq<Posting>) -> nat {
    (((p.len() - 1) * doc_width(p)) + p.len() * tf_width(p)) as nat
}

/// The bit stream of `p` as one number: the gaps, then the term frequencies.
pub open spec fn stream_value(p: Seq<Posting>) -> nat {
    pack(gaps(p), doc_width(p)) + pow2(((p.len() - 1) * doc_width(p)) as nat) * pack(
        tails(p),
        tf_width(p),
    )
}

/// The header of the block of `p`.
pub open spec fn header_of(p: Seq<Posting>) -> Seq<u8> {
    codec::le_bytes(p.len(), 2) + seq![doc_width(p) as u8, tf_width(p) as u8] + codec::le_bytes(
        p[0].doc_id as nat,
        4,
    )
}

/// The block of `p`, byte for byte.
pub open spec fn encoded(p: Seq<Posting>) -> Seq<u8> {
    header_of(p) + codec::le_bytes(stream_value(p), (stream_bits(p) + 7) / 8)
}

/// What can be encoded: at least one posting and at most 65535, document ids
/// strictly increasing, term frequencies at least one.
pub open spec fn encodable(p: Seq<Posting>) -> bool {
    &&& 1 <= p.len() <= u16::MAX
    &&& forall|i: int, j: int| 0 <= i < j < p.len() ==> (#[trigger] p[i]).doc_id < (#[trigger] p[j]).doc_id
    &&& forall|i: int| 0 <= i < p.len() ==> (#[trigger] p[i]).tf >= 1
}

proof fn lemma_widths(p: Seq<Posting>)
    requires
        encodable(p),
    ensures
        doc_width(p) <= 32,
        tf_width(p) <= 32,
        forall|i: int| 0 <= i < gaps(p).len() ==> #[trigger] gaps(p)[i] < pow2(doc_width(p)),
        forall|i: int| 0 <= i < tails(p).len() ==> #[trigger] tails(p)[i] < pow2(tf_width(p)),
{
    lemma2_to64();
    lemma_largest_below(gaps(p), pow2(32));
    lemma_largest_below(tails(p), pow2(32));
    lemma_bit_width_le(largest(gaps(p)), 32);
    lemma_bit_width_le(largest(tails(p)), 32);
    law_bit_width(largest(gaps(p)));
    law_bit_width(largest(tails(p)));
    assert forall|i: int| 0 <= i < gaps(p).len() implies #[trigger] gaps(p)[i] < pow2(doc_width(p)) by {
        lemma_largest(gaps(p), i);
    }
    assert forall|i: int| 0 <= i < tails(p).len() implies #[trigger] tails(p)[i] < pow2(tf_width(p)) by {
        lemma_largest(tails(p), i);
    }
}

/// A block takes at most 17 bytes per posting.
pub proof fn lemma_encoded_len(p: Seq<Posting>)
    requires
        encodable(p),
    ensures
        encoded(p).len() <= 17 * p.len(),
{
    lemma_widths(p);
    let n = p.len() as int;
    let db = doc_width(p) as int;
    let tb = tf_width(p) as int;
    assert(0 <= (n - 1) * db <= n * 32) by (nonlinear_arith)
        requires
            n >= 1,
            0 <= db <= 32,
    ;
    assert(0 <= n * tb <= n * 32) by (nonlinear_arith)
        requires
            n >= 1,
            0 <= tb <= 32,
    ;
}

/// Documents lie at least as far apart as their positions.
proof fn lemma_apart(p: Seq<Posting>, i: int, j: int)
    requires
        encodable(p),
        0 <= i <= j < p.len(),
    ensures
        p[j].doc_id - p[i].doc_id >= j - i,
    decreases j - i,
{
    if i < j {
        lemma_apart(p, i, j - 1);
        assert(p[j - 1].doc_id < p[j].doc_id);
    }
}

/// The largest element is one of them.
proof fn lemma_largest_found(vals: Seq<nat>) -> (i: int)
    requires
        vals.len() > 0,
    ensures
        0 <= i < vals.len(),
        vals[i] == largest(vals),
    decreases vals.len(),
{
    let front = vals.drop_last();
    if vals.last() > largest(front) || front.len() == 0 {
        vals.len() - 1
    } else {
        let i = lemma_largest_found(front);
        assert(front[i] == vals[i]);
        i
    }
}

/// A full block of documents that hold a term once takes less room than the
/// range of its documents.
pub proof fn lemma_flat_len(p: Seq<Posting>)
    requires
        encodable(p),
        p.len() == 128,
        forall|i: int| 0 <= i < p.len() ==> (#[trigger] p[i]).tf == 1,
    ensures
        8 * encoded(p).len() <= 7 * (p[127].doc_id - p[0].doc_id + 1),
{
    lemma_widths(p);
    let g = largest(gaps(p));
    let w = doc_width(p);
    lemma_largest_below(tails(p), 1);
    assert(bit_width(0) == 0);
    assert(stream_bits(p) == 127 * w) by (nonlinear_arith)
        requires
            stream_bits(p) == (p.len() - 1) * w + p.len() * tf_width(p),
            p.len() == 128,
            tf_width(p) == 0,
    ;
    assert(encoded(p).len() <= 8 + 16 * w);
    let i = lemma_largest_found(gaps(p));
    lemma_apart(p, 0, i);
    lemma_apart(p, i + 1, 127);
    assert(p[127].doc_id - p[0].doc_id >= 127 + g);
    law_bit_width(g);
    lemma2_to64();
    if w > 7 {
        lemma_room(w);
    } else if w == 7 {
        assert(pow2(6) <= g);
    }
}

/// Widths grow slower than what they hold.
proof fn lemma_room(w: nat)
    requires
        w >= 7,
    ensures
        64 + 128 * w <= 896 + 7 * pow2((w - 1) as nat),
    decreases w,
{
    lemma2_to64();
    if w > 7 {
        lemma_room((w - 1) as nat);
        lemma_pow2_unfold((w - 1) as nat);
        if w > 8 {
            lemma_pow2_strictly_increases(6, (w - 2) as nat);
        }
    }
}

proof fn lemma_largest_below(vals: Seq<nat>, bound: nat)
    requires
        bound > 0,
        forall|i: int| 0 <= i < vals.len() ==> #[trigger] vals[i] < bound,
    ensures
        largest(vals) < bound,
    decreases vals.len(),
{
    if vals.len() > 0 {
        let r = vals.drop_last();
        assert forall|i: int| 0 <= i < r.len() implies #[trigger] r[i] < bound by {
            assert(r[i] == vals[i]);
        }
        lemma_largest_below(r, bound);
    }
}

/// A block reads back as the postings it was made from, whatever bytes follow
/// it: the full decode, the documents-only decode and the random access to
/// term frequencies all see the same postings.
pub proof fn law_decode_inverts_encode(p: Seq<Posting>, rest: Seq<u8>)
    requires
        encodable(p),
    ensures
        block_readable(encoded(p) + rest),
        block_count(encoded(p) + rest) == p.len(),
        block_len(encoded(p) + rest) == encoded(p).len(),
        forall|i: int|
            0 <= i < p.len() ==> {
                &&& block_doc(encoded(p) + rest, i as nat) == (#[trigger] p[i]).doc_id
                &&& block_tf_at(encoded(p) + rest, i as nat) == p[i].tf
            },
{
    let b = encoded(p) + rest;
    let db = doc_width(p);
    let tb = tf_width(p);
    let n = p.len();
    lemma_widths(p);
    lemma2_to64();
    // Header.
    assert(b.subrange(0, 2) =~= codec::le_bytes(n, 2));
    assert(b.subrange(4, 8) =~= codec::le_bytes(p[0].doc_id as nat, 4));
    codec::lemma_le_round_trip(n, 2);
    codec::lemma_le_round_trip(p[0].doc_id as nat, 4);
    assert(b[2] == db && b[3] == tb);
    // Payload.
    let bits = stream_bits(p);
    let m = (bits + 7) / 8;
    let body = codec::le_bytes(stream_value(p), m);
    assert(block_payload(b) =~= body + rest);
    codec::lemma_le_nat_concat(body, rest);
    lemma_pack_bound(gaps(p), db);
    lemma_pack_bound(tails(p), tb);
    let cut = ((n - 1) * db) as nat;
    assert(0 <= (n - 1) * db) by (nonlinear_arith)
        requires
            n >= 1,
            db >= 0,
    ;
    assert(0 <= n * tb) by (nonlinear_arith)
        requires
            n >= 1,
            tb >= 0,
    ;
    let lo = pack(gaps(p), db);
    let hi = pack(tails(p), tb);
    lemma_pow2_adds(cut, n * tb);
    assert(stream_value(p) < pow2(bits)) by {
        let a = pow2(cut);
        let c = pow2(n * tb);
        assert(lo + a * hi < a * c) by (nonlinear_arith)
            requires
                lo < a,
                hi + 1 <= c,
        ;
    }
    if bits < 8 * m {
        lemma_pow2_strictly_increases(bits, 8 * m);
    }
    codec::lemma_le_round_trip(stream_value(p), m);
    assert forall|i: nat| i + 1 < n implies #[trigger] block_gap(b, i) == gaps(p)[i as int] by {
        assert(i * db + db <= (n - 1) * db) by (nonlinear_arith)
            requires
                i + 1 <= n - 1,
        ;
        assert(0 <= i * db) by (nonlinear_arith)
            requires
                i >= 0,
                db >= 0,
        ;
        lemma_low_part(stream_value(p), codec::le_nat(rest), 8 * m, i * db, db);
        lemma_low_part(lo, hi, cut, i * db, db);
        lemma_pack_field(gaps(p), db, i as int);
    }
    assert forall|i: nat| i < n implies #[trigger] block_tf_at(b, i) == p[i as int].tf by {
        assert(i * tb + tb <= n * tb) by (nonlinear_arith)
            requires
                i + 1 <= n,
        ;
        assert(0 <= i * tb) by (nonlinear_arith)
            requires
                i >= 0,
                tb >= 0,
        ;
        lemma_low_part(stream_value(p), codec::le_nat(rest), 8 * m, cut + i * tb, tb);
        lemma_high_part(lo, hi, cut, i * tb);
        lemma_pack_field(tails(p), tb, i as int);
        assert(tails(p)[i as int] == p[i as int].tf - 1);
    }
    assert forall|i: int| 0 <= i < n implies block_doc(b, i as nat) == (#[trigger] p[i]).doc_id by {
        lemma_docs_from_gaps(p, b, i as nat);
    }
    assert(block_doc(b, (n - 1) as nat) == p[n - 1].doc_id);
}

proof fn lemma_docs_from_gaps(p: Seq<Posting>, b: Seq<u8>, i: nat)
    requires
        encodable(p),
        i < p.len(),
        block_doc(b, 0) == p[0].doc_id,
        forall|j: nat| j + 1 < p.len() ==> #[trigger] block_gap(b, j) == gaps(p)[j as int],
    ensures
        block_doc(b, i) == p[i as int].doc_id,
    decreases i,
{
    if i > 0 {
        lemma_docs_from_gaps(p, b, (i - 1) as nat);
        assert(block_gap(b, (i - 1) as nat) == gaps(p)[i - 1]);
        assert(p[i - 1].doc_id < p[i as int].doc_id);
    }
}

/// Append the block of `postings` to `out`.
pub fn encode_block(postings: &[Posting], out: &mut Vec<u8>)
    requires
        encodable(postings@),
    ensures
        final(out)@ == old(out)@ + encoded(postings@),
{
    let ghost p = postings@;
    let ghost start = out@;
    let n: usize = postings.len();
    proof {
        lemma_widths(p);
        lemma2_to64();
    }
    let mut max_gap: u32 = 0;
    let mut i: usize = 1;
    assert(gaps(p).take(0) =~= Seq::<nat>::empty());
    while i < n
        invariant
            encodable(p),
            p == postings@,
            n == p.len(),
            1 <= i <= n,
            max_gap == largest(gaps(p).take(i - 1)),
        decreases n - i,
    {
        assert(p[i - 1].doc_id < p[i as int].doc_id);
        let gap: u32 = postings[i].doc_id - postings[i - 1].doc_id - 1;
        proof {
            assert(gaps(p).take(i as int).drop_last() =~= gaps(p).take(i - 1));
            assert(gaps(p).take(i as int).last() == gap);
        }
        if gap > max_gap {
            max_gap = gap;
        }
        i += 1;
    }
    assert(gaps(p).take(n - 1) =~= gaps(p));
    let mut max_tf: u32 = 0;
    let mut j: usize = 0;
    assert(tails(p).take(0) =~= Seq::<nat>::empty());
    while j < n
        invariant
            encodable(p),
            p == postings@,
            n == p.len(),
            j <= n,
            max_tf == largest(tails(p).take(j as int)),
        decreases n - j,
    {
        assert(p[j as int].tf >= 1);
        let tail: u32 = postings[j].tf - 1;
        proof {
            assert(tails(p).take(j + 1).drop_last() =~= tails(p).take(j as int));
            assert(tails(p).take(j + 1).last() == tail);
        }
        if tail > max_tf {
            max_tf = tail;
        }
        j += 1;
    }
    assert(tails(p).take(n as int) =~= tails(p));
    let doc_bits: u8 = bits_needed(max_gap);
    let tf_bits: u8 = bits_needed(max_tf);
    codec::push_le(out, n as u64, 2);
    out.push(doc_bits);
    out.push(tf_bits);
    codec::push_le(out, postings[0].doc_id as u64, 4);
    let ghost base = out@;
    assert(base =~= start + header_of(p));
    let ghost bl = (8 * base.len()) as nat;
    let mut writer = BitWriter::new(out);
    let mut a: usize = 1;
    proof {
        lemma2_to64();
        assert(0 * doc_bits == 0);
        assert(pow2(bl) * 0 == 0);
    }
    while a < n
        invariant
            encodable(p),
            p == postings@,
            n == p.len(),
            1 <= a <= n,
            doc_bits == doc_width(p),
            doc_bits <= 32,
            forall|i: int| 0 <= i < gaps(p).len() ==> #[trigger] gaps(p)[i] < pow2(doc_width(p)),
            writer.wf(),
            bl == 8 * base.len(),
            writer.value() == codec::le_nat(base) + pow2(bl) * pack(
                gaps(p).take(a - 1),
                doc_bits as nat,
            ),
            writer.bit_len() == bl + (a - 1) * doc_bits,
            final(writer.out)@ == after_borrow(out)@,
        decreases n - a,
    {
        assert(p[a - 1].doc_id < p[a as int].doc_id);
        let gap: u32 = postings[a].doc_id - postings[a - 1].doc_id - 1;
        proof {
            let k = a - 1;
            assert(gap == gaps(p)[k]);
            assert(gaps(p).take(a as int).drop_last() =~= gaps(p).take(k));
            let at = (k * doc_bits) as nat;
            assert(0 <= k * doc_bits) by (nonlinear_arith)
                requires
                    k >= 0,
                    doc_bits >= 0,
            ;
            lemma_pow2_adds(bl, at);
            let x = pow2(bl);
            let y = pow2(at);
            let z = pack(gaps(p).take(k), doc_bits as nat);
            assert(x * (z + y * gap) == x * z + (x * y) * gap) by (nonlinear_arith);
            assert(a * doc_bits == k * doc_bits + doc_bits) by (nonlinear_arith)
                requires
                    k == a - 1,
            ;
        }
        writer.write(gap, doc_bits);
        a += 1;
    }
    assert(gaps(p).take(n - 1) =~= gaps(p));
    let ghost cut = ((n - 1) * doc_bits) as nat;
    let ghost lo = pack(gaps(p), doc_bits as nat);
    let mut c: usize = 0;
    proof {
        assert(0 <= (n - 1) * doc_bits) by (nonlinear_arith)
            requires
                n >= 1,
                doc_bits >= 0,
        ;
        assert(0 * tf_bits == 0);
        assert(pow2(cut) * 0 == 0);
    }
    while c < n
        invariant
            encodable(p),
            p == postings@,
            n == p.len(),
            c <= n,
            tf_bits == tf_width(p),
            tf_bits <= 32,
            forall|i: int| 0 <= i < tails(p).len() ==> #[trigger] tails(p)[i] < pow2(tf_width(p)),
            writer.wf(),
            bl == 8 * base.len(),
            writer.value() == codec::le_nat(base) + pow2(bl) * (lo + pow2(cut) * pack(
                tails(p).take(c as int),
                tf_bits as nat,
            )),
            writer.bit_len() == bl + cut + c * tf_bits,
            final(writer.out)@ == after_borrow(out)@,
        decreases n - c,
    {
        assert(p[c as int].tf >= 1);
        let tail: u32 = postings[c].tf - 1;
        proof {
            assert(tail == tails(p)[c as int]);
            assert(tails(p).take(c + 1).drop_last() =~= tails(p).take(c as int));
            let at = (c * tf_bits) as nat;
            assert(0 <= c * tf_bits) by (nonlinear_arith)
                requires
                    c >= 0,
                    tf_bits >= 0,
            ;
            lemma_pow2_adds(bl, cut);
            lemma_pow2_adds(bl + cut, at);
            let x = pow2(bl);
            let w = pow2(cut);
            let y = pow2(at);
            let z = pack(tails(p).take(c as int), tf_bits as nat);
            assert(x * (lo + w * (z + y * tail)) == x * (lo + w * z) + ((x * w) * y) * tail)
                by (nonlinear_arith);
            assert((c + 1) * tf_bits == c * tf_bits + tf_bits) by (nonlinear_arith);
        }
        writer.write(tail, tf_bits);
        c += 1;
    }
    assert(tails(p).take(n as int) =~= tails(p));
    let ghost total = writer.value();
    writer.finish();
    proof {
        let sv = stream_value(p);
        let l = base.len();
        assert(codec::le_nat(out@) == codec::le_nat(base) + pow2(bl) * sv);
        codec::lemma_le_nat_bound(base);
        lemma_pow2_pos(bl);
        lemma_mul_is_commutative(pow2(bl) as int, sv as int);
        lemma_fundamental_div_mod_converse(
            codec::le_nat(out@) as int,
            pow2(bl) as int,
            sv as int,
            codec::le_nat(base) as int,
        );
        codec::lemma_le_nat_skip(out@, l);
        codec::lemma_le_bytes_of_le_nat(out@.take(l as int));
        codec::lemma_le_bytes_of_le_nat(base);
        codec::lemma_le_bytes_of_le_nat(out@.skip(l as int));
        assert(out@ =~= out@.take(l as int) + out@.skip(l as int));
        assert(out@.len() == l + (stream_bits(p) + 7) / 8);
        assert(out@ =~= start + encoded(p));
    }
}

/// A run of neighbouring documents that hold the term once each takes no more
/// room than the header.
pub proof fn law_dense_blocks_cost_a_header(p: Seq<Posting>)
    requires
        encodable(p),
        forall|i: int| 0 <= i < p.len() ==> (#[trigger] p[i]).doc_id == p[0].doc_id + i,
        forall|i: int| 0 <= i < p.len() ==> (#[trigger] p[i]).tf == 1,
    ensures
        encoded(p).len() == 8,
{
    lemma_widths(p);
    lemma_largest_below(tails(p), 1);
    lemma_largest_below(gaps(p), 1);
    assert(bit_width(0) == 0);
    assert(stream_bits(p) == 0) by (nonlinear_arith)
        requires
            stream_bits(p) == (p.len() - 1) * doc_width(p) + p.len() * tf_width(p),
            doc_width(p) == 0,
            tf_width(p) == 0,
    ;
}

} // verus!
