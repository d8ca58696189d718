//! Tables of fixed-width little-endian integers in byte sequences.

use crate::codec;
use vstd::arithmetic::div_mod::*;
use vstd::arithmetic::power2::*;
use vstd::prelude::*;

verus! {

/// The entries of `v`, each in `n` bytes, one after the other.
pub open spec fn table(v: Seq<nat>, n: nat) -> Seq<u8>
    decreases v.len(),
{
    if v.len() == 0 {
        Seq::empty()
    } else {
        table(v.drop_last(), n) + codec::le_bytes(v.last(), n)
    }
}

/// The `count` entries of `n` bytes that start at `off`.
pub open spec fn entries(b: Seq<u8>, off: int, count: int, n: int) -> Seq<nat> {
    Seq::new(count as nat, |i: int| codec::le_at(b, off + i * n, n))
}

/// Every entry fits in `n` bytes.
pub open spec fn fits(v: Seq<nat>, n: nat) -> bool {
    forall|i: int| 0 <= i < v.len() ==> (#[trigger] v[i]) < pow2(8 * n)
}

pub proof fn lemma_table_len(v: Seq<nat>, n: nat)
    ensures
        table(v, n).len() == v.len() * n,
    decreases v.len(),
{
    if v.len() > 0 {
        lemma_table_len(v.drop_last(), n);
        let k = v.len();
        assert((k - 1) * n + n == k * n) by (nonlinear_arith);
    } else {
        assert(0 * n == 0) by (nonlinear_arith);
    }
}

pub proof fn lemma_table_concat(a: Seq<nat>, b: Seq<nat>, n: nat)
    ensures
        table(a + b, n) == table(a, n) + table(b, n),
    decreases b.len(),
{
    if b.len() == 0 {
        assert(a + b =~= a);
        assert(table(a, n) + table(b, n) =~= table(a, n));
    } else {
        lemma_table_concat(a, b.drop_last(), n);
        assert((a + b).drop_last() =~= a + b.drop_last());
        assert(table(a + b, n) =~= table(a, n) + table(b, n));
    }
}

/// Entry `i` is read back from its place.
pub proof fn lemma_table_entry(before: Seq<u8>, v: Seq<nat>, n: nat, after: Seq<u8>, i: int)
    requires
        fits(v, n),
        0 <= i < v.len(),
    ensures
        codec::le_at(before + table(v, n) + after, before.len() + i * n, n as int) == v[i],
    decreases v.len(),
{
    let whole = before + table(v, n) + after;
    let own = codec::le_bytes(v.last(), n);
    let rest = table(v.drop_last(), n);
    if i == v.len() - 1 {
        lemma_table_len(v.drop_last(), n);
        assert(whole =~= (before + rest) + own + after);
        codec::lemma_field(before + rest, v.last(), n, after);
        assert(before.len() + i * n == (before + rest).len());
    } else {
        assert(whole =~= before + rest + (own + after));
        assert(fits(v.drop_last(), n)) by {
            assert forall|j: int| 0 <= j < v.len() - 1 implies (#[trigger] v.drop_last()[j]) < pow2(
                8 * n,
            ) by {
                assert(v[j] < pow2(8 * n));
            }
        }
        lemma_table_entry(before, v.drop_last(), n, own + after, i);
    }
}

/// A table written between other bytes is read back from its place.
pub proof fn lemma_table(before: Seq<u8>, v: Seq<nat>, n: nat, after: Seq<u8>)
    requires
        fits(v, n),
    ensures
        entries(
            before + table(v, n) + after,
            before.len() as int,
            v.len() as int,
            n as int,
        ) == v,
{
    let whole = before + table(v, n) + after;
    let e = entries(whole, before.len() as int, v.len() as int, n as int);
    assert forall|i: int| 0 <= i < v.len() implies e[i] == v[i] by {
        lemma_table_entry(before, v, n, after, i);
    }
    assert(e =~= v);
}

/// The numbers of a list of `u16`.
pub open spec fn nats_u16(v: Seq<u16>) -> Seq<nat> {
    v.map_values(|x: u16| x as nat)
}

pub proof fn lemma_fits_u16(v: Seq<u16>)
    ensures
        fits(nats_u16(v), 2),
{
    lemma2_to64();
    lemma2_to64_rest();
}

/// Append `v` to `out`.
pub fn push_u16(out: &mut Vec<u8>, v: &[u16])
    ensures
        final(out)@ == old(out)@ + table(nats_u16(v@), 2),
{
    let ghost start = out@;
    let mut i: usize = 0;
    assert(out@ =~= start + table(nats_u16(v@.take(0)), 2));
    while i < v.len()
        invariant
            i <= v@.len(),
            out@ == start + table(nats_u16(v@.take(i as int)), 2),
        decreases v@.len() - i,
    {
        proof {
            let longer = nats_u16(v@.take(i + 1));
            assert(longer.drop_last() =~= nats_u16(v@.take(i as int)));
            assert(longer.last() == v@[i as int]);
        }
        codec::push_le(out, v[i] as u64, 2);
        assert(out@ =~= start + table(nats_u16(v@.take(i + 1)), 2));
        i += 1;
    }
    assert(v@.take(i as int) =~= v@);
}

/// The `count` entries that start at `off`.
pub fn read_u16(bytes: &[u8], off: usize, count: usize) -> (v: Vec<u16>)
    requires
        off + count * 2 <= bytes@.len(),
    ensures
        nats_u16(v@) == entries(bytes@, off as int, count as int, 2),
        v@.len() == count,
{
    let total: usize = bytes.len();
    let mut v: Vec<u16> = Vec::new();
    let mut i: usize = 0;
    while i < count
        invariant
            i <= count,
            total == bytes@.len(),
            off + count * 2 <= total,
            v@.len() == i,
            forall|j: int|
                0 <= j < i ==> (#[trigger] v@[j]) as nat == codec::le_at(bytes@, off + j * 2, 2),
        decreases count - i,
    {
        let x: u64 = codec::read_le(bytes, off + i * 2, 2);
        proof {
            lemma2_to64();
            lemma2_to64_rest();
        }
        v.push(x as u16);
        i += 1;
    }
    assert(nats_u16(v@) =~= entries(bytes@, off as int, count as int, 2));
    v
}

/// The numbers of a list of `u32`.
pub open spec fn nats_u32(v: Seq<u32>) -> Seq<nat> {
    v.map_values(|x: u32| x as nat)
}

pub proof fn lemma_fits_u32(v: Seq<u32>)
    ensures
        fits(nats_u32(v), 4),
{
    lemma2_to64();
    lemma2_to64_rest();
}

/// Append `v` to `out`.
pub fn push_u32(out: &mut Vec<u8>, v: &[u32])
    ensures
        final(out)@ == old(out)@ + table(nats_u32(v@), 4),
{
    let ghost start = out@;
    let mut i: usize = 0;
    assert(out@ =~= start + table(nats_u32(v@.take(0)), 4));
    while i < v.len()
        invariant
            i <= v@.len(),
            out@ == start + table(nats_u32(v@.take(i as int)), 4),
        decreases v@.len() - i,
    {
        proof {
            let longer = nats_u32(v@.take(i + 1));
            assert(longer.drop_last() =~= nats_u32(v@.take(i as int)));
            assert(longer.last() == v@[i as int]);
        }
        codec::push_le(out, v[i] as u64, 4);
        assert(out@ =~= start + table(nats_u32(v@.take(i + 1)), 4));
        i += 1;
    }
    assert(v@.take(i as int) =~= v@);
}

/// The `count` entries that start at `off`.
pub fn read_u32(bytes: &[u8], off: usize, count: usize) -> (v: Vec<u32>)
    requires
        off + count * 4 <= bytes@.len(),
    ensures
        nats_u32(v@) == entries(bytes@, off as int, count as int, 4),
        v@.len() == count,
{
    let total: usize = bytes.len();
    let mut v: Vec<u32> = Vec::new();
    let mut i: usize = 0;
    while i < count
        invariant
            i <= count,
            total == bytes@.len(),
            off + count * 4 <= total,
            v@.len() == i,
            forall|j: int|
                0 <= j < i ==> (#[trigger] v@[j]) as nat == codec::le_at(bytes@, off + j * 4, 4),
        decreases count - i,
    {
        let x: u64 = codec::read_le(bytes, off + i * 4, 4);
        proof {
            lemma2_to64();
            lemma2_to64_rest();
        }
        v.push(x as u32);
        i += 1;
    }
    assert(nats_u32(v@) =~= entries(bytes@, off as int, count as int, 4));
    v
}

/// The numbers of a list of `u64`.
pub open spec fn nats_u64(v: Seq<u64>) -> Seq<nat> {
    v.map_values(|x: u64| x as nat)
}

pub proof fn lemma_fits_u64(v: Seq<u64>)
    ensures
        fits(nats_u64(v), 8),
{
    lemma2_to64();
    lemma2_to64_rest();
}

/// Append `v` to `out`.
pub fn push_u64(out: &mut Vec<u8>, v: &[u64])
    ensures
        final(out)@ == old(out)@ + table(nats_u64(v@), 8),
{
    let ghost start = out@;
    let mut i: usize = 0;
    assert(out@ =~= start + table(nats_u64(v@.take(0)), 8));
    while i < v.len()
        invariant
            i <= v@.len(),
            out@ == start + table(nats_u64(v@.take(i as int)), 8),
        decreases v@.len() - i,
    {
        proof {
            let longer = nats_u64(v@.take(i + 1));
            assert(longer.drop_last() =~= nats_u64(v@.take(i as int)));
            assert(longer.last() == v@[i as int]);
        }
        codec::push_le(out, v[i], 8);
        assert(out@ =~= start + table(nats_u64(v@.take(i + 1)), 8));
        i += 1;
    }
    assert(v@.take(i as int) =~= v@);
}

/// The `count` entries that start at `off`.
pub fn read_u64(bytes: &[u8], off: usize, count: usize) -> (v: Vec<u64>)
    requires
        off + count * 8 <= bytes@.len(),
    ensures
        nats_u64(v@) == entries(bytes@, off as int, count as int, 8),
        v@.len() == count,
{
    let total: usize = bytes.len();
    let mut v: Vec<u64> = Vec::new();
    let mut i: usize = 0;
    while i < count
        invariant
            i <= count,
            total == bytes@.len(),
            off + count * 8 <= total,
            v@.len() == i,
            forall|j: int|
                0 <= j < i ==> (#[trigger] v@[j]) as nat == codec::le_at(bytes@, off + j * 8, 8),
        decreases count - i,
    {
        let x: u64 = codec::read_le(bytes, off + i * 8, 8);
        proof {
            lemma2_to64();
            lemma2_to64_rest();
        }
        v.push(x);
        i += 1;
    }
    assert(nats_u64(v@) =~= entries(bytes@, off as int, count as int, 8));
    v
}

/// What begins at `off` is `part`, then `rest`.
pub proof fn lemma_next(b: Seq<u8>, off: int, part: Seq<u8>, rest: Seq<u8>)
    requires
        0 <= off <= b.len(),
        b.skip(off) == part + rest,
    ensures
        off + part.len() <= b.len(),
        b.subrange(off, off + part.len()) == part,
        b.skip(off + part.len()) == rest,
{
    assert(b.subrange(off, off + part.len()) =~= (part + rest).take(part.len() as int));
    assert((part + rest).take(part.len() as int) =~= part);
    assert(b.skip(off + part.len()) =~= (part + rest).skip(part.len() as int));
    assert((part + rest).skip(part.len() as int) =~= rest);
}

/// What begins at `off` is the table of `v`, then `rest`.
pub proof fn lemma_next_table(b: Seq<u8>, off: int, v: Seq<nat>, n: nat, rest: Seq<u8>)
    requires
        0 <= off <= b.len(),
        b.skip(off) == table(v, n) + rest,
        fits(v, n),
    ensures
        off + v.len() * n <= b.len(),
        entries(b, off, v.len() as int, n as int) == v,
        b.skip(off + v.len() * n) == rest,
{
    lemma_next(b, off, table(v, n), rest);
    lemma_table_len(v, n);
    let head = b.take(off);
    assert(b =~= head + table(v, n) + rest);
    lemma_table(head, v, n, rest);
}

/// A file: a magic number, its header fields, and the rest.
pub open spec fn framed(magic: nat, fields: Seq<nat>, body: Seq<u8>) -> Seq<u8> {
    codec::le_bytes(magic, 8) + table(fields, 4) + body
}

/// Magic number, fields and body are read back from a file.
pub proof fn lemma_framed(magic: nat, fields: Seq<nat>, body: Seq<u8>)
    requires
        magic < pow2(64),
        fits(fields, 4),
    ensures
        ({
            let b = framed(magic, fields, body);
            let header = 8 + 4 * fields.len() as int;
            &&& codec::le_at(b, 0, 8) == magic
            &&& forall|i: int|
                0 <= i < fields.len() ==> codec::le_at(b, 8 + 4 * i, 4) == #[trigger] fields[i]
            &&& b.len() == header + body.len()
            &&& b.skip(header) == body
            &&& b == b.take(header) + body
        }),
{
    let b = framed(magic, fields, body);
    let lead = codec::le_bytes(magic, 8);
    let header = 8 + 4 * fields.len() as int;
    lemma_table_len(fields, 4);
    assert(b =~= Seq::<u8>::empty() + lead + (table(fields, 4) + body));
    codec::lemma_field(Seq::empty(), magic, 8, table(fields, 4) + body);
    assert forall|i: int| 0 <= i < fields.len() implies codec::le_at(b, 8 + 4 * i, 4)
        == #[trigger] fields[i] by {
        lemma_table_entry(lead, fields, 4, body, i);
        assert(lead.len() + i * 4 == 8 + 4 * i);
    }
    assert(b.skip(header) =~= body);
    assert(b =~= b.take(header) + body);
}

/// A file that holds no more than its header.
pub fn new_frame(magic: u64, fields: &[u32]) -> (out: Vec<u8>)
    ensures
        out@ == framed(magic as nat, nats_u32(fields@), Seq::empty()),
{
    let mut out: Vec<u8> = Vec::new();
    codec::push_le(&mut out, magic, 8);
    push_u32(&mut out, fields);
    assert(out@ =~= framed(magic as nat, nats_u32(fields@), Seq::empty()));
    out
}

/// The `i`-th header field.
pub fn field(bytes: &[u8], i: usize) -> (v: u32)
    requires
        8 + 4 * i + 4 <= bytes@.len(),
    ensures
        v == codec::le_at(bytes@, 8 + 4 * i, 4),
{
    proof {
        lemma2_to64();
    }
    let total: usize = bytes.len();
    codec::read_le(bytes, 8 + 4 * i, 4) as u32
}

} // verus!
