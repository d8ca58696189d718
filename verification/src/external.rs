//! Building an index whose postings do not fit in memory.
//!
//! Documents stream past and leave `(term, document, tf)` triples behind. A
//! bounded buffer of them is spilled, grouped by term, to a shard. Shards
//! were filled in document order, so the runs of a term in shard order are
//! its posting list, ascending by document.

use crate::bm25;
use crate::codec;
use crate::compress;
use crate::hash;
use crate::indexer;
use crate::indexer::{DocTokens, TokenModel};
use crate::interner;
use crate::interner::Interner;
use crate::order;
use crate::postings;
use crate::postings::{BlockSource, Posting, TermPostings};
use crate::sums;
use crate::text;
use std::collections::HashMap;
use vstd::prelude::*;
use vstd::slice::slice_subrange;

verus! {

// ---------------------------------------------------------------------------
// Packing one term
// ---------------------------------------------------------------------------

/// The postings of block `b`.
pub open spec fn block_of(list: Seq<Posting>, block_size: int, b: int) -> Seq<Posting> {
    list.subrange(
        postings::block_lo(b, block_size),
        postings::block_hi(b, block_size, list.len() as int),
    )
}

/// The packed bytes of the first `b` blocks.
pub open spec fn region(list: Seq<Posting>, block_size: int, b: int) -> Seq<u8>
    decreases b,
{
    if b <= 0 {
        Seq::empty()
    } else {
        region(list, block_size, b - 1) + compress::encoded(block_of(list, block_size, b - 1))
    }
}

/// The packed bytes of the whole list.
pub open spec fn whole_region(list: Seq<Posting>, block_size: int) -> Seq<u8> {
    region(list, block_size, postings::block_total(list.len() as int, block_size))
}

/// Documents ascend within `n` and no frequency is zero.
pub open spec fn packable(list: Seq<Posting>, n: int) -> bool {
    &&& indexer::ascending(list, n)
    &&& forall|i: int| 0 <= i < list.len() ==> (#[trigger] list[i]).tf >= 1
}

/// The posting list of a term, packed, with its block metadata.
pub struct EncodedTerm {
    pub df: u32,
    pub bytes: Vec<u8>,
    /// Where each block begins in `bytes`.
    pub offsets: Vec<u32>,
    pub max_doc_ids: Vec<u32>,
    pub max_tfs: Vec<u32>,
    pub min_lens: Vec<u32>,
}

/// `e` is `list`, packed.
pub open spec fn packs(e: EncodedTerm, list: Seq<Posting>, lens: Seq<u32>, block_size: int) -> bool {
    &&& e.df == list.len()
    &&& e.bytes@ == whole_region(list, block_size)
    &&& e.offsets@.len() == postings::block_total(list.len() as int, block_size)
    &&& forall|b: int|
        0 <= b < e.offsets@.len() ==> #[trigger] e.offsets@[b] == region(list, block_size, b).len()
    &&& postings::is_block_meta(list, lens, block_size, e.max_doc_ids@, e.max_tfs@, e.min_lens@)
}

pub proof fn lemma_block_encodable(list: Seq<Posting>, n: int, block_size: int, b: int)
    requires
        packable(list, n),
        0 < block_size <= u16::MAX,
        0 <= b < postings::block_total(list.len() as int, block_size),
    ensures
        compress::encodable(block_of(list, block_size, b)),
        block_of(list, block_size, b).len() == postings::block_hi(
            b,
            block_size,
            list.len() as int,
        ) - postings::block_lo(b, block_size),
{
    postings::lemma_block_range(b, block_size, list.len() as int);
    let lo = postings::block_lo(b, block_size);
    let p = block_of(list, block_size, b);
    assert forall|i: int, j: int| 0 <= i < j < p.len() implies (#[trigger] p[i]).doc_id < (
    #[trigger] p[j]).doc_id by {
        assert(list[lo + i].doc_id < list[lo + j].doc_id);
    }
    assert forall|i: int| 0 <= i < p.len() implies (#[trigger] p[i]).tf >= 1 by {
        assert(list[lo + i].tf >= 1);
    }
}

proof fn lemma_region_grows(list: Seq<Posting>, block_size: int, a: int, b: int)
    requires
        0 <= a <= b,
    ensures
        region(list, block_size, a).len() <= region(list, block_size, b).len(),
        region(list, block_size, b).take(region(list, block_size, a).len() as int) == region(
            list,
            block_size,
            a,
        ),
    decreases b,
{
    let ra = region(list, block_size, a);
    let rb = region(list, block_size, b);
    if a < b {
        lemma_region_grows(list, block_size, a, b - 1);
        let rc = region(list, block_size, b - 1);
        assert(rb.take(ra.len() as int) =~= rc.take(ra.len() as int));
    } else {
        assert(rb.take(ra.len() as int) =~= ra);
    }
}

/// Is a list, packed, within what the tables can address?
pub open spec fn addressable(list: Seq<Posting>, block_size: int) -> bool {
    &&& list.len() <= u32::MAX
    &&& whole_region(list, block_size).len() <= u32::MAX
}

/// Pack a posting list block by block, if the tables can address it.
pub fn try_encode_term(list: &[Posting], doc_lens: &[u32], block_size: usize) -> (r: Option<
    EncodedTerm,
>)
    requires
        0 < block_size <= u16::MAX,
        packable(list@, doc_lens@.len() as int),
    ensures
        r is Some <==> addressable(list@, block_size as int),
        r matches Some(e) ==> packs(e, list@, doc_lens@, block_size as int),
{
    let n: usize = list.len();
    if n as u64 > u32::MAX as u64 {
        return None;
    }
    let ghost bs = block_size as int;
    let ghost total = postings::block_total(n as int, bs);
    let (max_doc_ids, max_tfs, min_lens) = postings::build_blocks(list, doc_lens, block_size);
    let mut bytes: Vec<u8> = Vec::new();
    let mut offsets: Vec<u32> = Vec::new();
    let blocks: usize = max_doc_ids.len();
    let mut start: usize = 0;
    let mut b: usize = 0;
    assert(0 * bs == 0);
    while b < blocks
        invariant
            0 < block_size <= u16::MAX,
            bs == block_size,
            n == list@.len(),
            blocks == total,
            total == postings::block_total(n as int, bs),
            packable(list@, doc_lens@.len() as int),
            b <= blocks,
            b < blocks ==> start == postings::block_lo(b as int, bs),
            bytes@ == region(list@, bs, b as int),
            bytes@.len() <= u32::MAX,
            offsets@.len() == b,
            forall|j: int|
                0 <= j < b ==> #[trigger] offsets@[j] == region(list@, bs, j).len(),
        decreases blocks - b,
    {
        proof {
            postings::lemma_block_range(b as int, bs, n as int);
            lemma_block_encodable(list@, doc_lens@.len() as int, bs, b as int);
            lemma_region_grows(list@, bs, b + 1, total);
            assert((b + 1) * bs == b * bs + bs) by (nonlinear_arith);
        }
        let end: usize = if n - start > block_size { start + block_size } else { n };
        let chunk: &[Posting] = slice_subrange(list, start, end);
        assert(chunk@ =~= block_of(list@, bs, b as int));
        offsets.push(bytes.len() as u32);
        compress::encode_block(chunk, &mut bytes);
        if bytes.len() as u64 > u32::MAX as u64 {
            return None;
        }
        start = end;
        b += 1;
    }
    Some(EncodedTerm { df: n as u32, bytes, offsets, max_doc_ids, max_tfs, min_lens })
}

/// Pack a posting list block by block.
pub fn encode_term(list: &[Posting], doc_lens: &[u32], block_size: usize) -> (e: EncodedTerm)
    requires
        0 < block_size <= u16::MAX,
        packable(list@, doc_lens@.len() as int),
        addressable(list@, block_size as int),
    ensures
        packs(e, list@, doc_lens@, block_size as int),
{
    try_encode_term(list, doc_lens, block_size).unwrap()
}

/// From where block `b` begins, the packed bytes are that block and what
/// follows.
pub proof fn lemma_block_bytes(list: Seq<Posting>, block_size: int, b: int)
    requires
        0 <= b < postings::block_total(list.len() as int, block_size),
    ensures
        ({
            let whole = whole_region(list, block_size);
            let at = region(list, block_size, b).len() as int;
            let own = compress::encoded(block_of(list, block_size, b));
            &&& at + own.len() <= whole.len()
            &&& whole.skip(at) == own + whole.skip(at + own.len() as int)
        }),
{
    let total = postings::block_total(list.len() as int, block_size);
    let whole = whole_region(list, block_size);
    let at = region(list, block_size, b).len() as int;
    let own = compress::encoded(block_of(list, block_size, b));
    lemma_region_grows(list, block_size, b, total);
    lemma_region_grows(list, block_size, b + 1, total);
    let next = region(list, block_size, b + 1);
    assert(next == region(list, block_size, b) + own);
    assert(whole.skip(at) =~= own + whole.skip(at + own.len() as int)) by {
        assert forall|i: int| 0 <= i < own.len() implies whole.skip(at)[i] == own[i] by {
            assert(whole.take(next.len() as int)[at + i] == next[at + i]);
        }
    }
}

/// What was packed reads back: a view over the packed bytes shows the list
/// that went in, and its metadata bounds it.
pub proof fn law_packed_term_reads_back(
    t: TermPostings,
    e: EncodedTerm,
    list: Seq<Posting>,
    lens: Seq<u32>,
)
    requires
        0 < t.block_size <= u16::MAX,
        t.avg_doc_len > 0,
        t.idf <= bm25::MAX_IDF,
        lens.len() <= u32::MAX,
        packable(list, lens.len() as int),
        packs(e, list, lens, t.block_size as int),
        t.df == list.len(),
        t.block_max_doc_ids@ == e.max_doc_ids@,
        t.block_max_tfs@ == e.max_tfs@,
        t.block_min_lens@ == e.min_lens@,
        postings::is_max_or_one(e.max_tfs@, t.term_max_tf),
        postings::is_min_or_one(e.min_lens@, t.term_min_len),
        t.source matches BlockSource::Compressed { bytes, block_offsets } && bytes@ == e.bytes@
            && block_offsets@ == e.offsets@,
    ensures
        t.list() == list,
        t.wf(lens),
{
    let bs = t.block_size as int;
    let n = list.len() as int;
    let total = postings::block_total(n, bs);
    let whole = whole_region(list, bs);
    assert forall|b: int| 0 <= b < total implies {
        let bb = #[trigger] t.block_bytes(b);
        let p = block_of(list, bs, b);
        &&& compress::block_readable(bb)
        &&& compress::block_count(bb) == p.len()
        &&& e.offsets@[b] <= whole.len()
        &&& p.len() == t.hi(b) - t.lo(b)
        &&& forall|i: int|
            0 <= i < p.len() ==> {
                &&& compress::block_doc(bb, i as nat) == (#[trigger] p[i]).doc_id
                &&& compress::block_tf_at(bb, i as nat) == p[i].tf
            }
    } by {
        lemma_block_encodable(list, lens.len() as int, bs, b);
        lemma_block_bytes(list, bs, b);
        let p = block_of(list, bs, b);
        let at = region(list, bs, b).len() as int;
        let own = compress::encoded(p);
        assert(t.block_bytes(b) == whole.skip(e.offsets@[b] as int));
        compress::law_decode_inverts_encode(p, whole.skip(at + own.len() as int));
    }
    assert forall|i: int| 0 <= i < n implies t.posting(i) == list[i] by {
        postings::lemma_block_of(i, bs, n);
        let b = i / bs;
        let w = i % bs;
        let bb = t.block_bytes(b);
        let p = block_of(list, bs, b);
        vstd::arithmetic::div_mod::lemma_fundamental_div_mod(i, bs);
        assert(b * bs == bs * b) by (nonlinear_arith);
        assert(postings::block_lo(b, bs) + w == i);
        assert(p[w] == list[i]);
        assert(compress::block_doc(bb, w as nat) == p[w].doc_id);
    }
    assert(t.list() =~= list);
    assert(t.source_ok()) by {
        assert forall|b: int| 0 <= b < e.offsets@.len() implies {
            let at = #[trigger] e.offsets@[b];
            let bb = t.block_bytes(b);
            &&& at <= whole.len()
            &&& compress::docs_readable(bb)
            &&& compress::block_count(bb) == t.hi(b) - t.lo(b)
            &&& forall|w: nat|
                w < compress::block_count(bb) ==> #[trigger] compress::block_tf_at(bb, w)
                    <= u32::MAX
        } by {
            let bb = t.block_bytes(b);
            let p = block_of(list, bs, b);
            assert forall|w: nat| w < compress::block_count(bb) implies #[trigger] compress::block_tf_at(
                bb,
                w,
            ) <= u32::MAX by {
                assert(compress::block_tf_at(bb, w) == p[w as int].tf);
            }
        }
    }
    let p = list;
    assert forall|i: int| 0 <= i < p.len() implies {
        &&& (#[trigger] p[i]).doc_id < lens.len()
        &&& p[i].tf <= t.term_max_tf
        &&& t.term_min_len <= lens[p[i].doc_id as int]
    } by {
        postings::lemma_block_of(i, bs, n);
        let b = i / bs;
        assert(postings::is_max_tf(
            p,
            postings::block_lo(b, bs),
            postings::block_hi(b, bs, n),
            e.max_tfs@[b],
        ));
        assert(postings::is_min_len(
            p,
            lens,
            postings::block_lo(b, bs),
            postings::block_hi(b, bs, n),
            e.min_lens@[b],
        ));
    }
    assert forall|b: int, i: int|
        #![trigger t.block_max_tfs@[b], p[i]]
        0 <= b < t.blocks() && t.lo(b) <= i < t.hi(b) implies {
        &&& p[i].tf <= t.block_max_tfs@[b]
        &&& t.block_min_lens@[b] <= lens[p[i].doc_id as int]
    } by {
        assert(postings::is_max_tf(p, t.lo(b), t.hi(b), e.max_tfs@[b]));
        assert(postings::is_min_len(p, lens, t.lo(b), t.hi(b), e.min_lens@[b]));
    }
}

// ---------------------------------------------------------------------------
// Spilling
// ---------------------------------------------------------------------------

/// One posting before the merge.
#[derive(Clone, Copy, PartialEq, Eq, Structural, Debug)]
pub struct Triple {
    pub term: u32,
    pub doc: u32,
    pub tf: u32,
}

/// The postings of `term` among `triples`, in the order in which they came.
pub open spec fn for_term(triples: Seq<Triple>, term: u32) -> Seq<Posting>
    decreases triples.len(),
{
    if triples.len() == 0 {
        Seq::empty()
    } else {
        let t = triples.last();
        if t.term == term {
            for_term(triples.drop_last(), term).push(Posting { doc_id: t.doc, tf: t.tf })
        } else {
            for_term(triples.drop_last(), term)
        }
    }
}

/// The postings of one term in one shard.
pub struct Run {
    pub term: u32,
    pub list: Seq<Posting>,
}

/// Postings as they are written to a shard: document, then frequency.
pub open spec fn posting_bytes(list: Seq<Posting>) -> Seq<u8>
    decreases list.len(),
{
    if list.len() == 0 {
        Seq::empty()
    } else {
        posting_bytes(list.drop_last()) + codec::le_bytes(list.last().doc_id as nat, 4)
            + codec::le_bytes(list.last().tf as nat, 4)
    }
}

/// A run as it is written to a shard: term, number of postings, postings.
pub open spec fn run_bytes(run: Run) -> Seq<u8> {
    codec::le_bytes(run.term as nat, 4) + codec::le_bytes(run.list.len(), 4) + posting_bytes(
        run.list,
    )
}

/// A shard: its runs, one after the other.
pub open spec fn shard_of(runs: Seq<Run>) -> Seq<u8>
    decreases runs.len(),
{
    if runs.len() == 0 {
        Seq::empty()
    } else {
        shard_of(runs.drop_last()) + run_bytes(runs.last())
    }
}

/// `runs` groups the triples by ascending term.
pub open spec fn groups(runs: Seq<Run>, triples: Seq<Triple>) -> bool {
    &&& forall|i: int, j: int| 0 <= i < j < runs.len() ==> (#[trigger] runs[i]).term < (#[trigger] runs[j]).term
    &&& forall|i: int|
        0 <= i < runs.len() ==> {
            &&& (#[trigger] runs[i]).list == for_term(triples, runs[i].term)
            &&& 0 < runs[i].list.len() <= u32::MAX
        }
    &&& forall|t: u32| (#[trigger] for_term(triples, t)).len() > 0 ==> has_run(runs, t)
}

pub open spec fn has_run(runs: Seq<Run>, t: u32) -> bool {
    exists|i: int| 0 <= i < runs.len() && (#[trigger] runs[i]).term == t
}

/// The lists collected so far hold the postings of their terms.
spec fn collected(
    slots: Map<u32, usize>,
    terms: Seq<u32>,
    lists: Seq<Vec<Posting>>,
    triples: Seq<Triple>,
) -> bool {
    &&& lists.len() == terms.len()
    &&& forall|k: int|
        0 <= k < terms.len() ==> {
            &&& slots.contains_key(#[trigger] terms[k])
            &&& slots[terms[k]] == k
        }
    &&& forall|k: int|
        0 <= k < lists.len() ==> {
            &&& (#[trigger] lists[k])@ == for_term(triples, terms[k])
            &&& lists[k]@.len() > 0
        }
    &&& forall|t: u32| #[trigger]
        slots.contains_key(t) ==> slots[t] < terms.len() && terms[slots[t] as int] == t
    &&& forall|t: u32| !#[trigger] slots.contains_key(t) ==> for_term(triples, t).len() == 0
}

fn push_run(out: &mut Vec<u8>, term: u32, list: &Vec<Posting>)
    requires
        list@.len() <= u32::MAX,
    ensures
        final(out)@ == old(out)@ + run_bytes(Run { term, list: list@ }),
{
    let ghost start = out@;
    codec::push_le(out, term as u64, 4);
    codec::push_le(out, list.len() as u64, 4);
    let ghost head = codec::le_bytes(term as nat, 4) + codec::le_bytes(list@.len(), 4);
    let mut i: usize = 0;
    assert(list@.take(0) =~= Seq::<Posting>::empty());
    assert(out@ =~= start + head + posting_bytes(list@.take(0)));
    while i < list.len()
        invariant
            i <= list@.len(),
            out@ == start + head + posting_bytes(list@.take(i as int)),
        decreases list@.len() - i,
    {
        proof {
            assert(list@.take(i + 1).drop_last() =~= list@.take(i as int));
            assert(list@.take(i + 1).last() == list@[i as int]);
        }
        let ghost before = out@;
        codec::push_le(out, list[i].doc_id as u64, 4);
        codec::push_le(out, list[i].tf as u64, 4);
        proof {
            let p = list@[i as int];
            let a = codec::le_bytes(p.doc_id as nat, 4);
            let b = codec::le_bytes(p.tf as nat, 4);
            assert(out@ =~= start + head + (posting_bytes(list@.take(i as int)) + a + b));
        }
        i += 1;
    }
    assert(list@.take(i as int) =~= list@);
    assert(out@ =~= start + run_bytes(Run { term, list: list@ }));
}

/// The shard that a buffer of triples is spilled to.
pub fn spill(pending: &Vec<Triple>) -> (shard: Vec<u8>)
    requires
        forall|t: u32| (#[trigger] for_term(pending@, t)).len() <= u32::MAX,
    ensures
        is_shard(shard@, pending@),
{
    broadcast use vstd::std_specs::hash::group_hash_axioms;

    let mut slots: HashMap<u32, usize> = HashMap::new();
    let mut terms: Vec<u32> = Vec::new();
    let mut lists: Vec<Vec<Posting>> = Vec::new();
    let mut i: usize = 0;
    assert(pending@.take(0) =~= Seq::<Triple>::empty());
    while i < pending.len()
        invariant
            i <= pending@.len(),
            collected(slots@, terms@, lists@, pending@.take(i as int)),
        decreases pending@.len() - i,
    {
        broadcast use vstd::std_specs::hash::group_hash_axioms;

        let t: Triple = pending[i];
        let ghost done = pending@.take(i as int);
        let ghost next = pending@.take(i + 1);
        let ghost slots0 = slots@;
        let ghost terms0 = terms@;
        let ghost lists0 = lists@;
        proof {
            assert(next.drop_last() =~= done);
            assert(next.last() == t);
        }
        let found: Option<usize> = match slots.get(&t.term) {
            Some(s) => Some(*s),
            None => None,
        };
        match found {
            Some(s) => {
                lists[s].push(Posting { doc_id: t.doc, tf: t.tf });
                proof {
                    assert forall|k: int| 0 <= k < lists@.len() implies {
                        &&& (#[trigger] lists@[k])@ == for_term(next, terms@[k])
                        &&& lists@[k]@.len() > 0
                    } by {
                        assert(lists0[k]@ == for_term(done, terms@[k]));
                        if k != s {
                            assert(slots@[terms@[k]] == k);
                            assert(terms@[k] != t.term);
                        }
                    }
                    assert forall|u: u32| !#[trigger] slots@.contains_key(u) implies for_term(
                        next,
                        u,
                    ).len() == 0 by {
                        assert(u != t.term);
                    }
                    assert(collected(slots@, terms@, lists@, next));
                }
            },
            None => {
                slots.insert(t.term, terms.len());
                terms.push(t.term);
                let mut list: Vec<Posting> = Vec::new();
                list.push(Posting { doc_id: t.doc, tf: t.tf });
                lists.push(list);
                proof {
                    let m = terms0.len() as int;
                    assert(for_term(done, t.term) =~= Seq::<Posting>::empty());
                    assert forall|k: int| 0 <= k < terms@.len() implies {
                        &&& slots@.contains_key(#[trigger] terms@[k])
                        &&& slots@[terms@[k]] == k
                    } by {
                        if k < m {
                            assert(terms0[k] == terms@[k]);
                            assert(slots0.contains_key(terms0[k]));
                        }
                    }
                    assert forall|k: int| 0 <= k < lists@.len() implies {
                        &&& (#[trigger] lists@[k])@ == for_term(next, terms@[k])
                        &&& lists@[k]@.len() > 0
                    } by {
                        if k < m {
                            assert(lists0[k]@ == for_term(done, terms0[k]));
                            assert(slots0.contains_key(terms0[k]));
                            assert(terms0[k] != t.term);
                        } else {
                            assert(lists@[k]@ =~= for_term(next, t.term));
                        }
                    }
                    assert forall|u: u32| #[trigger] slots@.contains_key(u) implies slots@[u]
                        < terms@.len() && terms@[slots@[u] as int] == u by {
                        if u != t.term {
                            assert(slots0.contains_key(u));
                        }
                    }
                    assert forall|u: u32| !#[trigger] slots@.contains_key(u) implies for_term(
                        next,
                        u,
                    ).len() == 0 by {
                        assert(!slots0.contains_key(u));
                    }
                    assert(collected(slots@, terms@, lists@, next));
                }
            },
        }
        i += 1;
    }
    assert(pending@.take(i as int) =~= pending@);
    let m: usize = terms.len();
    let mut keys: Vec<u64> = Vec::new();
    let mut a: usize = 0;
    while a < m
        invariant
            a <= m == terms@.len(),
            keys@.len() == a,
            forall|j: int| 0 <= j < a ==> #[trigger] keys@[j] == terms@[j],
        decreases m - a,
    {
        keys.push(terms[a] as u64);
        a += 1;
    }
    let by_term = order::order_by_key(keys.as_slice());
    let ghost runs = Seq::new(
        m as nat,
        |k: int|
            Run { term: terms@[by_term@[k] as int], list: lists@[by_term@[k] as int]@ },
    );
    let mut shard: Vec<u8> = Vec::new();
    let mut k: usize = 0;
    proof {
        assert(runs.take(0) =~= Seq::<Run>::empty());
        assert forall|j: int| 0 <= j < m implies (#[trigger] lists@[j])@.len() <= u32::MAX by {
            assert(lists@[j]@ == for_term(pending@, terms@[j]));
        }
    }
    while k < m
        invariant
            m == terms@.len(),
            m == lists@.len(),
            by_term@.len() == m,
            forall|j: int| 0 <= j < m ==> #[trigger] by_term@[j] < m,
            runs == Seq::new(
                m as nat,
                |k: int|
                    Run { term: terms@[by_term@[k] as int], list: lists@[by_term@[k] as int]@ },
            ),
            forall|j: int| 0 <= j < m ==> (#[trigger] lists@[j])@.len() <= u32::MAX,
            k <= m,
            shard@ == shard_of(runs.take(k as int)),
        decreases m - k,
    {
        let at: usize = by_term[k];
        assert(by_term@[k as int] == at);
        proof {
            assert(lists@[at as int]@.len() <= u32::MAX);
            assert(runs.take(k + 1).drop_last() =~= runs.take(k as int));
            assert(runs.take(k + 1).last() == runs[k as int]);
        }
        push_run(&mut shard, terms[at], &lists[at]);
        k += 1;
    }
    proof {
        assert(runs.take(k as int) =~= runs);
        assert forall|x: int, y: int| 0 <= x < y < runs.len() implies (#[trigger] runs[x]).term < (
        #[trigger] runs[y]).term by {
            let p = by_term@[x] as int;
            let q = by_term@[y] as int;
            assert(order::key_less(keys@)(p, q));
            if terms@[p] == terms@[q] {
                assert(slots@[terms@[p]] == p);
                assert(slots@[terms@[q]] == q);
            }
        }
        assert forall|x: int| 0 <= x < runs.len() implies {
            &&& (#[trigger] runs[x]).list == for_term(pending@, runs[x].term)
            &&& 0 < runs[x].list.len() <= u32::MAX
        } by {
            let p = by_term@[x] as int;
            assert(lists@[p]@ == for_term(pending@, terms@[p]));
        }
        assert forall|t: u32| (#[trigger] for_term(pending@, t)).len() > 0 implies has_run(
            runs,
            t,
        ) by {
            assert(slots@.contains_key(t));
            let p = slots@[t];
            assert(by_term@.contains(p));
            let x = choose|x: int| 0 <= x < by_term@.len() && by_term@[x] == p;
            assert(runs[x].term == t);
        }
        assert(groups(runs, pending@));
    }
    shard
}

// ---------------------------------------------------------------------------
// Merging
// ---------------------------------------------------------------------------

/// What can go wrong while reading shards back.
#[derive(Clone, Copy, PartialEq, Eq, Structural, Debug)]
pub enum ExternalError {
    /// A shard ends inside a run.
    TruncatedShard,
    /// The postings of a term do not ascend, name a document that does not
    /// exist, or have no frequency.
    OutOfOrder,
    /// More postings or blocks than the tables can address.
    TooLarge,
}

/// What stands where a run should begin.
pub enum RunHead {
    /// Fewer than four bytes are left: no more runs.
    End,
    /// There is a term, but no number of postings.
    Truncated,
    Run { term: u32, count: u32 },
}

/// What stands at `pos`.
pub open spec fn head_at(b: Seq<u8>, pos: int) -> RunHead {
    if pos + 4 > b.len() {
        RunHead::End
    } else if pos + 8 > b.len() {
        RunHead::Truncated
    } else {
        RunHead::Run {
            term: codec::le_at(b, pos, 4) as u32,
            count: codec::le_at(b, pos + 4, 4) as u32,
        }
    }
}

/// The `n` postings written from `pos` on.
pub open spec fn postings_at(b: Seq<u8>, pos: int, n: int) -> Seq<Posting> {
    Seq::new(
        n as nat,
        |i: int|
            Posting {
                doc_id: codec::le_at(b, pos + 8 * i, 4) as u32,
                tf: codec::le_at(b, pos + 8 * i + 4, 4) as u32,
            },
    )
}

/// Sequential reader over one shard.
pub struct ShardReader<'a> {
    pub bytes: &'a [u8],
    pub pos: usize,
    /// Term and number of postings of the next run, if there is one.
    pub next: Option<(u32, u32)>,
}

/// The reader stands behind the head at `at`.
pub open spec fn stands_behind(r: ShardReader, at: int) -> bool {
    match head_at(r.bytes@, at) {
        RunHead::End => r.pos == at && r.next is None,
        RunHead::Truncated => false,
        RunHead::Run { term, count } => r.pos == at + 8 && r.next == Some((term, count)),
    }
}

impl<'a> ShardReader<'a> {
    pub open spec fn wf(&self) -> bool {
        self.pos <= self.bytes@.len()
    }

    /// Read the head of the run at the current position.
    fn advance(&mut self) -> (r: Result<(), ExternalError>)
        requires
            old(self).wf(),
        ensures
            final(self).wf(),
            final(self).bytes == old(self).bytes,
            r is Err <==> head_at(old(self).bytes@, old(self).pos as int) is Truncated,
            r is Ok ==> stands_behind(*final(self), old(self).pos as int),
    {
        let n: usize = self.bytes.len();
        if n - self.pos < 4 {
            self.next = None;
            return Ok(());
        }
        if n - self.pos < 8 {
            return Err(ExternalError::TruncatedShard);
        }
        proof {
            vstd::arithmetic::power2::lemma2_to64();
        }
        let term: u32 = codec::read_le(self.bytes, self.pos, 4) as u32;
        let count: u32 = codec::read_le(self.bytes, self.pos + 4, 4) as u32;
        self.next = Some((term, count));
        self.pos = self.pos + 8;
        Ok(())
    }

    /// A reader at the first run of a shard.
    pub fn open(bytes: &'a [u8]) -> (r: Result<Self, ExternalError>)
        ensures
            r is Err <==> head_at(bytes@, 0) is Truncated,
            r matches Ok(s) ==> s.wf() && s.bytes == bytes && stands_behind(s, 0),
    {
        let mut s = ShardReader { bytes, pos: 0, next: None };
        match s.advance() {
            Ok(()) => Ok(s),
            Err(e) => Err(e),
        }
    }

    /// If the next run is for `term`, append its postings to `out`.
    pub fn take_term(&mut self, term: u32, out: &mut Vec<Posting>) -> (r: Result<(), ExternalError>)
        requires
            old(self).wf(),
        ensures
            final(self).wf(),
            final(self).bytes == old(self).bytes,
            match old(self).next {
                Some((t, count)) if t == term => {
                    let pos = old(self).pos as int;
                    let end = pos + 8 * count;
                    &&& r is Err <==> end > old(self).bytes@.len() || head_at(
                        old(self).bytes@,
                        end,
                    ) is Truncated
                    &&& r is Ok ==> stands_behind(*final(self), end) && final(out)@ == old(out)@
                        + postings_at(old(self).bytes@, pos, count as int)
                },
                _ => r is Ok && *final(self) == *old(self) && final(out)@ == old(out)@,
            },
    {
        let count: u32 = match self.next {
            Some((t, c)) => {
                if t != term {
                    return Ok(());
                }
                c
            },
            None => {
                return Ok(());
            },
        };
        let n: usize = self.bytes.len();
        let ghost start = self.pos as int;
        let ghost before = out@;
        let mut i: u32 = 0;
        assert(out@ =~= before + postings_at(self.bytes@, start, 0));
        while i < count
            invariant
                n == self.bytes@.len(),
                self.bytes == old(self).bytes,
                self.pos == start + 8 * i,
                self.pos <= n,
                i <= count,
                out@ == before + postings_at(self.bytes@, start, i as int),
                old(self).next == Some((term, count)),
                old(self).pos == start,
                old(out)@ == before,
            decreases count - i,
        {
            if n - self.pos < 8 {
                return Err(ExternalError::TruncatedShard);
            }
            proof {
                vstd::arithmetic::power2::lemma2_to64();
            }
            let doc_id: u32 = codec::read_le(self.bytes, self.pos, 4) as u32;
            let tf: u32 = codec::read_le(self.bytes, self.pos + 4, 4) as u32;
            out.push(Posting { doc_id, tf });
            self.pos = self.pos + 8;
            i += 1;
            assert(out@ =~= before + postings_at(self.bytes@, start, i as int));
        }
        self.advance()
    }
}

/// The postings of `t` in a shard; none if it has no run.
pub open spec fn run_of(runs: Seq<Run>, t: u32) -> Seq<Posting> {
    if has_run(runs, t) {
        runs[choose|i: int| 0 <= i < runs.len() && (#[trigger] runs[i]).term == t].list
    } else {
        Seq::empty()
    }
}

/// The postings of `t` in all shards, in shard order.
pub open spec fn merged(shards: Seq<Seq<Run>>, t: u32) -> Seq<Posting>
    decreases shards.len(),
{
    if shards.len() == 0 {
        Seq::empty()
    } else {
        merged(shards.drop_last(), t) + run_of(shards.last(), t)
    }
}

/// Terms ascend, and no run is longer than its count can say.
pub open spec fn sorted_runs(runs: Seq<Run>) -> bool {
    &&& forall|i: int, j: int| 0 <= i < j < runs.len() ==> (#[trigger] runs[i]).term < (#[trigger] runs[j]).term
    &&& forall|i: int| 0 <= i < runs.len() ==> (#[trigger] runs[i]).list.len() <= u32::MAX
}

/// The reader has the first `k` runs behind it.
pub open spec fn at_run(r: ShardReader, runs: Seq<Run>, k: int) -> bool {
    &&& r.wf()
    &&& sorted_runs(runs)
    &&& r.bytes@ == shard_of(runs)
    &&& 0 <= k <= runs.len()
    &&& stands_behind(r, shard_of(runs.take(k)).len() as int)
}

/// The first run whose term is not below `t`.
pub open spec fn runs_below(runs: Seq<Run>, t: int, k: int) -> bool {
    &&& 0 <= k <= runs.len()
    &&& forall|i: int| 0 <= i < k ==> (#[trigger] runs[i]).term < t
    &&& forall|i: int| k <= i < runs.len() ==> (#[trigger] runs[i]).term >= t
}

/// The reader has the runs of the terms below `t` behind it.
pub open spec fn before_term(r: ShardReader, runs: Seq<Run>, t: int) -> bool {
    exists|k: int| #[trigger] runs_below(runs, t, k) && at_run(r, runs, k)
}

proof fn lemma_posting_bytes(list: Seq<Posting>, before: Seq<u8>, after: Seq<u8>)
    ensures
        posting_bytes(list).len() == 8 * list.len(),
        postings_at(before + posting_bytes(list) + after, before.len() as int, list.len() as int)
            == list,
    decreases list.len(),
{
    vstd::arithmetic::power2::lemma2_to64();
    let b = before + posting_bytes(list) + after;
    if list.len() > 0 {
        let init = list.drop_last();
        let last = list.last();
        let d = codec::le_bytes(last.doc_id as nat, 4);
        let f = codec::le_bytes(last.tf as nat, 4);
        lemma_posting_bytes(init, before, d + f + after);
        assert(b =~= before + posting_bytes(init) + (d + f + after));
        let head = before + posting_bytes(init);
        codec::lemma_field(head, last.doc_id as nat, 4, f + after);
        assert(b =~= head + d + (f + after));
        codec::lemma_field(head + d, last.tf as nat, 4, after);
        assert(b =~= head + d + f + after);
        assert(postings_at(b, before.len() as int, list.len() as int) =~= list) by {
            assert forall|i: int| 0 <= i < list.len() implies postings_at(
                b,
                before.len() as int,
                list.len() as int,
            )[i] == list[i] by {
                if i < init.len() {
                    assert(postings_at(b, before.len() as int, init.len() as int)[i] == init[i]);
                }
            }
        }
    } else {
        assert(postings_at(b, before.len() as int, 0) =~= list);
    }
}

/// What a shard holds where its `k`-th run begins.
proof fn lemma_shard_at(runs: Seq<Run>, k: int)
    requires
        sorted_runs(runs),
        0 <= k <= runs.len(),
    ensures
        shard_of(runs.take(k)).len() <= shard_of(runs).len(),
        k == runs.len() ==> head_at(shard_of(runs), shard_of(runs.take(k)).len() as int) is End,
        k < runs.len() ==> {
            let at = shard_of(runs.take(k)).len() as int;
            let n = runs[k].list.len() as int;
            &&& head_at(shard_of(runs), at) == (RunHead::Run {
                term: runs[k].term,
                count: n as u32,
            })
            &&& at + 8 + 8 * n == shard_of(runs.take(k + 1)).len()
            &&& at + 8 + 8 * n <= shard_of(runs).len()
            &&& postings_at(shard_of(runs), at + 8, n) == runs[k].list
        },
{
    vstd::arithmetic::power2::lemma2_to64();
    let whole = shard_of(runs);
    if k == runs.len() {
        assert(runs.take(k) =~= runs);
    } else {
        let (pre, rest) = (shard_of(runs.take(k)), lemma_shard_split(runs, k + 1));
        assert(runs.take(k + 1).drop_last() =~= runs.take(k));
        assert(runs.take(k + 1).last() == runs[k]);
        let run = runs[k];
        let t = codec::le_bytes(run.term as nat, 4);
        let c = codec::le_bytes(run.list.len(), 4);
        let p = posting_bytes(run.list);
        assert(whole =~= pre + t + (c + p + rest));
        codec::lemma_field(pre, run.term as nat, 4, c + p + rest);
        assert(whole =~= (pre + t) + c + (p + rest));
        codec::lemma_field(pre + t, run.list.len(), 4, p + rest);
        assert(whole =~= (pre + t + c) + p + rest);
        lemma_posting_bytes(run.list, pre + t + c, rest);
    }
}

/// A shard is its first `k` runs and something else.
proof fn lemma_shard_split(runs: Seq<Run>, k: int) -> (rest: Seq<u8>)
    requires
        0 <= k <= runs.len(),
    ensures
        shard_of(runs) == shard_of(runs.take(k)) + rest,
    decreases runs.len(),
{
    if k == runs.len() {
        assert(runs.take(k) =~= runs);
        assert(shard_of(runs) =~= shard_of(runs.take(k)) + Seq::<u8>::empty());
        Seq::empty()
    } else {
        let r = lemma_shard_split(runs.drop_last(), k);
        assert(runs.drop_last().take(k) =~= runs.take(k));
        let rest = r + run_bytes(runs.last());
        assert(shard_of(runs) =~= shard_of(runs.take(k)) + rest);
        rest
    }
}

/// A freshly opened reader has nothing behind it.
proof fn lemma_opened(r: ShardReader, runs: Seq<Run>)
    requires
        r.wf(),
        sorted_runs(runs),
        r.bytes@ == shard_of(runs),
        stands_behind(r, 0),
    ensures
        before_term(r, runs, 0),
{
    assert(runs.take(0) =~= Seq::<Run>::empty());
    assert(at_run(r, runs, 0));
    assert(runs_below(runs, 0, 0));
}

/// Taking a term from a reader that stands before it yields its run.
proof fn lemma_take(
    old_r: ShardReader,
    new_r: ShardReader,
    runs: Seq<Run>,
    term: u32,
    out0: Seq<Posting>,
    out1: Seq<Posting>,
)
    requires
        before_term(old_r, runs, term as int),
        new_r.wf(),
        new_r.bytes == old_r.bytes,
        match old_r.next {
            Some((t, count)) if t == term => {
                let pos = old_r.pos as int;
                let end = pos + 8 * count;
                end <= old_r.bytes@.len() && !(head_at(old_r.bytes@, end) is Truncated) ==> stands_behind(
                    new_r,
                    end,
                ) && out1 == out0 + postings_at(old_r.bytes@, pos, count as int)
            },
            _ => new_r == old_r && out1 == out0,
        },
    ensures
        before_term(new_r, runs, term + 1),
        out1 == out0 + run_of(runs, term),
{
    let k = choose|k: int| #[trigger] runs_below(runs, term as int, k) && at_run(old_r, runs, k);
    lemma_shard_at(runs, k);
    if k < runs.len() && runs[k].term == term {
        lemma_shard_at(runs, k + 1);
        assert(at_run(new_r, runs, k + 1));
        assert(runs_below(runs, term + 1, k + 1)) by {
            assert forall|i: int| k + 1 <= i < runs.len() implies (#[trigger] runs[i]).term >= term
                + 1 by {
                assert(runs[k].term < runs[i].term);
            }
        }
        assert(has_run(runs, term));
        let j = choose|j: int| 0 <= j < runs.len() && (#[trigger] runs[j]).term == term;
        assert(j == k) by {
            if j < k {
                assert(runs[j].term < term);
            } else if k < j {
                assert(runs[k].term < runs[j].term);
            }
        }
    } else {
        assert(runs_below(runs, term + 1, k)) by {
            assert forall|i: int| k <= i < runs.len() implies (#[trigger] runs[i]).term >= term
                + 1 by {
                if i > k {
                    assert(runs[k].term < runs[i].term);
                }
            }
        }
        if has_run(runs, term) {
            let j = choose|j: int| 0 <= j < runs.len() && (#[trigger] runs[j]).term == term;
            if j < k {
                assert(runs[j].term < term);
            } else if k < j {
                assert(runs[k].term < runs[j].term);
            }
        }
        assert(out1 =~= out0 + run_of(runs, term));
    }
}

/// And it does not fail.
proof fn lemma_take_succeeds(r: ShardReader, runs: Seq<Run>, term: u32)
    requires
        before_term(r, runs, term as int),
    ensures
        match r.next {
            Some((t, count)) if t == term => {
                let end = r.pos + 8 * count;
                end <= r.bytes@.len() && !(head_at(r.bytes@, end) is Truncated)
            },
            _ => true,
        },
{
    let k = choose|k: int| #[trigger] runs_below(runs, term as int, k) && at_run(r, runs, k);
    lemma_shard_at(runs, k);
    if k < runs.len() {
        lemma_shard_at(runs, k + 1);
    }
}

/// All shards, read term by term.
pub struct Merger<'a> {
    pub readers: Vec<ShardReader<'a>>,
    /// The next term to be read.
    pub term: u32,
}

impl<'a> Merger<'a> {
    pub open spec fn wf(&self) -> bool {
        forall|i: int| 0 <= i < self.readers@.len() ==> (#[trigger] self.readers@[i]).wf()
    }

    /// The readers stand behind these heads of these shards.
    pub open spec fn stand(&self, shards: Seq<&[u8]>, heads: Seq<int>) -> bool {
        &&& self.readers@.len() == shards.len()
        &&& heads.len() == shards.len()
        &&& forall|i: int|
            0 <= i < shards.len() ==> {
                &&& (#[trigger] self.readers@[i]).bytes@ == shards[i]@
                &&& stands_behind(self.readers@[i], heads[i])
            }
    }

    /// The readers go through these runs, and have the terms below `term`
    /// behind them.
    pub open spec fn reads(&self, shards: Seq<Seq<Run>>) -> bool {
        &&& self.readers@.len() == shards.len()
        &&& forall|i: int|
            0 <= i < shards.len() ==> before_term(
                #[trigger] self.readers@[i],
                shards[i],
                self.term as int,
            )
    }

    /// Open every shard.
    pub fn open(shards: &[&'a [u8]]) -> (r: Result<Self, ExternalError>)
        ensures
            r is Err <==> exists|i: int|
                0 <= i < shards@.len() && head_at((#[trigger] shards@[i])@, 0) is Truncated,
            r matches Ok(m) ==> {
                &&& m.wf()
                &&& m.term == 0
                &&& m.readers@.len() == shards@.len()
                &&& m.stand(shards@, Seq::new(shards@.len(), |i: int| 0int))
                &&& forall|runs: Seq<Seq<Run>>| #[trigger]
                    are_shards(shards@, runs) ==> m.reads(runs)
            },
    {
        let n: usize = shards.len();
        let mut readers: Vec<ShardReader<'a>> = Vec::new();
        let mut i: usize = 0;
        while i < n
            invariant
                n == shards@.len(),
                i <= n,
                readers@.len() == i,
                forall|j: int|
                    0 <= j < i ==> {
                        &&& (#[trigger] readers@[j]).wf()
                        &&& readers@[j].bytes@ == shards@[j]@
                        &&& stands_behind(readers@[j], 0)
                    },
                forall|j: int|
                    0 <= j < i ==> !(head_at((#[trigger] shards@[j])@, 0) is Truncated),
            decreases n - i,
        {
            match ShardReader::open(shards[i]) {
                Ok(r) => {
                    readers.push(r);
                },
                Err(e) => {
                    assert(head_at(shards@[i as int]@, 0) is Truncated);
                    return Err(e);
                },
            }
            i += 1;
        }
        let m = Merger { readers, term: 0 };
        proof {
            assert forall|runs: Seq<Seq<Run>>| #[trigger] are_shards(shards@, runs) implies m.reads(
                runs,
            ) by {
                assert forall|j: int| 0 <= j < runs.len() implies before_term(
                    #[trigger] m.readers@[j],
                    runs[j],
                    0,
                ) by {
                    assert(shards@[j]@ == shard_of(runs[j]));
                    lemma_opened(m.readers@[j], runs[j]);
                }
            }
        }
        Ok(m)
    }

    /// The full posting list of the next term: its runs in shard order.
    pub fn next_list(&mut self) -> (r: Result<Vec<Posting>, ExternalError>)
        requires
            old(self).wf(),
            old(self).term < u32::MAX,
        ensures
            final(self).wf(),
            r is Ok ==> final(self).term == old(self).term + 1,
            forall|runs: Seq<Seq<Run>>| #[trigger]
                old(self).reads(runs) ==> {
                    &&& r is Ok
                    &&& final(self).reads(runs)
                    &&& r->Ok_0@ == merged(runs, old(self).term)
                },
            forall|shards: Seq<&[u8]>, heads: Seq<int>| #[trigger]
                old(self).stand(shards, heads) ==> match read_term(
                    shards,
                    heads,
                    old(self).term,
                    shards.len() as int,
                ) {
                    None => r is Err,
                    Some(x) => {
                        &&& r is Ok
                        &&& final(self).stand(shards, x.0)
                        &&& r->Ok_0@ == x.1
                    },
                },
    {
        let term: u32 = self.term;
        let n: usize = self.readers.len();
        let ghost start = *self;
        let mut list: Vec<Posting> = Vec::new();
        let mut i: usize = 0;
        proof {
            assert forall|runs: Seq<Seq<Run>>| #[trigger] start.reads(runs) implies list@ == merged(
                runs.take(0),
                term,
            ) by {
                assert(runs.take(0) =~= Seq::<Seq<Run>>::empty());
            }
        }
        while i < n
            invariant
                n == self.readers@.len(),
                n == start.readers@.len(),
                term == start.term,
                self.term == start.term,
                term < u32::MAX,
                start.wf(),
                self.wf(),
                i <= n,
                start == *old(self),
                forall|j: int| i <= j < n ==> #[trigger] self.readers@[j] == start.readers@[j],
                forall|runs: Seq<Seq<Run>>| #[trigger]
                    start.reads(runs) ==> {
                        &&& list@ == merged(runs.take(i as int), term)
                        &&& forall|j: int|
                            0 <= j < i ==> before_term(
                                #[trigger] self.readers@[j],
                                runs[j],
                                term + 1,
                            )
                    },
                forall|shards: Seq<&[u8]>, heads: Seq<int>| #[trigger]
                    start.stand(shards, heads) ==> stood(
                        self.readers@,
                        shards,
                        heads,
                        term,
                        i as int,
                        list@,
                    ),
            decreases n - i,
        {
            let ghost before = self.readers@;
            let ghost list0 = list@;
            assert(self.readers@[i as int] == start.readers@[i as int]);
            let step = self.readers[i].take_term(term, &mut list);
            if let Err(e) = step {
                proof {
                    assert forall|runs: Seq<Seq<Run>>| !#[trigger] start.reads(runs) by {
                        if start.reads(runs) {
                            assert(before_term(start.readers@[i as int], runs[i as int], term as int));
                            lemma_take_succeeds(start.readers@[i as int], runs[i as int], term);
                        }
                    }
                    assert forall|shards: Seq<&[u8]>, heads: Seq<int>| #[trigger]
                        start.stand(shards, heads) implies read_term(
                        shards,
                        heads,
                        term,
                        shards.len() as int,
                    ) is None by {
                        assert(stood(before, shards, heads, term, i as int, list0));
                        assert(start.readers@[i as int].bytes@ == shards[i as int]@);
                        assert(stands_behind(start.readers@[i as int], heads[i as int]));
                        assert(read_term(shards, heads, term, i + 1) is None);
                        lemma_term_unread(shards, heads, term, i + 1, n as int);
                    }
                }
                return Err(e);
            }
            proof {
                assert forall|runs: Seq<Seq<Run>>| #[trigger] start.reads(runs) implies {
                    &&& list@ == merged(runs.take(i + 1), term)
                    &&& forall|j: int|
                        0 <= j < i + 1 ==> before_term(
                            #[trigger] self.readers@[j],
                            runs[j],
                            term + 1,
                        )
                } by {
                    assert(before_term(start.readers@[i as int], runs[i as int], term as int));
                    lemma_take_succeeds(start.readers@[i as int], runs[i as int], term);
                    lemma_take(
                        start.readers@[i as int],
                        self.readers@[i as int],
                        runs[i as int],
                        term,
                        list0,
                        list@,
                    );
                    assert(runs.take(i + 1).drop_last() =~= runs.take(i as int));
                    assert(runs.take(i + 1).last() == runs[i as int]);
                    assert forall|j: int| 0 <= j < i + 1 implies before_term(
                        #[trigger] self.readers@[j],
                        runs[j],
                        term + 1,
                    ) by {
                        if j < i {
                            assert(self.readers@[j] == before[j]);
                        }
                    }
                }
                assert forall|shards: Seq<&[u8]>, heads: Seq<int>| #[trigger]
                    start.stand(shards, heads) implies stood(
                    self.readers@,
                    shards,
                    heads,
                    term,
                    i + 1,
                    list@,
                ) by {
                    assert(stood(before, shards, heads, term, i as int, list0));
                    assert(start.readers@[i as int].bytes@ == shards[i as int]@);
                    assert(stands_behind(start.readers@[i as int], heads[i as int]));
                    let h = read_term(shards, heads, term, i as int).unwrap().0;
                    let g = read_term(shards, heads, term, i + 1).unwrap().0;
                    assert(list0 + Seq::<Posting>::empty() =~= list0);
                    assert forall|j: int| 0 <= j < i + 1 implies {
                        &&& (#[trigger] self.readers@[j]).bytes@ == shards[j]@
                        &&& stands_behind(self.readers@[j], g[j])
                    } by {
                        if j < i {
                            assert(self.readers@[j] == before[j]);
                            assert(g[j] == h[j]);
                        }
                    }
                }
            }
            i += 1;
        }
        self.term = term + 1;
        proof {
            assert forall|shards: Seq<&[u8]>, heads: Seq<int>| #[trigger]
                start.stand(shards, heads) implies read_term(
                shards,
                heads,
                term,
                shards.len() as int,
            ) matches Some(x) && self.stand(shards, x.0) && list@ == x.1 by {
                assert(stood(self.readers@, shards, heads, term, n as int, list@));
            }
            assert forall|runs: Seq<Seq<Run>>| #[trigger] start.reads(runs) implies self.reads(runs)
                && list@ == merged(runs, term) by {
                assert(runs.take(n as int) =~= runs);
            }
        }
        Ok(list)
    }
}

/// Reading on for a term where the run at `at` begins: where the next run
/// begins, and the postings of the term; nothing if the shard breaks off.
pub open spec fn read_run(b: Seq<u8>, at: int, term: u32) -> Option<(int, Seq<Posting>)> {
    match head_at(b, at) {
        RunHead::Run { term: t, count } => if t == term {
            let end = at + 8 + 8 * count;
            if end > b.len() || head_at(b, end) is Truncated {
                None
            } else {
                Some((end, postings_at(b, at + 8, count as int)))
            }
        } else {
            Some((at, Seq::empty()))
        },
        _ => Some((at, Seq::empty())),
    }
}

/// The postings of a term in the first `n` shards, read on from `heads`, and
/// where the next runs begin.
pub open spec fn read_term(
    shards: Seq<&[u8]>,
    heads: Seq<int>,
    term: u32,
    n: int,
) -> Option<(Seq<int>, Seq<Posting>)>
    decreases n,
{
    if n <= 0 {
        Some((Seq::empty(), Seq::empty()))
    } else {
        match (read_term(shards, heads, term, n - 1), read_run(shards[n - 1]@, heads[n - 1], term)) {
            (Some(x), Some(y)) => Some((x.0.push(y.0), x.1 + y.1)),
            _ => None,
        }
    }
}

/// The first `n` terms read from the shards one after the other: where the
/// next runs begin, and the posting list of each term. Nothing if a shard
/// breaks off before.
pub open spec fn read_terms(shards: Seq<&[u8]>, n: nat) -> Option<(Seq<int>, Seq<Seq<Posting>>)>
    decreases n,
{
    if n == 0 {
        if exists|i: int| 0 <= i < shards.len() && head_at((#[trigger] shards[i])@, 0) is Truncated {
            None
        } else {
            Some((Seq::new(shards.len(), |i: int| 0int), Seq::empty()))
        }
    } else {
        match read_terms(shards, (n - 1) as nat) {
            Some(x) => match read_term(shards, x.0, (n - 1) as u32, shards.len() as int) {
                Some(y) => Some((y.0, x.1.push(y.1))),
                None => None,
            },
            None => None,
        }
    }
}

/// The readers stand where reading the term from the first `n` shards led,
/// and `list` was read.
spec fn stood(
    readers: Seq<ShardReader>,
    shards: Seq<&[u8]>,
    heads: Seq<int>,
    term: u32,
    n: int,
    list: Seq<Posting>,
) -> bool {
    read_term(shards, heads, term, n) matches Some(x) && {
        &&& x.1 == list
        &&& x.0.len() == n
        &&& forall|j: int|
            0 <= j < n ==> {
                &&& (#[trigger] readers[j]).bytes@ == shards[j]@
                &&& stands_behind(readers[j], x.0[j])
            }
    }
}

proof fn lemma_term_unread(shards: Seq<&[u8]>, heads: Seq<int>, term: u32, m: int, n: int)
    requires
        m <= n,
        read_term(shards, heads, term, m) is None,
    ensures
        read_term(shards, heads, term, n) is None,
    decreases n - m,
{
    if m < n {
        lemma_term_unread(shards, heads, term, m, n - 1);
    }
}

/// What was read of the first terms is a part of what is read of more.
proof fn lemma_read_terms(shards: Seq<&[u8]>, m: nat, n: nat)
    requires
        m <= n,
    ensures
        read_terms(shards, m) is None ==> read_terms(shards, n) is None,
        read_terms(shards, n) matches Some(y) ==> {
            &&& y.1.len() == n
            &&& read_terms(shards, m) matches Some(x) && x.1 == y.1.take(m as int)
        },
    decreases n,
{
    if m < n {
        lemma_read_terms(shards, m, (n - 1) as nat);
        if let Some(y) = read_terms(shards, n) {
            let z = read_terms(shards, (n - 1) as nat).unwrap();
            assert(y.1.take(m as int) =~= z.1.take(m as int));
        }
    } else {
        if n > 0 {
            lemma_read_terms(shards, (n - 1) as nat, (n - 1) as nat);
        }
        if let Some(y) = read_terms(shards, n) {
            assert(y.1.take(n as int) =~= y.1);
        }
    }
}

/// The shards are these runs, written out.
pub open spec fn are_shards(shards: Seq<&[u8]>, runs: Seq<Seq<Run>>) -> bool {
    &&& shards.len() == runs.len()
    &&& forall|i: int|
        0 <= i < runs.len() ==> (#[trigger] shards[i])@ == shard_of(runs[i]) && sorted_runs(runs[i])
}

/// The parts, one after the other.
pub open spec fn joined_parts(parts: Seq<Seq<Triple>>) -> Seq<Triple>
    decreases parts.len(),
{
    if parts.len() == 0 {
        Seq::empty()
    } else {
        joined_parts(parts.drop_last()) + parts.last()
    }
}

proof fn lemma_for_term_concat(a: Seq<Triple>, b: Seq<Triple>, t: u32)
    ensures
        for_term(a + b, t) == for_term(a, t) + for_term(b, t),
    decreases b.len(),
{
    if b.len() == 0 {
        assert(a + b =~= a);
        assert(for_term(a, t) + for_term(b, t) =~= for_term(a, t));
    } else {
        assert((a + b).drop_last() =~= a + b.drop_last());
        assert((a + b).last() == b.last());
        lemma_for_term_concat(a, b.drop_last(), t);
        let x = Posting { doc_id: b.last().doc, tf: b.last().tf };
        let fa = for_term(a, t);
        let fb = for_term(b.drop_last(), t);
        assert((fa + fb).push(x) =~= fa + fb.push(x));
    }
}

/// However the triples were cut into shards, merging the shards restores the
/// postings of every term in the order in which they were found.
pub proof fn law_merge_restores_the_lists(
    parts: Seq<Seq<Triple>>,
    shards: Seq<Seq<Run>>,
    t: u32,
)
    requires
        parts.len() == shards.len(),
        forall|i: int| 0 <= i < parts.len() ==> groups(#[trigger] shards[i], parts[i]),
    ensures
        merged(shards, t) == for_term(joined_parts(parts), t),
    decreases parts.len(),
{
    if parts.len() > 0 {
        let last = parts.len() - 1;
        assert forall|i: int| 0 <= i < parts.drop_last().len() implies groups(
            #[trigger] shards.drop_last()[i],
            parts.drop_last()[i],
        ) by {
            assert(groups(shards[i], parts[i]));
        }
        law_merge_restores_the_lists(parts.drop_last(), shards.drop_last(), t);
        lemma_for_term_concat(joined_parts(parts.drop_last()), parts.last(), t);
        assert(groups(shards[last], parts[last]));
        let runs = shards.last();
        if has_run(runs, t) {
            let i = choose|i: int| 0 <= i < runs.len() && (#[trigger] runs[i]).term == t;
            assert(runs[i].list == for_term(parts.last(), t));
        } else {
            assert(for_term(parts.last(), t) =~= Seq::<Posting>::empty());
        }
    }
}

// ---------------------------------------------------------------------------
// Streaming
// ---------------------------------------------------------------------------

/// Default spill budget in triples.
pub const DEFAULT_SPILL_BUDGET: usize = 192_000_000;

/// Documents per streamed chunk.
pub const CHUNK_DOCS: usize = 4096;

/// A shard that holds these triples, grouped by term.
pub open spec fn is_shard(bytes: Seq<u8>, triples: Seq<Triple>) -> bool {
    exists|runs: Seq<Run>| #[trigger] groups(runs, triples) && bytes == shard_of(runs)
}

/// The content hash of every document.
pub open spec fn hashes_of(docs: Seq<DocTokens>) -> Seq<u64> {
    Seq::new(
        docs.len(),
        |i: int|
            hash::fnv1a_spec(indexer::content_bytes(docs[i].doc.title@, docs[i].doc.body@)),
    )
}

/// What streaming keeps in memory: the terms, what the tables need of each
/// document, and the triples not yet spilled.
pub struct ExternalBuilder {
    pub terms: Interner,
    pub doc_lens: Vec<u32>,
    pub content_hashes: Vec<u64>,
    pub pending: Vec<Triple>,
    pub title_weight: u32,
    pub spill_budget: usize,
    /// The tokens of the documents so far.
    pub tokens: Ghost<Seq<TokenModel>>,
    /// All triples so far, spilled or not.
    pub seen: Ghost<Seq<Triple>>,
    /// What was spilled, shard by shard.
    pub spilled: Ghost<Seq<Seq<Triple>>>,
}

impl ExternalBuilder {
    pub open spec fn wf(&self) -> bool {
        let n = self.tokens@.len() as int;
        let w = self.title_weight as nat;
        &&& self.terms.wf()
        &&& self.terms@ == indexer::first_seen(self.tokens@)
        &&& w > 0
        &&& n <= u32::MAX
        &&& self.doc_lens@.len() == n
        &&& self.content_hashes@.len() == n
        &&& self.seen@ == joined_parts(self.spilled@) + self.pending@
        &&& forall|d: int|
            0 <= d < n ==> #[trigger] self.doc_lens@[d] == indexer::token_len(self.tokens@[d])
        &&& forall|d: int|
            0 <= d < n ==> w * (#[trigger] self.tokens@[d]).title.len()
                + self.tokens@[d].body.len() <= u32::MAX
        &&& forall|id: u32|
            id < self.terms@.len() ==> #[trigger] for_term(self.seen@, id) == indexer::term_list(
                self.tokens@,
                w,
                self.terms@[id as int],
                n,
            )
        &&& forall|id: u32|
            id >= self.terms@.len() ==> (#[trigger] for_term(self.seen@, id)).len() == 0
        &&& forall|t: Seq<char>|
            !self.terms@.contains(t) ==> (#[trigger] indexer::term_list(
                self.tokens@,
                w,
                t,
                n,
            )).len() == 0
    }

    /// Nothing but what is buffered differs.
    pub open spec fn same_documents(&self, other: Self) -> bool {
        &&& self.tokens == other.tokens
        &&& self.seen == other.seen
        &&& self.terms@ == other.terms@
        &&& self.doc_lens@ == other.doc_lens@
        &&& self.content_hashes@ == other.content_hashes@
        &&& self.title_weight == other.title_weight
        &&& self.spill_budget == other.spill_budget
    }

    /// A term has no more buffered postings than there are documents.
    proof fn lemma_pending_fits(&self)
        requires
            self.wf(),
        ensures
            forall|t: u32| (#[trigger] for_term(self.pending@, t)).len() <= u32::MAX,
    {
        assert forall|t: u32| (#[trigger] for_term(self.pending@, t)).len() <= u32::MAX by {
            lemma_for_term_concat(joined_parts(self.spilled@), self.pending@, t);
            assert(for_term(self.seen@, t).len() <= u32::MAX) by {
                if t < self.terms@.len() {
                    indexer::lemma_term_list(
                        self.tokens@,
                        self.title_weight as nat,
                        self.terms@[t as int],
                        self.tokens@.len() as int,
                    );
                }
            }
        }
    }

    /// A title weight of 0 counts as 1.
    pub fn new(title_weight: u32, spill_budget: usize) -> (b: Self)
        ensures
            b.wf(),
            b.tokens@.len() == 0,
            b.spilled@.len() == 0,
            b.pending@.len() == 0,
            b.terms@.len() == 0,
            b.title_weight == (if title_weight == 0 {
                1
            } else {
                title_weight
            }),
            b.spill_budget == spill_budget,
    {
        let weight: u32 = if title_weight == 0 { 1 } else { title_weight };
        ExternalBuilder {
            terms: Interner::new(),
            doc_lens: Vec::new(),
            content_hashes: Vec::new(),
            pending: Vec::new(),
            title_weight: weight,
            spill_budget,
            tokens: Ghost(Seq::empty()),
            seen: Ghost(Seq::empty()),
            spilled: Ghost(Seq::empty()),
        }
    }

    /// Add the next document.
    pub fn add_document(&mut self, doc: &DocTokens)
        requires
            old(self).wf(),
            old(self).doc_lens@.len() < u32::MAX,
            indexer::doc_fits(doc@, old(self).terms@, old(self).title_weight as nat),
        ensures
            final(self).wf(),
            final(self).tokens@ == old(self).tokens@.push(doc@),
            final(self).content_hashes@ == old(self).content_hashes@.push(
                hash::fnv1a_spec(indexer::content_bytes(doc.doc.title@, doc.doc.body@)),
            ),
            final(self).spilled == old(self).spilled,
            final(self).pending@.len() == old(self).pending@.len() + indexer::distinct_words(doc@),
            final(self).title_weight == old(self).title_weight,
            final(self).spill_budget == old(self).spill_budget,
    {
        let ghost before = *self;
        let ghost w = self.title_weight as nat;
        let doc_id: u32 = self.doc_lens.len() as u32;
        let ghost n = doc_id as int;
        let pairs = indexer::term_pairs(&mut self.terms, doc, self.title_weight);
        let ghost names = self.terms@;
        proof {
            indexer::lemma_len_fits(doc@, w);
        }
        let len: usize = doc.title_tokens.len() + doc.body_tokens.len();
        self.doc_lens.push(len as u32);
        self.content_hashes.push(
            indexer::content_hash(doc.doc.title.as_str(), doc.doc.body.as_str()),
        );
        let ghost mut new: Seq<Triple> = Seq::empty();
        let mut k: usize = 0;
        assert(self.pending@ =~= before.pending@ + new);
        while k < pairs.len()
            invariant
                k <= pairs@.len(),
                new.len() == k,
                forall|j: int|
                    0 <= j < k ==> #[trigger] new[j] == (Triple {
                        term: pairs@[j].0,
                        doc: doc_id,
                        tf: pairs@[j].1,
                    }),
                self.pending@ == before.pending@ + new,
                self.terms@ == names,
                self.terms.wf(),
                self.title_weight == before.title_weight,
                self.spill_budget == before.spill_budget,
                self.seen == before.seen,
                self.spilled == before.spilled,
                self.tokens == before.tokens,
                self.doc_lens@ == before.doc_lens@.push(len as u32),
                self.content_hashes@ == before.content_hashes@.push(
                    hash::fnv1a_spec(indexer::content_bytes(doc.doc.title@, doc.doc.body@)),
                ),
            decreases pairs@.len() - k,
        {
            let t = Triple { term: pairs[k].0, doc: doc_id, tf: pairs[k].1 };
            self.pending.push(t);
            proof {
                new = new.push(t);
                assert(self.pending@ =~= before.pending@ + new);
            }
            k += 1;
        }
        proof {
            let tokens0 = before.tokens@;
            let tokens1 = tokens0.push(doc@);
            self.tokens@ = tokens1;
            self.seen@ = before.seen@ + new;
            assert(tokens1.drop_last() =~= tokens0);
            indexer::lemma_noted_prefix(before.terms@, doc@.title);
            let mid = indexer::noted(before.terms@, doc@.title);
            indexer::lemma_noted_prefix(mid, doc@.body);
            assert forall|i: int| 0 <= i < before.terms@.len() implies names[i] == before.terms@[i] by {
                assert(names.take(mid.len() as int)[i] == mid[i]);
                assert(mid.take(before.terms@.len() as int)[i] == before.terms@[i]);
            }
            assert forall|t: Seq<char>| #[trigger]
                indexer::term_list(tokens1, w, t, n + 1) == (if indexer::folded_tf(doc@, w, t) > 0 {
                    indexer::term_list(tokens0, w, t, n).push(
                        Posting { doc_id, tf: indexer::folded_tf(doc@, w, t) as u32 },
                    )
                } else {
                    indexer::term_list(tokens0, w, t, n)
                }) by {
                indexer::lemma_term_list_prefix(tokens1, tokens0, w, t, n);
            }
            assert forall|id: u32| id < names.len() implies #[trigger] for_term(self.seen@, id)
                == indexer::term_list(tokens1, w, names[id as int], n + 1) by {
                lemma_for_term_concat(before.seen@, new, id);
                lemma_new_triples(new, pairs@, names, doc@, w, doc_id, id);
                let t = names[id as int];
                let l0 = indexer::term_list(tokens0, w, t, n);
                if id < before.terms@.len() {
                    assert(for_term(before.seen@, id) == l0);
                } else {
                    assert(!before.terms@.contains(t)) by {
                        if before.terms@.contains(t) {
                            let j = choose|j: int|
                                0 <= j < before.terms@.len() && before.terms@[j] == t;
                            assert(names[j] == names[id as int]);
                        }
                    }
                    assert(l0 =~= Seq::<Posting>::empty());
                    assert(for_term(before.seen@, id) =~= l0);
                }
                if indexer::folded_tf(doc@, w, t) > 0 {
                    let x = Posting { doc_id, tf: indexer::folded_tf(doc@, w, t) as u32 };
                    assert(l0 + seq![x] =~= l0.push(x));
                } else {
                    assert(l0 + Seq::<Posting>::empty() =~= l0);
                }
            }
            assert forall|id: u32| id >= names.len() implies (#[trigger] for_term(
                self.seen@,
                id,
            )).len() == 0 by {
                lemma_for_term_concat(before.seen@, new, id);
                assert(for_term(before.seen@, id).len() == 0);
                lemma_no_triple(new, id);
            }
            assert forall|t: Seq<char>| !names.contains(t) implies (#[trigger] indexer::term_list(
                tokens1,
                w,
                t,
                n + 1,
            )).len() == 0 by {
                assert(!before.terms@.contains(t)) by {
                    if before.terms@.contains(t) {
                        let j = choose|j: int|
                            0 <= j < before.terms@.len() && before.terms@[j] == t;
                        assert(names[j] == t);
                    }
                }
                assert(indexer::term_list(tokens0, w, t, n).len() == 0);
                if indexer::folded_tf(doc@, w, t) > 0 {
                    let k = choose|k: int|
                        0 <= k < pairs@.len() && names[(#[trigger] pairs@[k]).0 as int] == t;
                    assert(names.contains(t));
                }
            }
            assert forall|d: int| 0 <= d < n + 1 implies #[trigger] self.doc_lens@[d]
                == indexer::token_len(self.tokens@[d]) by {
                if d < n {
                    assert(self.doc_lens@[d] == before.doc_lens@[d]);
                }
            }
            assert(self.seen@ =~= joined_parts(self.spilled@) + self.pending@);
        }
    }

    /// Is the buffer full?
    pub fn must_spill(&self) -> (r: bool)
        ensures
            r <==> self.pending@.len() >= self.spill_budget,
    {
        self.pending.len() >= self.spill_budget
    }

    /// The shard of the triples not yet spilled, if there are any.
    pub fn spill_pending(&mut self) -> (shard: Option<Vec<u8>>)
        requires
            old(self).wf(),
        ensures
            final(self).wf(),
            final(self).same_documents(*old(self)),
            final(self).pending@.len() == 0,
            shard is Some <==> old(self).pending@.len() > 0,
            match shard {
                Some(bytes) => {
                    &&& final(self).spilled@ == old(self).spilled@.push(old(self).pending@)
                    &&& is_shard(bytes@, old(self).pending@)
                },
                None => final(self).spilled == old(self).spilled,
            },
    {
        if self.pending.len() == 0 {
            return None;
        }
        let ghost before = *self;
        proof {
            before.lemma_pending_fits();
        }
        let shard = spill(&self.pending);
        let mut pending: Vec<Triple> = Vec::new();
        std::mem::swap(&mut pending, &mut self.pending);
        proof {
            self.spilled@ = before.spilled@.push(before.pending@);
            assert(self.spilled@.drop_last() =~= before.spilled@);
            assert(self.seen@ =~= joined_parts(self.spilled@) + self.pending@);
        }
        Some(shard)
    }

    /// Add a chunk of documents, and spill if the buffer is full then.
    pub fn add_chunk(&mut self, chunk: &[DocTokens]) -> (shard: Option<Vec<u8>>)
        requires
            old(self).wf(),
            indexer::batch_fits(
                indexer::doc_views(chunk@),
                old(self).doc_lens@.len(),
                old(self).terms@,
                old(self).title_weight as nat,
            ),
        ensures
            final(self).wf(),
            final(self).tokens@ == old(self).tokens@ + indexer::doc_views(chunk@),
            final(self).content_hashes@ == old(self).content_hashes@ + hashes_of(chunk@),
            final(self).title_weight == old(self).title_weight,
            final(self).spill_budget == old(self).spill_budget,
            ({
                let waiting = old(self).pending@.len() + words_of(indexer::doc_views(chunk@));
                &&& shard is Some <==> fills(waiting, old(self).spill_budget as nat)
                &&& shard is None ==> final(self).pending@.len() == waiting
            }),
            match shard {
                Some(bytes) => {
                    &&& final(self).pending@.len() == 0
                    &&& final(self).spilled@.len() == old(self).spilled@.len() + 1
                    &&& final(self).spilled@.drop_last() == old(self).spilled@
                    &&& final(self).spilled@.last().len() >= final(self).spill_budget
                    &&& is_shard(bytes@, final(self).spilled@.last())
                },
                None => final(self).spilled == old(self).spilled,
            },
    {
        let ghost start = *self;
        let ghost all = indexer::doc_views(chunk@);
        let mut i: usize = 0;
        proof {
            assert(self.tokens@ =~= start.tokens@ + all.take(0));
            assert(self.content_hashes@ =~= start.content_hashes@ + hashes_of(chunk@).take(0));
        }
        while i < chunk.len()
            invariant
                all == indexer::doc_views(chunk@),
                indexer::batch_fits(
                    all,
                    start.doc_lens@.len(),
                    start.terms@,
                    start.title_weight as nat,
                ),
                i <= chunk@.len(),
                self.pending@.len() == start.pending@.len() + words_of(all.take(i as int)),
                start.wf(),
                self.wf(),
                self.tokens@ == start.tokens@ + all.take(i as int),
                self.content_hashes@ == start.content_hashes@ + hashes_of(chunk@).take(i as int),
                self.title_weight == start.title_weight,
                self.spill_budget == start.spill_budget,
                self.spilled == start.spilled,
            decreases chunk@.len() - i,
        {
            proof {
                assert(all[i as int] == chunk@[i as int]@);
                indexer::lemma_noted_all_concat(
                    Seq::empty(),
                    start.tokens@,
                    all.take(i as int),
                );
                assert(all.take(i + 1).drop_last() =~= all.take(i as int));
                indexer::lemma_noted_all_grows(start.terms@, all, i + 1);
                lemma_words_push(all.take(i as int), all[i as int]);
                assert(all.take(i + 1) =~= all.take(i as int).push(all[i as int]));
            }
            self.add_document(&chunk[i]);
            proof {
                assert(self.tokens@ =~= start.tokens@ + all.take(i + 1));
                assert(self.content_hashes@ =~= start.content_hashes@ + hashes_of(chunk@).take(
                    i + 1,
                ));
            }
            i += 1;
        }
        proof {
            assert(all.take(i as int) =~= all);
            assert(hashes_of(chunk@).take(i as int) =~= hashes_of(chunk@));
        }
        if self.must_spill() {
            let ghost pending = self.pending@;
            let shard = self.spill_pending();
            proof {
                if pending.len() > 0 {
                    assert(self.spilled@.drop_last() =~= start.spilled@);
                }
            }
            shard
        } else {
            None
        }
    }
}

/// How many postings documents have: their different words.
pub open spec fn words_of(docs: Seq<TokenModel>) -> nat {
    sums::total(|d: int| indexer::distinct_words(docs[d]), docs.len())
}

/// A buffer with so many triples is spilled.
pub open spec fn fills(waiting: nat, budget: nat) -> bool {
    waiting >= budget && waiting > 0
}

/// The shards spilled and the triples still waiting once the chunks up to
/// document `end` have gone past.
pub open spec fn spilling(tokens: Seq<TokenModel>, end: int, budget: nat) -> (nat, nat)
    decreases end,
{
    if end <= 0 {
        (0, 0)
    } else {
        let start = (end - 1) / CHUNK_DOCS as int * CHUNK_DOCS as int;
        let (shards, before) = spilling(tokens, start, budget);
        let waiting = before + words_of(tokens.subrange(start, end));
        if fills(waiting, budget) {
            (shards + 1, 0)
        } else {
            (shards, waiting)
        }
    }
}

/// How many shards a build spills: one whenever a chunk fills the buffer, and
/// one for what is left.
pub open spec fn shard_count(tokens: Seq<TokenModel>, budget: nat) -> nat {
    let (shards, waiting) = spilling(tokens, tokens.len() as int, budget);
    if waiting > 0 {
        shards + 1
    } else {
        shards
    }
}

proof fn lemma_words_push(docs: Seq<TokenModel>, doc: TokenModel)
    ensures
        words_of(docs.push(doc)) == words_of(docs) + indexer::distinct_words(doc),
{
    sums::lemma_total_eq(
        |d: int| indexer::distinct_words(docs[d]),
        |d: int| indexer::distinct_words(docs.push(doc)[d]),
        docs.len(),
    );
}

/// Among the triples of one document, a term of the document has one.
proof fn lemma_new_triples(
    new: Seq<Triple>,
    pairs: Seq<(u32, u32)>,
    names: Seq<Seq<char>>,
    doc: TokenModel,
    w: nat,
    doc_id: u32,
    id: u32,
)
    requires
        indexer::lists_terms(pairs, names, doc, w),
        names.no_duplicates(),
        id < names.len(),
        new.len() == pairs.len(),
        forall|j: int|
            0 <= j < new.len() ==> #[trigger] new[j] == (Triple {
                term: pairs[j].0,
                doc: doc_id,
                tf: pairs[j].1,
            }),
    ensures
        for_term(new, id) == if indexer::folded_tf(doc, w, names[id as int]) > 0 {
            seq![Posting { doc_id, tf: indexer::folded_tf(doc, w, names[id as int]) as u32 }]
        } else {
            Seq::empty()
        },
{
    let t = names[id as int];
    if indexer::folded_tf(doc, w, t) > 0 {
        let k = choose|k: int| 0 <= k < pairs.len() && names[(#[trigger] pairs[k]).0 as int] == t;
        assert(pairs[k].0 == id);
        assert forall|j: int| 0 <= j < new.len() && j != k implies (#[trigger] new[j]).term != id by {
            if j < k {
                assert(pairs[j].0 < pairs[k].0);
            } else {
                assert(pairs[k].0 < pairs[j].0);
            }
        }
        lemma_single(new, id, k);
        assert(new[k].tf == indexer::folded_tf(doc, w, t));
    } else {
        assert forall|j: int| 0 <= j < new.len() implies (#[trigger] new[j]).term != id by {
            if pairs[j].0 == id {
                assert(pairs[j].1 > 0);
            }
        }
        lemma_absent(new, id);
    }
}

proof fn lemma_absent(triples: Seq<Triple>, id: u32)
    requires
        forall|j: int| 0 <= j < triples.len() ==> (#[trigger] triples[j]).term != id,
    ensures
        for_term(triples, id) == Seq::<Posting>::empty(),
    decreases triples.len(),
{
    if triples.len() > 0 {
        assert(triples[triples.len() - 1].term != id);
        assert forall|j: int| 0 <= j < triples.drop_last().len() implies (
        #[trigger] triples.drop_last()[j]).term != id by {
            assert(triples[j].term != id);
        }
        lemma_absent(triples.drop_last(), id);
    }
}

proof fn lemma_no_triple(triples: Seq<Triple>, id: u32)
    requires
        forall|j: int| 0 <= j < triples.len() ==> (#[trigger] triples[j]).term < id,
    ensures
        for_term(triples, id).len() == 0,
{
    lemma_absent(triples, id);
}

proof fn lemma_single(triples: Seq<Triple>, id: u32, k: int)
    requires
        0 <= k < triples.len(),
        triples[k].term == id,
        forall|j: int| 0 <= j < triples.len() && j != k ==> (#[trigger] triples[j]).term != id,
    ensures
        for_term(triples, id) == seq![Posting { doc_id: triples[k].doc, tf: triples[k].tf }],
    decreases triples.len(),
{
    let init = triples.drop_last();
    if k == triples.len() - 1 {
        assert forall|j: int| 0 <= j < init.len() implies (#[trigger] init[j]).term != id by {
            assert(triples[j].term != id);
        }
        lemma_absent(init, id);
        assert(for_term(triples, id) =~= seq![
            Posting { doc_id: triples[k].doc, tf: triples[k].tf },
        ]);
    } else {
        assert(triples[triples.len() - 1].term != id);
        assert forall|j: int| 0 <= j < init.len() && j != k implies (#[trigger] init[j]).term
            != id by {
            assert(triples[j].term != id);
        }
        lemma_single(init, id, k);
    }
}

/// Streaming, spilling and merging give every term the posting list that an
/// index built in memory gives it.
pub proof fn law_streamed_lists_match_the_index(
    b: ExternalBuilder,
    parts: Seq<Seq<Triple>>,
    shards: Seq<Seq<Run>>,
    id: u32,
)
    requires
        b.wf(),
        joined_parts(parts) == b.seen@,
        parts.len() == shards.len(),
        forall|i: int| 0 <= i < parts.len() ==> groups(#[trigger] shards[i], parts[i]),
        id < b.terms@.len(),
    ensures
        merged(shards, id) == indexer::term_list(
            b.tokens@,
            b.title_weight as nat,
            b.terms@[id as int],
            b.tokens@.len() as int,
        ),
        indexer::ascending(merged(shards, id), b.tokens@.len() as int),
{
    law_merge_restores_the_lists(parts, shards, id);
    assert(for_term(b.seen@, id) == for_term(joined_parts(parts), id));
    indexer::lemma_term_list(
        b.tokens@,
        b.title_weight as nat,
        b.terms@[id as int],
        b.tokens@.len() as int,
    );
}

// ---------------------------------------------------------------------------
// Tables
// ---------------------------------------------------------------------------

/// Where the postings of each term stand, and the metadata of their blocks.
pub struct TermTables {
    pub num_postings: u64,
    pub term_dfs: Vec<u32>,
    /// Where the packed postings of each term begin, and where the last end.
    pub region_offsets: Vec<u64>,
    /// The first block of each term, and the number of blocks.
    pub block_rows: Vec<u32>,
    pub term_max_tfs: Vec<u32>,
    pub term_min_lens: Vec<u32>,
    pub block_max_doc_ids: Vec<u32>,
    pub block_max_tfs: Vec<u32>,
    pub block_min_lens: Vec<u32>,
    pub block_byte_offsets: Vec<u32>,
}

/// What the tables say, as values.
#[verifier::ext_equal]
pub struct TablesModel {
    pub num_postings: nat,
    pub term_dfs: Seq<u32>,
    pub region_offsets: Seq<u64>,
    pub block_rows: Seq<u32>,
    pub term_max_tfs: Seq<u32>,
    pub term_min_lens: Seq<u32>,
    pub block_max_doc_ids: Seq<u32>,
    pub block_max_tfs: Seq<u32>,
    pub block_min_lens: Seq<u32>,
    pub block_byte_offsets: Seq<u32>,
}

impl View for TermTables {
    type V = TablesModel;

    open spec fn view(&self) -> TablesModel {
        TablesModel {
            num_postings: self.num_postings as nat,
            term_dfs: self.term_dfs@,
            region_offsets: self.region_offsets@,
            block_rows: self.block_rows@,
            term_max_tfs: self.term_max_tfs@,
            term_min_lens: self.term_min_lens@,
            block_max_doc_ids: self.block_max_doc_ids@,
            block_max_tfs: self.block_max_tfs@,
            block_min_lens: self.block_min_lens@,
            block_byte_offsets: self.block_byte_offsets@,
        }
    }
}

/// The largest element, one for an empty sequence.
pub open spec fn max_or_one(s: Seq<u32>) -> u32 {
    choose|m: u32| postings::is_max_or_one(s, m)
}

/// The smallest element, one for an empty sequence.
pub open spec fn min_or_one(s: Seq<u32>) -> u32 {
    choose|m: u32| postings::is_min_or_one(s, m)
}

/// The tables after one more term.
pub open spec fn with_term(m: TablesModel, e: EncodedTerm) -> TablesModel {
    TablesModel {
        num_postings: m.num_postings + e.df as nat,
        term_dfs: m.term_dfs.push(e.df),
        region_offsets: m.region_offsets.push(
            (m.region_offsets.last() + e.bytes@.len()) as u64,
        ),
        block_rows: m.block_rows.push((m.block_rows.last() + e.max_doc_ids@.len()) as u32),
        term_max_tfs: m.term_max_tfs.push(max_or_one(e.max_tfs@)),
        term_min_lens: m.term_min_lens.push(min_or_one(e.min_lens@)),
        block_max_doc_ids: m.block_max_doc_ids + e.max_doc_ids@,
        block_max_tfs: m.block_max_tfs + e.max_tfs@,
        block_min_lens: m.block_min_lens + e.min_lens@,
        block_byte_offsets: m.block_byte_offsets + e.offsets@,
    }
}

/// The tables before the first term.
pub open spec fn no_terms() -> TablesModel {
    TablesModel {
        num_postings: 0,
        term_dfs: Seq::empty(),
        region_offsets: seq![0],
        block_rows: seq![0],
        term_max_tfs: Seq::empty(),
        term_min_lens: Seq::empty(),
        block_max_doc_ids: Seq::empty(),
        block_max_tfs: Seq::empty(),
        block_min_lens: Seq::empty(),
        block_byte_offsets: Seq::empty(),
    }
}

/// The tables of `terms`.
pub open spec fn tables_of(terms: Seq<EncodedTerm>) -> TablesModel
    decreases terms.len(),
{
    if terms.len() == 0 {
        no_terms()
    } else {
        with_term(tables_of(terms.drop_last()), terms.last())
    }
}

/// The packed bytes of `terms`, one after the other.
pub open spec fn bytes_of(terms: Seq<EncodedTerm>) -> Seq<u8>
    decreases terms.len(),
{
    if terms.len() == 0 {
        Seq::empty()
    } else {
        bytes_of(terms.drop_last()) + terms.last().bytes@
    }
}

/// How many blocks `terms` have.
pub open spec fn blocks_of(terms: Seq<EncodedTerm>) -> nat
    decreases terms.len(),
{
    if terms.len() == 0 {
        0
    } else {
        blocks_of(terms.drop_last()) + terms.last().max_doc_ids@.len()
    }
}

/// Every term has an offset and an entry in each block table per block.
pub open spec fn aligned_terms(terms: Seq<EncodedTerm>) -> bool {
    forall|c: int|
        0 <= c < terms.len() ==> {
            let e = #[trigger] terms[c];
            &&& e.offsets@.len() == e.max_doc_ids@.len()
            &&& e.max_tfs@.len() == e.max_doc_ids@.len()
            &&& e.min_lens@.len() == e.max_doc_ids@.len()
        }
}

/// How long the tables are.
pub proof fn lemma_tables(terms: Seq<EncodedTerm>)
    requires
        aligned_terms(terms),
        bytes_of(terms).len() <= u64::MAX,
        blocks_of(terms) <= u32::MAX,
    ensures
        ({
            let t = tables_of(terms);
            let k = terms.len();
            &&& t.term_dfs.len() == k
            &&& t.term_max_tfs.len() == k
            &&& t.term_min_lens.len() == k
            &&& t.region_offsets.len() == k + 1
            &&& t.block_rows.len() == k + 1
            &&& t.region_offsets[k as int] == bytes_of(terms).len()
            &&& t.block_rows[k as int] == blocks_of(terms)
            &&& t.block_max_doc_ids.len() == blocks_of(terms)
            &&& t.block_max_tfs.len() == blocks_of(terms)
            &&& t.block_min_lens.len() == blocks_of(terms)
            &&& t.block_byte_offsets.len() == blocks_of(terms)
        }),
    decreases terms.len(),
{
    if terms.len() > 0 {
        let front = terms.drop_last();
        assert(aligned_terms(front)) by {
            assert forall|c: int| 0 <= c < front.len() implies {
                let e = #[trigger] front[c];
                &&& e.offsets@.len() == e.max_doc_ids@.len()
                &&& e.max_tfs@.len() == e.max_doc_ids@.len()
                &&& e.min_lens@.len() == e.max_doc_ids@.len()
            } by {
                assert(terms[c] == front[c]);
            }
        }
        lemma_tables(front);
        assert(terms[terms.len() - 1] == terms.last());
    }
}

/// The tables locate every term: its frequency, its packed bytes and where
/// its blocks begin in them.
pub proof fn law_tables_locate_terms(terms: Seq<EncodedTerm>, c: int)
    requires
        aligned_terms(terms),
        bytes_of(terms).len() <= u64::MAX,
        blocks_of(terms) <= u32::MAX,
        0 <= c < terms.len(),
    ensures
        ({
            let t = tables_of(terms);
            let all = bytes_of(terms);
            let from = t.region_offsets[c] as int;
            let to = t.region_offsets[c + 1] as int;
            let first = t.block_rows[c] as int;
            let last = t.block_rows[c + 1] as int;
            &&& t.term_dfs[c] == terms[c].df
            &&& 0 <= from <= to <= all.len()
            &&& all.subrange(from, to) == terms[c].bytes@
            &&& 0 <= first <= last <= t.block_byte_offsets.len()
            &&& t.block_byte_offsets.subrange(first, last) == terms[c].offsets@
        }),
    decreases terms.len(),
{
    let front = terms.drop_last();
    let t = tables_of(terms);
    let u = tables_of(front);
    let e = terms.last();
    assert(aligned_terms(front)) by {
        assert forall|i: int| 0 <= i < front.len() implies {
            let x = #[trigger] front[i];
            &&& x.offsets@.len() == x.max_doc_ids@.len()
            &&& x.max_tfs@.len() == x.max_doc_ids@.len()
            &&& x.min_lens@.len() == x.max_doc_ids@.len()
        } by {
            assert(terms[i] == front[i]);
        }
    }
    assert(terms[terms.len() - 1] == e);
    lemma_tables(terms);
    lemma_tables(front);
    if c < front.len() {
        law_tables_locate_terms(front, c);
        let from = u.region_offsets[c] as int;
        let to = u.region_offsets[c + 1] as int;
        let first = u.block_rows[c] as int;
        let last = u.block_rows[c + 1] as int;
        assert(t.region_offsets[c] == from && t.region_offsets[c + 1] == to);
        assert(t.block_rows[c] == first && t.block_rows[c + 1] == last);
        assert(bytes_of(terms).subrange(from, to) =~= bytes_of(front).subrange(from, to));
        assert(t.block_byte_offsets.subrange(first, last) =~= u.block_byte_offsets.subrange(
            first,
            last,
        ));
    } else {
        let from = bytes_of(front).len() as int;
        let first = blocks_of(front) as int;
        assert(t.region_offsets[c] == from);
        assert(t.block_rows[c] == first);
        assert(bytes_of(terms).subrange(from, from + e.bytes@.len()) =~= e.bytes@);
        assert(t.block_byte_offsets.subrange(first, first + e.offsets@.len()) =~= e.offsets@);
    }
}

/// Append `more` to `out`.
pub(crate) fn extend(out: &mut Vec<u32>, more: &Vec<u32>)
    ensures
        final(out)@ == old(out)@ + more@,
{
    let ghost start = out@;
    let mut i: usize = 0;
    assert(out@ =~= start + more@.take(0));
    while i < more.len()
        invariant
            i <= more@.len(),
            out@ == start + more@.take(i as int),
        decreases more@.len() - i,
    {
        out.push(more[i]);
        assert(out@ =~= start + more@.take(i + 1));
        i += 1;
    }
    assert(more@.take(i as int) =~= more@);
}

impl TermTables {
    pub open spec fn wf(&self) -> bool {
        self.region_offsets@.len() > 0 && self.block_rows@.len() > 0
    }

    pub fn new() -> (t: Self)
        ensures
            t.wf(),
            t@ == no_terms(),
    {
        let mut region_offsets: Vec<u64> = Vec::new();
        region_offsets.push(0);
        let mut block_rows: Vec<u32> = Vec::new();
        block_rows.push(0);
        TermTables {
            num_postings: 0,
            term_dfs: Vec::new(),
            region_offsets,
            block_rows,
            term_max_tfs: Vec::new(),
            term_min_lens: Vec::new(),
            block_max_doc_ids: Vec::new(),
            block_max_tfs: Vec::new(),
            block_min_lens: Vec::new(),
            block_byte_offsets: Vec::new(),
        }
    }

    /// Enter the next term.
    pub fn push_term(&mut self, e: &EncodedTerm)
        requires
            old(self).wf(),
            old(self).num_postings + e.df <= u64::MAX,
            old(self).region_offsets@.last() + e.bytes@.len() <= u64::MAX,
            old(self).block_rows@.last() + e.max_doc_ids@.len() <= u32::MAX,
        ensures
            final(self).wf(),
            final(self)@ == with_term(old(self)@, *e),
    {
        let terms: usize = self.region_offsets.len();
        let rows: usize = self.block_rows.len();
        let region: u64 = self.region_offsets[terms - 1] + e.bytes.len() as u64;
        let row: u32 = self.block_rows[rows - 1] + e.max_doc_ids.len() as u32;
        self.num_postings = self.num_postings + e.df as u64;
        self.term_dfs.push(e.df);
        self.region_offsets.push(region);
        self.block_rows.push(row);
        let max_tf: u32 = postings::max_or_one(&e.max_tfs);
        let min_len: u32 = postings::min_or_one(&e.min_lens);
        proof {
            lemma_max_unique(e.max_tfs@, max_tf);
            lemma_min_unique(e.min_lens@, min_len);
        }
        self.term_max_tfs.push(max_tf);
        self.term_min_lens.push(min_len);
        extend(&mut self.block_byte_offsets, &e.offsets);
        extend(&mut self.block_max_doc_ids, &e.max_doc_ids);
        extend(&mut self.block_max_tfs, &e.max_tfs);
        extend(&mut self.block_min_lens, &e.min_lens);
    }
}

/// What was written by a spill can be opened.
proof fn lemma_shards_open(shards: Seq<&[u8]>)
    ensures
        (exists|i: int| 0 <= i < shards.len() && head_at((#[trigger] shards[i])@, 0) is Truncated)
            ==> forall|runs: Seq<Seq<Run>>| !#[trigger] are_shards(shards, runs),
{
    if exists|i: int| 0 <= i < shards.len() && head_at((#[trigger] shards[i])@, 0) is Truncated {
        let i = choose|i: int|
            0 <= i < shards.len() && head_at((#[trigger] shards[i])@, 0) is Truncated;
        assert forall|runs: Seq<Seq<Run>>| !#[trigger] are_shards(shards, runs) by {
            if are_shards(shards, runs) {
                assert(shards[i]@ == shard_of(runs[i]));
                lemma_shard_at(runs[i], 0);
                assert(runs[i].take(0) =~= Seq::<Run>::empty());
            }
        }
    }
}

proof fn lemma_max_unique(s: Seq<u32>, m: u32)
    requires
        postings::is_max_or_one(s, m),
    ensures
        max_or_one(s) == m,
{
    let x = max_or_one(s);
    if s.len() > 0 {
        let i = choose|i: int| 0 <= i < s.len() && s[i] == x;
        let j = choose|j: int| 0 <= j < s.len() && s[j] == m;
        assert(s[i] <= m);
        assert(s[j] <= x);
    }
}

proof fn lemma_min_unique(s: Seq<u32>, m: u32)
    requires
        postings::is_min_or_one(s, m),
    ensures
        min_or_one(s) == m,
{
    let x = min_or_one(s);
    if s.len() > 0 {
        let i = choose|i: int| 0 <= i < s.len() && s[i] == x;
        let j = choose|j: int| 0 <= j < s.len() && s[j] == m;
        assert(m <= s[i]);
        assert(x <= s[j]);
    }
}

// ---------------------------------------------------------------------------
// The merged index
// ---------------------------------------------------------------------------

/// The packed postings of all terms, and where they stand.
pub struct MergedIndex {
    pub tables: TermTables,
    pub packed: Vec<u8>,
}

/// `terms` are the posting lists, packed.
pub open spec fn packs_lists(
    terms: Seq<EncodedTerm>,
    lists: Seq<Seq<Posting>>,
    lens: Seq<u32>,
    block_size: int,
) -> bool {
    &&& terms.len() == lists.len()
    &&& forall|t: int|
        0 <= t < lists.len() ==> packs(#[trigger] terms[t], lists[t], lens, block_size)
}

impl MergedIndex {
    /// The index holds these posting lists.
    pub open spec fn holds(
        &self,
        lists: Seq<Seq<Posting>>,
        lens: Seq<u32>,
        block_size: int,
    ) -> bool {
        exists|terms: Seq<EncodedTerm>| #[trigger]
            packs_lists(terms, lists, lens, block_size) && self.tables@ == tables_of(terms)
                && self.packed@ == bytes_of(terms)
    }
}

/// The posting lists of the first `n` terms.
pub open spec fn merged_lists(shards: Seq<Seq<Run>>, n: nat) -> Seq<Seq<Posting>> {
    Seq::new(n, |t: int| merged(shards, t as u32))
}

/// How many blocks the lists take.
pub open spec fn block_sum(lists: Seq<Seq<Posting>>, block_size: int) -> nat
    decreases lists.len(),
{
    if lists.len() == 0 {
        0
    } else {
        block_sum(lists.drop_last(), block_size) + postings::block_total(
            lists.last().len() as int,
            block_size,
        ) as nat
    }
}

/// Every list can be packed.
pub open spec fn in_order(lists: Seq<Seq<Posting>>, docs: int) -> bool {
    forall|t: int| 0 <= t < lists.len() ==> packable(#[trigger] lists[t], docs)
}

/// The tables can address all lists.
pub open spec fn tables_fit(lists: Seq<Seq<Posting>>, block_size: int) -> bool {
    &&& forall|t: int| 0 <= t < lists.len() ==> addressable(#[trigger] lists[t], block_size)
    &&& block_sum(lists, block_size) <= u32::MAX
}

fn is_packable(list: &Vec<Posting>, docs: usize) -> (r: bool)
    ensures
        r == packable(list@, docs as int),
{
    let n: usize = list.len();
    let mut i: usize = 0;
    while i < n
        invariant
            n == list@.len(),
            i <= n,
            packable(list@.take(i as int), docs as int),
        decreases n - i,
    {
        let ghost front = list@.take(i as int);
        let ghost next = list@.take(i + 1);
        let p: Posting = list[i];
        if p.tf == 0 || p.doc_id as u64 >= docs as u64 || (i > 0 && list[i - 1].doc_id >= p.doc_id) {
            proof {
                assert(list@[i as int] == p);
                if i > 0 {
                    assert(list@[i - 1].doc_id >= 0);
                }
            }
            return false;
        }
        proof {
            assert forall|x: int, y: int| 0 <= x < y < next.len() implies (#[trigger] next[x]).doc_id
                < (#[trigger] next[y]).doc_id by {
                if y < i {
                    assert(front[x].doc_id < front[y].doc_id);
                } else if x < i - 1 {
                    assert(front[x].doc_id < front[i - 1].doc_id);
                }
            }
            assert forall|x: int| 0 <= x < next.len() implies (#[trigger] next[x]).doc_id < docs
                && next[x].tf >= 1 by {
                if x < i {
                    assert(front[x].tf >= 1);
                    assert(front[x].doc_id < docs);
                }
            }
        }
        i += 1;
    }
    assert(list@.take(n as int) =~= list@);
    true
}

proof fn lemma_block_sum_grows(lists: Seq<Seq<Posting>>, block_size: int, k: int)
    requires
        0 < block_size,
        0 <= k <= lists.len(),
    ensures
        block_sum(lists.take(k), block_size) <= block_sum(lists, block_size),
    decreases lists.len() - k,
{
    if k < lists.len() {
        lemma_block_sum_grows(lists, block_size, k + 1);
        assert(lists.take(k + 1).drop_last() =~= lists.take(k));
    } else {
        assert(lists.take(k) =~= lists);
    }
}

proof fn lemma_packed_blocks(
    terms: Seq<EncodedTerm>,
    lists: Seq<Seq<Posting>>,
    lens: Seq<u32>,
    block_size: int,
)
    requires
        0 < block_size,
        packs_lists(terms, lists, lens, block_size),
    ensures
        aligned_terms(terms),
        blocks_of(terms) == block_sum(lists, block_size),
    decreases terms.len(),
{
    assert forall|c: int| 0 <= c < terms.len() implies {
        let e = #[trigger] terms[c];
        &&& e.offsets@.len() == e.max_doc_ids@.len()
        &&& e.max_tfs@.len() == e.max_doc_ids@.len()
        &&& e.min_lens@.len() == e.max_doc_ids@.len()
    } by {
        assert(packs(terms[c], lists[c], lens, block_size));
    }
    if terms.len() > 0 {
        let front = terms.drop_last();
        assert forall|t: int| 0 <= t < front.len() implies packs(
            #[trigger] front[t],
            lists.drop_last()[t],
            lens,
            block_size,
        ) by {
            assert(packs(terms[t], lists[t], lens, block_size));
        }
        lemma_packed_blocks(front, lists.drop_last(), lens, block_size);
        let c = terms.len() - 1;
        assert(packs(terms[c], lists[c], lens, block_size));
    }
}

/// The lists can be packed, and the tables can address them.
pub open spec fn good(lists: Seq<Seq<Posting>>, docs: int, block_size: int) -> bool {
    in_order(lists, docs) && tables_fit(lists, block_size)
}

/// Where all lists are good, the first ones are.
proof fn lemma_good_before(
    shards: Seq<&[u8]>,
    t: nat,
    docs: int,
    block_size: int,
)
    requires
        0 < block_size,
        read_terms(shards, t) matches Some(x) && good(x.1, docs, block_size),
    ensures
        forall|n: nat|
            n <= t ==> (#[trigger] read_terms(shards, n) matches Some(x) ==> good(
                x.1,
                docs,
                block_size,
            )),
{
    let all = read_terms(shards, t).unwrap().1;
    assert forall|n: nat| n <= t implies (#[trigger] read_terms(shards, n) matches Some(x) ==> good(
        x.1,
        docs,
        block_size,
    )) by {
        lemma_read_terms(shards, n, t);
        let part = all.take(n as int);
        assert forall|i: int| 0 <= i < part.len() implies packable(#[trigger] part[i], docs)
            && addressable(part[i], block_size) by {
            assert(part[i] == all[i]);
        }
        lemma_block_sum_grows(all, block_size, n as int);
    }
}

/// Merge the shards term by term and pack the posting list of each term. A
/// shard that breaks off, a list out of order and a list too large are
/// refused where they are come upon.
pub fn merge_shards(
    shards: &[&[u8]],
    num_terms: u32,
    doc_lens: &[u32],
    block_size: usize,
) -> (r: Result<MergedIndex, ExternalError>)
    requires
        0 < block_size <= u16::MAX,
    ensures
        match r {
            Ok(m) => read_terms(shards@, num_terms as nat) matches Some(x) && good(
                x.1,
                doc_lens@.len() as int,
                block_size as int,
            ) && m.holds(x.1, doc_lens@, block_size as int),
            Err(ExternalError::TruncatedShard) => {
                &&& read_terms(shards@, num_terms as nat) is None
                &&& forall|n: nat|
                    n <= num_terms ==> (#[trigger] read_terms(shards@, n) matches Some(x) ==> good(
                        x.1,
                        doc_lens@.len() as int,
                        block_size as int,
                    ))
            },
            Err(ExternalError::OutOfOrder) => exists|n: nat|
                n <= num_terms && (#[trigger] read_terms(shards@, n) matches Some(x) && !in_order(
                    x.1,
                    doc_lens@.len() as int,
                )),
            Err(ExternalError::TooLarge) => exists|n: nat|
                n <= num_terms && (#[trigger] read_terms(shards@, n) matches Some(x) && !tables_fit(
                    x.1,
                    block_size as int,
                )),
        },
        forall|runs: Seq<Seq<Run>>| #[trigger]
            are_shards(shards@, runs) ==> {
                let lists = merged_lists(runs, num_terms as nat);
                match r {
                    Ok(m) => {
                        &&& in_order(lists, doc_lens@.len() as int)
                        &&& tables_fit(lists, block_size as int)
                        &&& m.holds(lists, doc_lens@, block_size as int)
                    },
                    Err(ExternalError::OutOfOrder) => !in_order(lists, doc_lens@.len() as int),
                    Err(ExternalError::TooLarge) => !tables_fit(lists, block_size as int),
                    Err(ExternalError::TruncatedShard) => false,
                }
            },
{
    let ghost bs = block_size as int;
    let ghost docs = doc_lens@.len() as int;
    let mut merger = match Merger::open(shards) {
        Ok(m) => m,
        Err(_) => {
            proof {
                lemma_shards_open(shards@);
                assert forall|n: nat| read_terms(shards@, n) is None by {
                    lemma_read_terms(shards@, 0, n);
                }
            }
            return Err(ExternalError::TruncatedShard);
        },
    };
    let mut tables = TermTables::new();
    let mut packed: Vec<u8> = Vec::new();
    let mut blocks: u64 = 0;
    let ghost mut lists: Seq<Seq<Posting>> = Seq::empty();
    let ghost mut terms: Seq<EncodedTerm> = Seq::empty();
    let ghost mut heads: Seq<int> = Seq::new(shards@.len(), |i: int| 0int);
    let mut t: u32 = 0;
    proof {
        assert(lists =~= Seq::<Seq<Posting>>::empty());
        assert(read_terms(shards@, 0) == Some((heads, lists)));
        assert forall|runs: Seq<Seq<Run>>| #[trigger] are_shards(shards@, runs) implies lists
            == merged_lists(runs, 0) by {
            assert(lists =~= merged_lists(runs, 0));
        }
    }
    while t < num_terms
        invariant
            0 < block_size <= u16::MAX,
            bs == block_size,
            docs == doc_lens@.len(),
            t <= num_terms,
            merger.wf(),
            merger.term == t,
            merger.stand(shards@, heads),
            read_terms(shards@, t as nat) == Some((heads, lists)),
            forall|runs: Seq<Seq<Run>>| #[trigger]
                are_shards(shards@, runs) ==> merger.reads(runs) && lists == merged_lists(
                    runs,
                    t as nat,
                ),
            lists.len() == t,
            in_order(lists, docs),
            tables_fit(lists, bs),
            packs_lists(terms, lists, doc_lens@, bs),
            tables.wf(),
            tables@ == tables_of(terms),
            tables.num_postings <= t * u32::MAX,
            packed@ == bytes_of(terms),
            packed@.len() <= usize::MAX,
            blocks == block_sum(lists, bs),
        decreases num_terms - t,
    {
        let ghost m0 = merger;
        let list = match merger.next_list() {
            Ok(l) => l,
            Err(_) => {
                proof {
                    assert forall|runs: Seq<Seq<Run>>| !#[trigger] are_shards(shards@, runs) by {
                        if are_shards(shards@, runs) {
                            assert(m0.reads(runs));
                        }
                    }
                    assert(read_term(shards@, heads, t, shards@.len() as int) is None);
                    assert(read_terms(shards@, (t + 1) as nat) is None);
                    lemma_good_before(shards@, t as nat, docs, bs);
                    assert forall|n: nat| n > t implies read_terms(shards@, n) is None by {
                        lemma_read_terms(shards@, (t + 1) as nat, n);
                    }
                }
                return Err(ExternalError::TruncatedShard);
            },
        };
        let ghost more = lists.push(list@);
        let ghost next = read_term(shards@, heads, t, shards@.len() as int).unwrap().0;
        proof {
            assert(read_terms(shards@, (t + 1) as nat) == Some((next, more)));
            assert(more.drop_last() =~= lists);
            assert forall|runs: Seq<Seq<Run>>| #[trigger] are_shards(shards@, runs) implies more
                == merged_lists(runs, (t + 1) as nat) && merger.reads(runs) && more
                == merged_lists(runs, num_terms as nat).take(t + 1) by {
                assert(m0.reads(runs));
                assert(lists == merged_lists(runs, t as nat));
                assert(more =~= merged_lists(runs, (t + 1) as nat));
                assert(more =~= merged_lists(runs, num_terms as nat).take(t + 1));
            }
        }
        if !is_packable(&list, doc_lens.len()) {
            proof {
                assert(!packable(more[t as int], docs));
                assert forall|runs: Seq<Seq<Run>>| #[trigger] are_shards(shards@, runs) implies
                    !in_order(merged_lists(runs, num_terms as nat), docs) by {
                    let all = merged_lists(runs, num_terms as nat);
                    assert(all.take(t + 1)[t as int] == all[t as int]);
                }
            }
            return Err(ExternalError::OutOfOrder);
        }
        let e = match try_encode_term(list.as_slice(), doc_lens, block_size) {
            Some(e) => e,
            None => {
                proof {
                    assert(!addressable(more[t as int], bs));
                    assert forall|runs: Seq<Seq<Run>>| #[trigger]
                        are_shards(shards@, runs) implies !tables_fit(
                        merged_lists(runs, num_terms as nat),
                        bs,
                    ) by {
                        let all = merged_lists(runs, num_terms as nat);
                        assert(all.take(t + 1)[t as int] == all[t as int]);
                    }
                }
                return Err(ExternalError::TooLarge);
            },
        };
        let ghost longer = terms.push(e);
        proof {
            assert(longer.drop_last() =~= terms);
            assert forall|c: int| 0 <= c < more.len() implies packs(
                #[trigger] longer[c],
                more[c],
                doc_lens@,
                bs,
            ) by {
                if c < t {
                    assert(packs(terms[c], lists[c], doc_lens@, bs));
                }
            }
            lemma_packed_blocks(terms, lists, doc_lens@, bs);
            lemma_packed_blocks(longer, more, doc_lens@, bs);
            lemma_tables(terms);
            assert((t + 1) * u32::MAX == t * u32::MAX + u32::MAX) by (nonlinear_arith);
            assert((t + 1) * u32::MAX <= u64::MAX) by (nonlinear_arith)
                requires
                    t + 1 <= u32::MAX,
            ;
        }
        let count: usize = e.max_doc_ids.len();
        if count as u64 > u32::MAX as u64 - blocks {
            proof {
                assert forall|runs: Seq<Seq<Run>>| #[trigger] are_shards(shards@, runs) implies
                    !tables_fit(merged_lists(runs, num_terms as nat), bs) by {
                    let all = merged_lists(runs, num_terms as nat);
                    lemma_block_sum_grows(all, bs, t + 1);
                }
            }
            return Err(ExternalError::TooLarge);
        }
        codec::append(&mut packed, e.bytes.as_slice());
        let size: usize = packed.len();
        assert(packed@ =~= bytes_of(longer) && packed@.len() == size);
        tables.push_term(&e);
        blocks = blocks + count as u64;
        proof {
            assert forall|c: int| 0 <= c < more.len() implies packable(#[trigger] more[c], docs)
                && addressable(more[c], bs) by {
                if c < t {
                    assert(more[c] == lists[c]);
                    assert(packable(lists[c], docs));
                    assert(addressable(lists[c], bs));
                }
            }
            lists = more;
            terms = longer;
            heads = next;
        }
        t += 1;
    }
    let m = MergedIndex { tables, packed };
    proof {
        assert(m.holds(lists, doc_lens@, bs));
    }
    Ok(m)
}

// ---------------------------------------------------------------------------
// The whole build
// ---------------------------------------------------------------------------

/// An index that was built through shards.
pub struct ExternalIndex {
    pub terms: Interner,
    pub doc_lens: Vec<u32>,
    pub content_hashes: Vec<u64>,
    pub avg_doc_len: u32,
    /// The terms in the order of their names.
    pub name_to_slot: Vec<u32>,
    pub merged: MergedIndex,
    /// How many shards were spilled on the way.
    pub num_shards: usize,
}

/// `slots` lists all names in lexicographic order.
pub open spec fn by_name(slots: Seq<u32>, names: Seq<Seq<char>>) -> bool {
    &&& slots.len() == names.len()
    &&& forall|i: int| 0 <= i < slots.len() ==> #[trigger] slots[i] < names.len()
    &&& forall|i: int, j: int|
        0 <= i < j < slots.len() ==> order::lex_less(
            names[#[trigger] slots[i] as int],
            names[#[trigger] slots[j] as int],
        )
}

/// The posting list of every name.
pub open spec fn lists_for(
    tokens: Seq<TokenModel>,
    weight: nat,
    names: Seq<Seq<char>>,
) -> Seq<Seq<Posting>> {
    Seq::new(
        names.len(),
        |t: int| indexer::term_list(tokens, weight, names[t], tokens.len() as int),
    )
}

/// The indexed terms, each once, in the order in which they come up.
pub open spec fn names_terms(
    names: Seq<Seq<char>>,
    tokens: Seq<TokenModel>,
    weight: nat,
) -> bool {
    &&& names == indexer::first_seen(tokens)
    &&& names.no_duplicates()
    &&& forall|t: Seq<char>| #[trigger]
        names.contains(t) <==> indexer::term_list(tokens, weight, t, tokens.len() as int).len() > 0
}

/// The terms have more postings or blocks than the tables can address.
pub open spec fn cannot_fit(tokens: Seq<TokenModel>, weight: nat, block_size: int) -> bool {
    !tables_fit(lists_for(tokens, weight, indexer::first_seen(tokens)), block_size)
}

/// A title weight of 0 counts as 1.
pub open spec fn counted_weight(title_weight: u32) -> nat {
    if title_weight == 0 {
        1
    } else {
        title_weight as nat
    }
}

impl ExternalIndex {
    /// This is the index of documents with these tokens.
    pub open spec fn indexes(
        &self,
        tokens: Seq<TokenModel>,
        weight: nat,
        block_size: int,
    ) -> bool {
        &&& self.terms.wf()
        &&& names_terms(self.terms@, tokens, weight)
        &&& by_name(self.name_to_slot@, self.terms@)
        &&& self.doc_lens@ == indexer::token_lens(tokens)
        &&& self.avg_doc_len == indexer::average_len(indexer::total_len(tokens), tokens.len())
        &&& self.merged.holds(
            lists_for(tokens, weight, self.terms@),
            self.doc_lens@,
            block_size,
        )
    }
}

/// The slots of `names` in lexicographic order.
pub fn sort_slots(names: &Vec<String>) -> (slots: Vec<u32>)
    requires
        names@.len() <= u32::MAX,
        interner::name_views(names@).no_duplicates(),
    ensures
        by_name(slots@, interner::name_views(names@)),
{
    let n: usize = names.len();
    let ghost all = interner::name_views(names@);
    let mut texts: Vec<Vec<char>> = Vec::new();
    let mut i: usize = 0;
    while i < n
        invariant
            i <= n == names@.len(),
            texts@.len() == i,
            forall|j: int| 0 <= j < i ==> (#[trigger] texts@[j])@ == names@[j]@,
        decreases n - i,
    {
        texts.push(text::chars_of(names[i].as_str()));
        i += 1;
    }
    assert(text::views(texts@) =~= all);
    let order = order::order_by_text(&texts);
    let ghost less = order::text_less(all);
    proof {
        order::lemma_text_less_total(all);
        order::lemma_increasing_distinct(order@, n as int, less);
    }
    let mut slots: Vec<u32> = Vec::new();
    let mut k: usize = 0;
    while k < n
        invariant
            n == names@.len(),
            n <= u32::MAX,
            order@.len() == n,
            forall|j: int| 0 <= j < n ==> #[trigger] order@[j] < n,
            k <= n,
            slots@.len() == k,
            forall|j: int| 0 <= j < k ==> #[trigger] slots@[j] == order@[j],
        decreases n - k,
    {
        assert(order@[k as int] < n);
        slots.push(order[k] as u32);
        k += 1;
    }
    proof {
        assert forall|a: int, b: int| 0 <= a < b < slots@.len() implies order::lex_less(
            all[#[trigger] slots@[a] as int],
            all[#[trigger] slots@[b] as int],
        ) by {
            assert(less(order@[a] as int, order@[b] as int));
            if all[order@[a] as int] == all[order@[b] as int] {
                assert(order@[a] == order@[b]);
            }
        }
    }
    slots
}

/// The runs of every shard.
spec fn runs_of(shards: Seq<Vec<u8>>, parts: Seq<Seq<Triple>>) -> Seq<Seq<Run>> {
    Seq::new(
        shards.len(),
        |i: int| choose|runs: Seq<Run>| #[trigger]
            groups(runs, parts[i]) && shards[i]@ == shard_of(runs),
    )
}

/// Stream documents past in chunks, spill what does not fit the budget, and
/// merge the shards.
pub fn build_index_external(
    docs: &[DocTokens],
    title_weight: u32,
    block_size: usize,
    spill_budget: usize,
) -> (r: Result<ExternalIndex, ExternalError>)
    requires
        0 < block_size <= u16::MAX,
        indexer::batch_fits(
            indexer::doc_views(docs@),
            0,
            Seq::empty(),
            counted_weight(title_weight),
        ),
    ensures
        ({
            let tokens = indexer::doc_views(docs@);
            let weight = counted_weight(title_weight);
            match r {
                Ok(x) => {
                    &&& x.indexes(tokens, weight, block_size as int)
                    &&& x.content_hashes@ == hashes_of(docs@)
                    &&& x.num_shards == shard_count(tokens, spill_budget as nat)
                    &&& tables_fit(lists_for(tokens, weight, x.terms@), block_size as int)
                },
                Err(e) => {
                    &&& e == ExternalError::TooLarge
                    &&& cannot_fit(tokens, weight, block_size as int)
                },
            }
        }),
{
    let n: usize = docs.len();
    let ghost all = indexer::doc_views(docs@);
    let mut builder = ExternalBuilder::new(title_weight, spill_budget);
    let ghost weight = builder.title_weight as nat;
    let mut shards: Vec<Vec<u8>> = Vec::new();
    let mut at: usize = 0;
    proof {
        assert(builder.tokens@ =~= all.take(0));
        assert(builder.content_hashes@ =~= hashes_of(docs@).take(0));
    }
    while at < n
        invariant
            n == docs@.len(),
            all == indexer::doc_views(docs@),
            indexer::batch_fits(all, 0, Seq::empty(), weight),
            at <= n,
            builder.wf(),
            builder.title_weight == weight,
            builder.tokens@ == all.take(at as int),
            builder.content_hashes@ == hashes_of(docs@).take(at as int),
            builder.spill_budget == spill_budget,
            at == n || at as int % CHUNK_DOCS as int == 0,
            spilling(all, at as int, spill_budget as nat) == (
                shards@.len(),
                builder.pending@.len(),
            ),
            shards@.len() == builder.spilled@.len(),
            forall|i: int|
                0 <= i < shards@.len() ==> is_shard(
                    (#[trigger] shards@[i])@,
                    builder.spilled@[i],
                ),
        decreases n - at,
    {
        let end: usize = if n - at > CHUNK_DOCS { at + CHUNK_DOCS } else { n };
        let chunk: &[DocTokens] = slice_subrange(docs, at, end);
        let ghost part = indexer::doc_views(chunk@);
        let ghost before = builder;
        proof {
            assert(part =~= all.subrange(at as int, end as int));
            indexer::lemma_noted_all_concat(Seq::empty(), all.take(at as int), part);
            assert(all.take(at as int) + part =~= all.take(end as int));
            indexer::lemma_noted_all_grows(Seq::empty(), all, end as int);
            lemma_chunk_start(at as int, end as int);
            assert forall|i: int| 0 <= i < part.len() implies weight * (
            #[trigger] part[i]).title.len() + part[i].body.len() <= u32::MAX by {
                assert(part[i] == all[at + i]);
            }
        }
        let spilled = builder.add_chunk(chunk);
        if let Some(shard) = spilled {
            shards.push(shard);
        }
        proof {
            assert(builder.tokens@ =~= all.take(end as int));
            assert(builder.content_hashes@ =~= hashes_of(docs@).take(end as int));
            assert forall|i: int| 0 <= i < shards@.len() implies is_shard(
                (#[trigger] shards@[i])@,
                builder.spilled@[i],
            ) by {
                if i < before.spilled@.len() {
                    if spilled is Some {
                        assert(builder.spilled@.drop_last()[i] == before.spilled@[i]);
                    }
                }
            }
        }
        at = end;
    }
    let ghost before = builder;
    let rest = builder.spill_pending();
    if let Some(shard) = rest {
        shards.push(shard);
    }
    proof {
        assert(all.take(n as int) =~= all);
        assert(hashes_of(docs@).take(n as int) =~= hashes_of(docs@));
        assert forall|i: int| 0 <= i < shards@.len() implies is_shard(
            (#[trigger] shards@[i])@,
            builder.spilled@[i],
        ) by {
            if i < before.spilled@.len() {
                assert(builder.spilled@[i] == before.spilled@[i]);
            }
        }
    }
    let mut slices: Vec<&[u8]> = Vec::new();
    let mut i: usize = 0;
    while i < shards.len()
        invariant
            i <= shards@.len(),
            slices@.len() == i,
            forall|j: int| 0 <= j < i ==> (#[trigger] slices@[j])@ == shards@[j]@,
        decreases shards@.len() - i,
    {
        slices.push(shards[i].as_slice());
        i += 1;
    }
    let ghost runs = runs_of(shards@, builder.spilled@);
    let ghost names = builder.terms@;
    let ghost lists = lists_for(all, weight, names);
    proof {
        indexer::lemma_first_seen(all, weight);
        lemma_runs(shards@, builder.spilled@);
        assert(are_shards(slices@, runs));
        assert(builder.seen@ =~= joined_parts(builder.spilled@));
        assert forall|t: int| 0 <= t < names.len() implies #[trigger] merged(runs, t as u32)
            == lists[t] && packable(lists[t], builder.doc_lens@.len() as int) by {
            law_streamed_lists_match_the_index(builder, builder.spilled@, runs, t as u32);
            indexer::lemma_term_list_counts(all, weight, names[t], n as int);
        }
        assert(merged_lists(runs, names.len()) =~= lists);
        assert(in_order(lists, builder.doc_lens@.len() as int));
        assert(builder.doc_lens@ =~= indexer::token_lens(all));
    }
    let merged = match merge_shards(
        slices.as_slice(),
        builder.terms.len() as u32,
        builder.doc_lens.as_slice(),
        block_size,
    ) {
        Ok(m) => m,
        Err(e) => {
            return Err(e);
        },
    };
    let avg_doc_len: u32 = indexer::average(&builder.doc_lens, Ghost(all));
    let name_to_slot = sort_slots(&builder.terms.names);
    Ok(
        ExternalIndex {
            terms: builder.terms,
            doc_lens: builder.doc_lens,
            content_hashes: builder.content_hashes,
            avg_doc_len,
            name_to_slot,
            merged,
            num_shards: shards.len(),
        },
    )
}

/// A chunk begins where the one before it ends.
proof fn lemma_chunk_start(start: int, end: int)
    requires
        start % CHUNK_DOCS as int == 0,
        0 <= start < end <= start + CHUNK_DOCS,
    ensures
        (end - 1) / CHUNK_DOCS as int * CHUNK_DOCS as int == start,
        end == start + CHUNK_DOCS ==> end % CHUNK_DOCS as int == 0,
{
}

proof fn lemma_runs(shards: Seq<Vec<u8>>, parts: Seq<Seq<Triple>>)
    requires
        shards.len() == parts.len(),
        forall|i: int| 0 <= i < shards.len() ==> is_shard((#[trigger] shards[i])@, parts[i]),
    ensures
        ({
            let runs = runs_of(shards, parts);
            &&& runs.len() == shards.len()
            &&& forall|i: int|
                0 <= i < shards.len() ==> {
                    &&& groups(#[trigger] runs[i], parts[i])
                    &&& sorted_runs(runs[i])
                    &&& shards[i]@ == shard_of(runs[i])
                }
        }),
{
    let runs = runs_of(shards, parts);
    assert forall|i: int| 0 <= i < shards.len() implies {
        &&& groups(#[trigger] runs[i], parts[i])
        &&& sorted_runs(runs[i])
        &&& shards[i]@ == shard_of(runs[i])
    } by {
        assert(is_shard(shards[i]@, parts[i]));
    }
}

/// An index built through shards holds, for every term, the posting list of
/// an index of the same documents that was built in memory.
pub proof fn law_external_matches_memory(
    x: ExternalIndex,
    index: indexer::Index,
    tokens: Seq<TokenModel>,
    weight: nat,
    metas: Seq<indexer::DocMeta>,
    block_size: int,
)
    requires
        x.indexes(tokens, weight, block_size),
        indexer::indexes(index, tokens, weight, metas),
    ensures
        x.merged.holds(
            Seq::new(x.terms@.len(), |t: int| index.postings_of(x.terms@[t])),
            x.doc_lens@,
            block_size,
        ),
        forall|t: Seq<char>| #[trigger] x.terms@.contains(t) <==> index.terms@.contains(t),
        x.avg_doc_len == index.avg_doc_len,
{
    let lists = lists_for(tokens, weight, x.terms@);
    assert forall|t: int| 0 <= t < lists.len() implies #[trigger] lists[t] == index.postings_of(
        x.terms@[t],
    ) by {}
    assert(lists =~= Seq::new(x.terms@.len(), |t: int| index.postings_of(x.terms@[t])));
}

/// The postings of a term are those of its triples, in their order.
pub proof fn law_postings_of_triples(triples: Seq<Triple>, term: u32)
    ensures
        for_term(triples, term) == triples.filter(|t: Triple| t.term == term).map_values(
            |t: Triple| Posting { doc_id: t.doc, tf: t.tf },
        ),
    decreases triples.len(),
{
    reveal(Seq::filter);
    let f = |t: Triple| t.term == term;
    let g = |t: Triple| Posting { doc_id: t.doc, tf: t.tf };
    if triples.len() > 0 {
        law_postings_of_triples(triples.drop_last(), term);
        let front = triples.drop_last().filter(f);
        assert(front.push(triples.last()).map_values(g) =~= front.map_values(g).push(
            g(triples.last()),
        ));
    } else {
        assert(triples.filter(f).map_values(g) =~= Seq::<Posting>::empty());
    }
}

} // verus!
