//! Posting lists and per-block metadata for Block-Max WAND.
//!
//! Blocks have a fixed size, so the range of a block follows from its index.
//! What is stored per block is the last document id (for skipping past the
//! block) and the impact pair: the largest term frequency and the smallest
//! document length. A BM25 contribution grows with the one and shrinks with
//! the other, so the pair bounds every posting of the block under whatever
//! idf and average length a query is scored with.

use crate::bm25;
use crate::compress;
use crate::order;
use vstd::prelude::*;
use vstd::slice::slice_subrange;

verus! {

/// Default number of postings per block.
pub const DEFAULT_BLOCK_SIZE: usize = 128;

/// One posting: a document and how often the term occurs in it.
#[derive(Debug, Clone, Copy, PartialEq, Eq, Structural)]
pub struct Posting {
    pub doc_id: u32,
    pub tf: u32,
}

/// Index of the first posting of block `b`.
pub open spec fn block_lo(b: int, block_size: int) -> int {
    b * block_size
}

/// Index one past the last posting of block `b` of a list of `n`.
pub open spec fn block_hi(b: int, block_size: int, n: int) -> int {
    if (b + 1) * block_size <= n {
        (b + 1) * block_size
    } else {
        n
    }
}

/// How many blocks a list of `n` postings has.
pub open spec fn block_total(n: int, block_size: int) -> int {
    (n + block_size - 1) / block_size
}

/// Block `b` holds at least one posting and does not leave the list; the
/// blocks before `block_total` cover the list.
pub proof fn lemma_block_range(b: int, block_size: int, n: int)
    requires
        block_size > 0,
        0 <= n,
        0 <= b < block_total(n, block_size),
    ensures
        0 <= block_lo(b, block_size) < block_hi(b, block_size, n) <= n,
        block_hi(b, block_size, n) - block_lo(b, block_size) <= block_size,
        b + 1 < block_total(n, block_size) ==> block_hi(b, block_size, n) == block_lo(
            b + 1,
            block_size,
        ),
        b + 1 == block_total(n, block_size) ==> block_hi(b, block_size, n) == n,
{
    let t = block_total(n, block_size);
    vstd::arithmetic::div_mod::lemma_fundamental_div_mod(n + block_size - 1, block_size);
    let r = (n + block_size - 1) % block_size;
    assert(t * block_size <= n + block_size - 1 && n <= t * block_size) by (nonlinear_arith)
        requires
            n + block_size - 1 == block_size * t + r,
            0 <= r < block_size,
    ;
    assert(b * block_size >= 0) by (nonlinear_arith)
        requires
            b >= 0,
            block_size > 0,
    ;
    assert((b + 1) * block_size == b * block_size + block_size) by (nonlinear_arith);
    assert((b + 1) * block_size <= t * block_size) by (nonlinear_arith)
        requires
            b + 1 <= t,
            block_size > 0,
    ;
    if b + 1 < t {
        assert((b + 2) * block_size <= t * block_size) by (nonlinear_arith)
            requires
                b + 2 <= t,
                block_size > 0,
        ;
        assert((b + 2) * block_size == (b + 1) * block_size + block_size) by (nonlinear_arith);
    }
}

/// Position `i` lies in block `i / block_size`.
pub proof fn lemma_block_of(i: int, block_size: int, n: int)
    requires
        block_size > 0,
        0 <= i < n,
    ensures
        0 <= i / block_size < block_total(n, block_size),
        block_lo(i / block_size, block_size) <= i < block_hi(i / block_size, block_size, n),
        i % block_size == i - block_lo(i / block_size, block_size),
{
    vstd::arithmetic::div_mod::lemma_fundamental_div_mod(i, block_size);
    vstd::arithmetic::div_mod::lemma_fundamental_div_mod(n + block_size - 1, block_size);
    vstd::arithmetic::div_mod::lemma_div_pos_is_pos(i, block_size);
    let q = i / block_size;
    let t = block_total(n, block_size);
    let r = (n + block_size - 1) % block_size;
    let m = i % block_size;
    assert(q * block_size == block_size * q) by (nonlinear_arith);
    assert((q + 1) * block_size == q * block_size + block_size) by (nonlinear_arith);
    assert(q < t) by (nonlinear_arith)
        requires
            i == block_size * q + m,
            0 <= m < block_size,
            i < n,
            n + block_size - 1 == block_size * t + r,
            0 <= r < block_size,
    ;
}

/// `b` is the block of position `i` whenever `i` lies in its range.
pub proof fn lemma_block_unique(i: int, b: int, block_size: int, n: int)
    requires
        block_size > 0,
        0 <= b,
        block_lo(b, block_size) <= i < block_hi(b, block_size, n),
    ensures
        i / block_size == b,
        i % block_size == i - block_lo(b, block_size),
{
    assert((b + 1) * block_size == b * block_size + block_size) by (nonlinear_arith);
    vstd::arithmetic::div_mod::lemma_fundamental_div_mod_converse(
        i,
        block_size,
        b,
        i - b * block_size,
    );
}

/// `m` is the largest term frequency among the postings from `lo` below `hi`.
pub open spec fn is_max_tf(p: Seq<Posting>, lo: int, hi: int, m: u32) -> bool {
    &&& forall|i: int| lo <= i < hi ==> (#[trigger] p[i]).tf <= m
    &&& exists|i: int| lo <= i < hi && (#[trigger] p[i]).tf == m
}

/// `m` is the smallest document length among the postings from `lo` below `hi`.
pub open spec fn is_min_len(p: Seq<Posting>, lens: Seq<u32>, lo: int, hi: int, m: u32) -> bool {
    &&& forall|i: int| lo <= i < hi ==> m <= lens[(#[trigger] p[i]).doc_id as int]
    &&& exists|i: int| lo <= i < hi && lens[(#[trigger] p[i]).doc_id as int] == m
}

/// The three vectors are the block metadata of `p`.
pub open spec fn is_block_meta(
    p: Seq<Posting>,
    lens: Seq<u32>,
    block_size: int,
    max_doc_ids: Seq<u32>,
    max_tfs: Seq<u32>,
    min_lens: Seq<u32>,
) -> bool {
    &&& max_doc_ids.len() == block_total(p.len() as int, block_size)
    &&& max_tfs.len() == max_doc_ids.len()
    &&& min_lens.len() == max_doc_ids.len()
    &&& forall|b: int|
        #![trigger max_doc_ids[b]]
        #![trigger max_tfs[b]]
        #![trigger min_lens[b]]
        0 <= b < max_doc_ids.len() ==> {
            let lo = block_lo(b, block_size);
            let hi = block_hi(b, block_size, p.len() as int);
            &&& max_doc_ids[b] == p[hi - 1].doc_id
            &&& is_max_tf(p, lo, hi, max_tfs[b])
            &&& is_min_len(p, lens, lo, hi, min_lens[b])
        }
}

/// Postings have one set of block metadata.
pub proof fn lemma_one_block_meta(
    p: Seq<Posting>,
    lens: Seq<u32>,
    block_size: int,
    a: (Seq<u32>, Seq<u32>, Seq<u32>),
    b: (Seq<u32>, Seq<u32>, Seq<u32>),
)
    requires
        is_block_meta(p, lens, block_size, a.0, a.1, a.2),
        is_block_meta(p, lens, block_size, b.0, b.1, b.2),
    ensures
        a == b,
{
    assert(a.0 =~= b.0);
    assert forall|i: int| 0 <= i < a.1.len() implies a.1[i] == b.1[i] && a.2[i] == b.2[i] by {
        assert(a.0[i] == b.0[i]);
        let lo = block_lo(i, block_size);
        let hi = block_hi(i, block_size, p.len() as int);
        assert(is_max_tf(p, lo, hi, a.1[i]) && is_max_tf(p, lo, hi, b.1[i]));
        assert(is_min_len(p, lens, lo, hi, a.2[i]) && is_min_len(p, lens, lo, hi, b.2[i]));
    }
    assert(a.1 =~= b.1);
    assert(a.2 =~= b.2);
}

/// Split `postings` into fixed-size blocks and compute the metadata of each:
/// last document id, largest tf, smallest document length.
pub fn build_blocks(postings: &[Posting], doc_lens: &[u32], block_size: usize) -> (r: (
    Vec<u32>,
    Vec<u32>,
    Vec<u32>,
))
    requires
        block_size > 0,
        forall|i: int| 0 <= i < postings@.len() ==> (#[trigger] postings@[i]).doc_id < doc_lens@.len(),
    ensures
        is_block_meta(postings@, doc_lens@, block_size as int, r.0@, r.1@, r.2@),
{
    let n: usize = postings.len();
    let ghost p = postings@;
    let ghost bs = block_size as int;
    let mut max_doc_ids: Vec<u32> = Vec::new();
    let mut max_tfs: Vec<u32> = Vec::new();
    let mut min_lens: Vec<u32> = Vec::new();
    let mut start: usize = 0;
    proof {
        assert(0 * bs == 0);
        if n == 0 {
            vstd::arithmetic::div_mod::lemma_basic_div(bs - 1, bs);
        }
    }
    while start < n
        invariant
            block_size > 0,
            bs == block_size,
            p == postings@,
            n == p.len(),
            forall|i: int| 0 <= i < p.len() ==> (#[trigger] p[i]).doc_id < doc_lens@.len(),
            start <= n,
            start < n ==> start == max_doc_ids@.len() * bs,
            start == n ==> max_doc_ids@.len() == block_total(n as int, bs),
            max_doc_ids@.len() <= block_total(n as int, bs),
            max_tfs@.len() == max_doc_ids@.len(),
            min_lens@.len() == max_doc_ids@.len(),
            forall|b: int|
                #![trigger max_doc_ids@[b]]
                #![trigger max_tfs@[b]]
                #![trigger min_lens@[b]]
                0 <= b < max_doc_ids@.len() ==> {
                    let lo = block_lo(b, bs);
                    let hi = block_hi(b, bs, n as int);
                    &&& max_doc_ids@[b] == p[hi - 1].doc_id
                    &&& is_max_tf(p, lo, hi, max_tfs@[b])
                    &&& is_min_len(p, doc_lens@, lo, hi, min_lens@[b])
                },
        decreases n - start,
    {
        let ghost b = max_doc_ids@.len() as int;
        let end: usize = if n - start > block_size { start + block_size } else { n };
        proof {
            lemma_block_of(start as int, bs, n as int);
            vstd::arithmetic::div_mod::lemma_div_by_multiple(b, bs);
            assert(start as int / bs == b);
            assert((b + 1) * bs == b * bs + bs) by (nonlinear_arith);
            assert(end == block_hi(b, bs, n as int));
            lemma_block_range(b, bs, n as int);
            if b + 1 < block_total(n as int, bs) {
                lemma_block_range(b + 1, bs, n as int);
            }
        }
        let mut max_tf: u32 = postings[start].tf;
        let mut min_len: u32 = doc_lens[postings[start].doc_id as usize];
        let mut i: usize = start + 1;
        while i < end
            invariant
                p == postings@,
                start < i <= end <= n == p.len(),
                forall|i: int| 0 <= i < p.len() ==> (#[trigger] p[i]).doc_id < doc_lens@.len(),
                is_max_tf(p, start as int, i as int, max_tf),
                is_min_len(p, doc_lens@, start as int, i as int, min_len),
            decreases end - i,
        {
            let tf: u32 = postings[i].tf;
            let len: u32 = doc_lens[postings[i].doc_id as usize];
            assert(p[i as int].tf == tf);
            if tf > max_tf {
                max_tf = tf;
            }
            if len < min_len {
                min_len = len;
            }
            i += 1;
        }
        max_doc_ids.push(postings[end - 1].doc_id);
        max_tfs.push(max_tf);
        min_lens.push(min_len);
        start = end;
    }
    (max_doc_ids, max_tfs, min_lens)
}

/// A posting list sorted by document id, with block metadata and the impact
/// pair of the whole list.
pub struct PostingList {
    pub postings: Vec<Posting>,
    /// Last document id of each block.
    pub block_max_doc_ids: Vec<u32>,
    /// Largest term frequency of each block.
    pub block_max_tfs: Vec<u32>,
    /// Smallest document length of each block.
    pub block_min_lens: Vec<u32>,
    pub term_max_tf: u32,
    pub term_min_len: u32,
    /// Fixed-point idf of the term.
    pub idf: u32,
}

/// Document ids never decrease.
pub open spec fn sorted_by_doc(p: Seq<Posting>) -> bool {
    forall|i: int, j: int| 0 <= i < j < p.len() ==> (#[trigger] p[i]).doc_id <= (#[trigger] p[j]).doc_id
}

/// `m` is the largest element, one for an empty sequence.
pub open spec fn is_max_or_one(s: Seq<u32>, m: u32) -> bool {
    if s.len() == 0 {
        m == 1
    } else {
        &&& forall|i: int| 0 <= i < s.len() ==> #[trigger] s[i] <= m
        &&& s.contains(m)
    }
}

/// `m` is the smallest element, one for an empty sequence.
pub open spec fn is_min_or_one(s: Seq<u32>, m: u32) -> bool {
    if s.len() == 0 {
        m == 1
    } else {
        &&& forall|i: int| 0 <= i < s.len() ==> m <= #[trigger] s[i]
        &&& s.contains(m)
    }
}

pub(crate) fn max_or_one(s: &Vec<u32>) -> (m: u32)
    ensures
        is_max_or_one(s@, m),
{
    if s.len() == 0 {
        return 1;
    }
    let mut m: u32 = s[0];
    let mut i: usize = 1;
    while i < s.len()
        invariant
            1 <= i <= s@.len(),
            forall|j: int| 0 <= j < i ==> #[trigger] s@[j] <= m,
            exists|j: int| 0 <= j < i && #[trigger] s@[j] == m,
        decreases s@.len() - i,
    {
        let v: u32 = s[i];
        assert(s@[i as int] == v);
        if v > m {
            m = v;
        }
        i += 1;
    }
    m
}

pub(crate) fn min_or_one(s: &Vec<u32>) -> (m: u32)
    ensures
        is_min_or_one(s@, m),
{
    if s.len() == 0 {
        return 1;
    }
    let mut m: u32 = s[0];
    let mut i: usize = 1;
    while i < s.len()
        invariant
            1 <= i <= s@.len(),
            forall|j: int| 0 <= j < i ==> m <= #[trigger] s@[j],
            exists|j: int| 0 <= j < i && #[trigger] s@[j] == m,
        decreases s@.len() - i,
    {
        let v: u32 = s[i];
        assert(s@[i as int] == v);
        if v < m {
            m = v;
        }
        i += 1;
    }
    m
}

impl PostingList {
    /// The metadata belongs to the postings.
    pub open spec fn wf(&self, doc_lens: Seq<u32>, block_size: int) -> bool {
        &&& sorted_by_doc(self.postings@)
        &&& is_block_meta(
            self.postings@,
            doc_lens,
            block_size,
            self.block_max_doc_ids@,
            self.block_max_tfs@,
            self.block_min_lens@,
        )
        &&& is_max_or_one(self.block_max_tfs@, self.term_max_tf)
        &&& is_min_or_one(self.block_min_lens@, self.term_min_len)
    }

    /// Build a finished posting list: sort by document id (postings of one
    /// document keep their order) and build the metadata. `doc_lens` maps a
    /// document to its length in tokens.
    pub fn build(
        postings: Vec<Posting>,
        num_docs: usize,
        doc_lens: &[u32],
        block_size: usize,
    ) -> (list: Self)
        requires
            block_size > 0,
            postings@.len() <= num_docs <= u32::MAX,
            forall|i: int|
                0 <= i < postings@.len() ==> (#[trigger] postings@[i]).doc_id < doc_lens@.len(),
        ensures
            list.wf(doc_lens@, block_size as int),
            list.postings@.to_multiset() == postings@.to_multiset(),
            list.postings@.len() == postings@.len(),
            sorted_by_doc(postings@) ==> list.postings@ == postings@,
            list.idf == bm25::idf_spec(num_docs as nat, postings@.len()),
    {
        let n: usize = postings.len();
        let mut keys: Vec<u64> = Vec::new();
        let mut i: usize = 0;
        while i < n
            invariant
                i <= n == postings@.len(),
                keys@.len() == i,
                forall|j: int| 0 <= j < i ==> #[trigger] keys@[j] == postings@[j].doc_id,
            decreases n - i,
        {
            keys.push(postings[i].doc_id as u64);
            i += 1;
        }
        let by_doc = order::order_by_key(&keys);
        proof {
            order::lemma_increasing_distinct(by_doc@, n as int, order::key_less(keys@));
            order::lemma_rearranged(postings@, by_doc@);
        }
        let mut sorted: Vec<Posting> = Vec::new();
        let mut j: usize = 0;
        while j < n
            invariant
                j <= n == postings@.len(),
                by_doc@.len() == n,
                forall|k: int| 0 <= k < n ==> 0 <= #[trigger] by_doc@[k] < n,
                sorted@.len() == j,
                forall|k: int| 0 <= k < j ==> #[trigger] sorted@[k] == postings@[by_doc@[k] as int],
            decreases n - j,
        {
            sorted.push(postings[by_doc[j]]);
            j += 1;
        }
        proof {
            assert(sorted@ =~= Seq::new(by_doc@.len(), |i: int| postings@[by_doc@[i] as int]));
            assert(sorted_by_doc(sorted@)) by {
                assert forall|a: int, b: int| 0 <= a < b < sorted@.len() implies (
                #[trigger] sorted@[a]).doc_id <= (#[trigger] sorted@[b]).doc_id by {
                    assert(order::key_less(keys@)(by_doc@[a] as int, by_doc@[b] as int));
                }
            }
            if sorted_by_doc(postings@) {
                lemma_sorted_order_is_identity(keys@, by_doc@);
                assert(sorted@ =~= postings@);
            }
        }
        let (block_max_doc_ids, block_max_tfs, block_min_lens) = build_blocks(
            sorted.as_slice(),
            doc_lens,
            block_size,
        );
        let term_max_tf: u32 = max_or_one(&block_max_tfs);
        let term_min_len: u32 = min_or_one(&block_min_lens);
        PostingList {
            postings: sorted,
            block_max_doc_ids,
            block_max_tfs,
            block_min_lens,
            term_max_tf,
            term_min_len,
            idf: bm25::idf(num_docs, n),
        }
    }

    /// Document frequency of the term.
    pub fn df(&self) -> (df: usize)
        ensures
            df == self.postings@.len(),
    {
        self.postings.len()
    }
}

/// Sorting what is sorted changes nothing.
proof fn lemma_sorted_order_is_identity(keys: Seq<u64>, by_key: Seq<usize>)
    requires
        order::sorted_indices(by_key, keys.len() as int, order::key_less(keys)),
        forall|i: int, j: int| 0 <= i < j < keys.len() ==> #[trigger] keys[i] <= #[trigger] keys[j],
    ensures
        forall|i: int| 0 <= i < by_key.len() ==> #[trigger] by_key[i] == i,
{
    let less = order::key_less(keys);
    // Positions increase along the listing, so each is at least its rank and
    // leaves room for those after it.
    assert forall|i: int, j: int| 0 <= i < j < by_key.len() implies #[trigger] by_key[i]
        < #[trigger] by_key[j] by {
        let a = by_key[i] as int;
        let b = by_key[j] as int;
        assert(less(a, b));
        if a > b {
            assert(keys[b] <= keys[a]);
        }
    }
    assert forall|i: int| 0 <= i < by_key.len() implies #[trigger] by_key[i] == i by {
        lemma_increasing_low(by_key, i);
        lemma_increasing_high(by_key, i);
    }
}

proof fn lemma_increasing_low(s: Seq<usize>, i: int)
    requires
        0 <= i < s.len(),
        forall|a: int, b: int| 0 <= a < b < s.len() ==> #[trigger] s[a] < #[trigger] s[b],
    ensures
        s[i] >= i,
    decreases i,
{
    if i > 0 {
        lemma_increasing_low(s, i - 1);
        assert(s[i - 1] < s[i]);
    }
}

proof fn lemma_increasing_high(s: Seq<usize>, i: int)
    requires
        0 <= i < s.len(),
        forall|a: int, b: int| 0 <= a < b < s.len() ==> #[trigger] s[a] < #[trigger] s[b],
        forall|a: int| 0 <= a < s.len() ==> #[trigger] s[a] < s.len(),
    ensures
        s[i] <= i,
    decreases s.len() - i,
{
    if i < s.len() - 1 {
        lemma_increasing_high(s, i + 1);
        assert(s[i] < s[i + 1]);
    }
}

/// Where the posting blocks of a term come from.
pub enum BlockSource<'a> {
    /// Plain postings in memory.
    Memory(&'a [Posting]),
    /// Packed blocks; `block_offsets[i]` is where block `i` starts in `bytes`.
    Compressed { bytes: &'a [u8], block_offsets: &'a [u32] },
}

/// Read-only view of the posting data of one term, wherever the postings
/// live.
pub struct TermPostings<'a> {
    /// Fixed-point idf under the statistics that the query is scored with.
    pub idf: u32,
    /// Average document length under the same statistics.
    pub avg_doc_len: u32,
    /// Document frequency: the number of postings.
    pub df: usize,
    /// Postings per block.
    pub block_size: usize,
    /// Last document id of each block.
    pub block_max_doc_ids: &'a [u32],
    /// Largest tf of each block.
    pub block_max_tfs: &'a [u32],
    /// Smallest document length of each block.
    pub block_min_lens: &'a [u32],
    pub term_max_tf: u32,
    pub term_min_len: u32,
    pub source: BlockSource<'a>,
}

impl<'a> TermPostings<'a> {
    /// The packed bytes from block `b` on.
    pub open spec fn block_bytes(&self, b: int) -> Seq<u8> {
        match self.source {
            BlockSource::Memory(_) => Seq::empty(),
            BlockSource::Compressed { bytes, block_offsets } => bytes@.skip(
                block_offsets@[b] as int,
            ),
        }
    }

    /// The `i`-th posting of the term.
    pub open spec fn posting(&self, i: int) -> Posting {
        match self.source {
            BlockSource::Memory(postings) => postings@[i],
            BlockSource::Compressed { .. } => {
                let b = self.block_bytes(i / self.block_size as int);
                let w = (i % self.block_size as int) as nat;
                Posting {
                    doc_id: compress::block_doc(b, w) as u32,
                    tf: compress::block_tf_at(b, w) as u32,
                }
            },
        }
    }

    /// All postings of the term.
    pub open spec fn list(&self) -> Seq<Posting> {
        Seq::new(self.df as nat, |i: int| self.posting(i))
    }

    pub open spec fn blocks(&self) -> int {
        block_total(self.df as int, self.block_size as int)
    }

    pub open spec fn lo(&self, b: int) -> int {
        block_lo(b, self.block_size as int)
    }

    pub open spec fn hi(&self, b: int) -> int {
        block_hi(b, self.block_size as int, self.df as int)
    }

    /// Every block can be read from the source and has the size it should.
    pub open spec fn source_ok(&self) -> bool {
        match self.source {
            BlockSource::Memory(postings) => postings@.len() == self.df,
            BlockSource::Compressed { bytes, block_offsets } => {
                &&& block_offsets@.len() == self.blocks()
                &&& forall|b: int|
                    0 <= b < block_offsets@.len() ==> {
                        let at = #[trigger] block_offsets@[b];
                        let bb = self.block_bytes(b);
                        &&& at <= bytes@.len()
                        &&& compress::docs_readable(bb)
                        &&& compress::block_count(bb) == self.hi(b) - self.lo(b)
                        &&& forall|w: nat|
                            w < compress::block_count(bb) ==> #[trigger] compress::block_tf_at(
                                bb,
                                w,
                            ) <= u32::MAX
                    }
            },
        }
    }

    /// The view is consistent with documents of the given lengths: documents
    /// ascend, and the metadata bounds the postings it stands for.
    pub open spec fn wf(&self, lens: Seq<u32>) -> bool {
        let p = self.list();
        &&& self.block_size > 0
        &&& self.avg_doc_len > 0
        &&& self.idf <= bm25::MAX_IDF
        &&& self.source_ok()
        &&& self.block_max_doc_ids@.len() == self.blocks()
        &&& self.block_max_tfs@.len() == self.blocks()
        &&& self.block_min_lens@.len() == self.blocks()
        &&& lens.len() <= u32::MAX
        &&& forall|i: int, j: int|
            0 <= i < j < p.len() ==> (#[trigger] p[i]).doc_id < (#[trigger] p[j]).doc_id
        &&& forall|i: int|
            0 <= i < p.len() ==> {
                &&& (#[trigger] p[i]).doc_id < lens.len()
                &&& p[i].tf <= self.term_max_tf
                &&& self.term_min_len <= lens[p[i].doc_id as int]
            }
        &&& forall|b: int|
            0 <= b < self.blocks() ==> #[trigger] self.block_max_doc_ids@[b] == p[self.hi(b)
                - 1].doc_id
        &&& forall|b: int, i: int|
            #![trigger self.block_max_tfs@[b], p[i]]
            0 <= b < self.blocks() && self.lo(b) <= i < self.hi(b) ==> {
                &&& p[i].tf <= self.block_max_tfs@[b]
                &&& self.block_min_lens@[b] <= lens[p[i].doc_id as int]
            }
    }

    /// The impact pairs are those of the postings themselves.
    pub open spec fn tight(&self, lens: Seq<u32>) -> bool {
        let p = self.list();
        &&& is_max_tf(p, 0, p.len() as int, self.term_max_tf)
        &&& is_min_len(p, lens, 0, p.len() as int, self.term_min_len)
        &&& forall|b: int|
            #![trigger self.block_max_tfs@[b]]
            #![trigger self.block_min_lens@[b]]
            0 <= b < self.blocks() ==> {
                &&& is_max_tf(p, self.lo(b), self.hi(b), self.block_max_tfs@[b])
                &&& is_min_len(p, lens, self.lo(b), self.hi(b), self.block_min_lens@[b])
            }
    }

    /// What the `i`-th posting adds to the score of its document.
    pub open spec fn weight(&self, lens: Seq<u32>, i: int) -> nat {
        let p = self.list()[i];
        bm25::contribution(
            self.idf as nat,
            p.tf as nat,
            lens[p.doc_id as int] as nat,
            self.avg_doc_len as nat,
        )
    }

    /// The bound that the impact pair of the whole list gives.
    pub open spec fn list_bound_spec(&self) -> nat {
        bm25::contribution(
            self.idf as nat,
            self.term_max_tf as nat,
            self.term_min_len as nat,
            self.avg_doc_len as nat,
        )
    }

    /// The bound that the impact pair of block `b` gives.
    pub open spec fn block_bound_spec(&self, b: int) -> nat {
        bm25::contribution(
            self.idf as nat,
            self.block_max_tfs@[b] as nat,
            self.block_min_lens@[b] as nat,
            self.avg_doc_len as nat,
        )
    }

    /// No posting weighs more than the bound of its block or of its list.
    pub proof fn law_bounds_are_safe(&self, lens: Seq<u32>, i: int)
        requires
            self.wf(lens),
            0 <= i < self.df,
        ensures
            self.weight(lens, i) <= self.list_bound_spec(),
            self.weight(lens, i) <= self.block_bound_spec(i / self.block_size as int),
    {
        let b = i / self.block_size as int;
        lemma_block_of(i, self.block_size as int, self.df as int);
        let p = self.list();
        assert(p[i].tf <= self.block_max_tfs@[b]);
        bm25::law_contribution_monotone(
            self.idf as nat,
            p[i].tf as nat,
            lens[p[i].doc_id as int] as nat,
            self.term_max_tf as nat,
            self.term_min_len as nat,
            self.avg_doc_len as nat,
        );
        bm25::law_contribution_monotone(
            self.idf as nat,
            p[i].tf as nat,
            lens[p[i].doc_id as int] as nat,
            self.block_max_tfs@[b] as nat,
            self.block_min_lens@[b] as nat,
            self.avg_doc_len as nat,
        );
    }

    pub fn num_blocks(&self) -> (n: usize)
        ensures
            n == self.block_max_doc_ids@.len(),
    {
        self.block_max_doc_ids.len()
    }

    /// Safe upper bound on the contribution of the term anywhere in the list.
    pub fn list_bound(&self) -> (bound: u64)
        requires
            self.avg_doc_len > 0,
        ensures
            bound == self.list_bound_spec(),
            bound <= 3 * self.idf,
    {
        bm25::term_contribution(self.idf, self.term_max_tf, self.term_min_len, self.avg_doc_len)
    }

    /// Safe upper bound on the contribution of the term within block `b`.
    pub fn block_bound(&self, b: usize) -> (bound: u64)
        requires
            self.avg_doc_len > 0,
            b < self.block_max_tfs@.len(),
            b < self.block_min_lens@.len(),
        ensures
            bound == self.block_bound_spec(b as int),
            bound <= 3 * self.idf,
    {
        bm25::term_contribution(
            self.idf,
            self.block_max_tfs[b],
            self.block_min_lens[b],
            self.avg_doc_len,
        )
    }

    /// Index of the first posting of block `i`.
    pub fn block_start(&self, i: usize) -> (start: usize)
        requires
            self.block_size > 0,
            i < self.blocks(),
        ensures
            start == self.lo(i as int),
    {
        proof {
            lemma_block_range(i as int, self.block_size as int, self.df as int);
        }
        i * self.block_size
    }

    /// Index one past the last posting of block `i`.
    pub fn block_end(&self, i: usize) -> (end: usize)
        requires
            self.block_size > 0,
            i < self.blocks(),
        ensures
            end == self.hi(i as int),
    {
        let start: usize = self.block_start(i);
        proof {
            lemma_block_range(i as int, self.block_size as int, self.df as int);
            assert((i + 1) * self.block_size == i * self.block_size + self.block_size)
                by (nonlinear_arith);
        }
        if self.df - start >= self.block_size {
            start + self.block_size
        } else {
            self.df
        }
    }

    /// Write the document ids of one block into `out`, which is cleared
    /// first. Term frequencies are fetched with [`Self::tf_at`] for the
    /// postings that get scored.
    pub fn decode_docs(&self, block_idx: usize, out: &mut Vec<u32>)
        requires
            self.block_size > 0,
            self.source_ok(),
            block_idx < self.blocks(),
        ensures
            final(out)@.len() == self.hi(block_idx as int) - self.lo(block_idx as int),
            forall|w: int|
                0 <= w < final(out)@.len() ==> #[trigger] final(out)@[w] == self.list()[self.lo(
                    block_idx as int,
                ) + w].doc_id,
    {
        let ghost lo = self.lo(block_idx as int);
        let ghost hi = self.hi(block_idx as int);
        proof {
            lemma_block_range(block_idx as int, self.block_size as int, self.df as int);
        }
        match &self.source {
            BlockSource::Memory(postings) => {
                out.clear();
                let start: usize = self.block_start(block_idx);
                let end: usize = self.block_end(block_idx);
                let mut i: usize = start;
                while i < end
                    invariant
                        start <= i <= end <= postings@.len(),
                        out@.len() == i - start,
                        forall|w: int|
                            0 <= w < out@.len() ==> #[trigger] out@[w] == postings@[start
                                + w].doc_id,
                    decreases end - i,
                {
                    out.push(postings[i].doc_id);
                    i += 1;
                }
            },
            BlockSource::Compressed { bytes, block_offsets } => {
                let offset: usize = block_offsets[block_idx] as usize;
                let tail: &[u8] = slice_subrange(*bytes, offset, bytes.len());
                let ghost bb = self.block_bytes(block_idx as int);
                assert(tail@ =~= bb);
                compress::decode_block_docs(tail, out);
                proof {
                    assert forall|w: int| 0 <= w < out@.len() implies #[trigger] out@[w]
                        == self.list()[lo + w].doc_id by {
                        lemma_block_unique(
                            lo + w,
                            block_idx as int,
                            self.block_size as int,
                            self.df as int,
                        );
                    }
                }
            },
        }
    }

    /// Term frequency of the `within`-th posting of a block.
    pub fn tf_at(&self, block_idx: usize, within: usize) -> (tf: u32)
        requires
            self.block_size > 0,
            self.source_ok(),
            block_idx < self.blocks(),
            within < self.hi(block_idx as int) - self.lo(block_idx as int),
        ensures
            tf == self.list()[self.lo(block_idx as int) + within].tf,
    {
        let ghost lo = self.lo(block_idx as int);
        proof {
            lemma_block_range(block_idx as int, self.block_size as int, self.df as int);
        }
        match &self.source {
            BlockSource::Memory(postings) => {
                let start: usize = self.block_start(block_idx);
                postings[start + within].tf
            },
            BlockSource::Compressed { bytes, block_offsets } => {
                let offset: usize = block_offsets[block_idx] as usize;
                let tail: &[u8] = slice_subrange(*bytes, offset, bytes.len());
                let ghost bb = self.block_bytes(block_idx as int);
                proof {
                    assert(tail@ =~= bb);
                    lemma_block_unique(
                        lo + within,
                        block_idx as int,
                        self.block_size as int,
                        self.df as int,
                    );
                    assert(compress::block_tf_at(bb, within as nat) <= u32::MAX);
                }
                compress::block_tf(tail, within)
            },
        }
    }

    /// Write one full block of postings into `out`, which is cleared first.
    pub fn decode_block(&self, block_idx: usize, out: &mut Vec<Posting>)
        requires
            self.block_size > 0,
            self.source_ok(),
            block_idx < self.blocks(),
        ensures
            final(out)@ == self.list().subrange(
                self.lo(block_idx as int),
                self.hi(block_idx as int),
            ),
    {
        let ghost lo = self.lo(block_idx as int);
        let ghost hi = self.hi(block_idx as int);
        proof {
            lemma_block_range(block_idx as int, self.block_size as int, self.df as int);
        }
        let mut docs: Vec<u32> = Vec::new();
        self.decode_docs(block_idx, &mut docs);
        out.clear();
        let mut w: usize = 0;
        while w < docs.len()
            invariant
                self.block_size > 0,
                self.source_ok(),
                block_idx < self.blocks(),
                0 <= lo < hi <= self.df,
                lo == self.lo(block_idx as int),
                hi == self.hi(block_idx as int),
                docs@.len() == hi - lo,
                forall|w: int|
                    0 <= w < docs@.len() ==> #[trigger] docs@[w] == self.list()[lo + w].doc_id,
                w <= docs@.len(),
                out@ == self.list().subrange(lo, lo + w),
            decreases docs@.len() - w,
        {
            let tf: u32 = self.tf_at(block_idx, w);
            out.push(Posting { doc_id: docs[w], tf });
            assert(out@ =~= self.list().subrange(lo, lo + w + 1));
            w += 1;
        }
    }
}

/// The blocks of a list cut it into pieces of the block size, in order and
/// without gaps; the last takes what is left.
pub proof fn law_blocks_tile_the_list(n: int, block_size: int, b: int)
    requires
        0 < n,
        0 < block_size,
        0 <= b < block_total(n, block_size),
    ensures
        block_lo(0, block_size) == 0,
        b + 1 < block_total(n, block_size) ==> block_hi(b, block_size, n) == block_lo(
            b + 1,
            block_size,
        ) && block_hi(b, block_size, n) == block_lo(b, block_size) + block_size,
        b + 1 == block_total(n, block_size) ==> block_hi(b, block_size, n) == n,
        block_lo(b, block_size) < block_hi(b, block_size, n) <= block_lo(b, block_size)
            + block_size,
{
    let t = block_total(n, block_size);
    let x = n + block_size - 1;
    vstd::arithmetic::div_mod::lemma_fundamental_div_mod(x, block_size);
    vstd::arithmetic::div_mod::lemma_mod_bound(x, block_size);
    let r = x % block_size;
    assert(block_size * t == t * block_size) by (nonlinear_arith);
    assert((b + 1) * block_size == b * block_size + block_size) by (nonlinear_arith);
    assert(0 * block_size == 0);
    assert((b + 1) * block_size <= t * block_size) by (nonlinear_arith)
        requires
            b + 1 <= t,
            0 < block_size,
    ;
    if b + 1 < t {
        assert((b + 2) * block_size <= t * block_size) by (nonlinear_arith)
            requires
                b + 2 <= t,
                0 < block_size,
        ;
        assert((b + 2) * block_size == (b + 1) * block_size + block_size) by (nonlinear_arith);
    }
}

} // verus!
