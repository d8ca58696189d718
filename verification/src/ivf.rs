//! An inverted file over clusters of document vectors.
//!
//! Each cluster has a posting list of its documents, packed like those of
//! terms. A query opens the lists of the clusters nearest to it and scores
//! only their documents.
//!
//! ```text
//! magic[8] = "HPSIVF01"
//! version u32 = 1
//! num_docs u32
//! num_clusters u32
//! dim u32
//! block_size u32
//! reserved u32
//! centroids    num_clusters * dim * half
//! assignment   num_docs * u32
//! cluster_df   num_clusters * u32
//! padding to a multiple of 8
//! regions      (num_clusters + 1) * u64
//! block_rows   (num_clusters + 1) * u32
//! max_tf, min_len                          num_clusters * u32 each
//! block max_doc, max_tf, min_len, offset   num_blocks * u32 each
//! packed postings
//! ```

use crate::codec;
use crate::compress;
use crate::embeddings;
use crate::external;
use crate::external::{EncodedTerm, TermTables};
use crate::order;
use crate::postings;
use crate::postings::Posting;
use crate::table;
use vstd::arithmetic::power2::*;
use vstd::prelude::*;
use vstd::slice::slice_subrange;

verus! {

/// The bytes `HPSIVF01` as a number.
pub const MAGIC: u64 = 0x3130_4656_4953_5048;

pub const VERSION: u32 = 1;

pub const HEADER_LEN: usize = 32;

/// Why bytes are not an inverted file, or clusters cannot become one.
#[derive(Clone, Copy, PartialEq, Eq, Debug, Structural)]
pub enum IvfError {
    NotAnIvfFile,
    UnsupportedVersion(u32),
    TruncatedBeforeBlocks,
    Truncated,
    NoDocuments,
    LengthsMismatch,
    AssignmentMismatch,
    CentroidsMismatch,
}

// ---------------------------------------------------------------------------
// How many clusters
// ---------------------------------------------------------------------------

/// `k` is the integer nearest to twice the square root of `n`.
pub open spec fn is_twice_root(k: int, n: int) -> bool {
    &&& k >= 0
    &&& (2 * k - 1) * (2 * k - 1) <= 16 * n || k == 0
    &&& 16 * n < (2 * k + 1) * (2 * k + 1)
}

/// The number of clusters for `n` documents: about twice the square root,
/// from 2 to half the documents, and no more than 256. Four documents or
/// fewer get half as many clusters, and at least one.
pub open spec fn is_cluster_count(r: int, n: int) -> bool {
    if n <= 4 {
        r == if n < 4 {
            1
        } else {
            n / 2
        }
    } else {
        exists|k: int| #[trigger]
            is_twice_root(k, n) && r == {
                let top = if n / 2 > 2 {
                    n / 2
                } else {
                    2
                };
                let low = if k < 2 {
                    2
                } else if k > top {
                    top
                } else {
                    k
                };
                if low > 256 {
                    256
                } else {
                    low
                }
            }
    }
}

/// A number has one nearest twice-root.
proof fn lemma_twice_root_exists(n: int) -> (k: int)
    requires
        n >= 0,
    ensures
        is_twice_root(k, n),
{
    lemma_twice_root_from(n, 0)
}

proof fn lemma_twice_root_from(n: int, low: int) -> (k: int)
    requires
        n >= 0,
        low >= 0,
        low == 0 || (2 * low - 1) * (2 * low - 1) <= 16 * n,
    ensures
        k >= low,
        is_twice_root(k, n),
    decreases 16 * n + 1 - low,
{
    if 16 * n < (2 * low + 1) * (2 * low + 1) {
        low
    } else {
        assert(low < 16 * n + 1) by (nonlinear_arith)
            requires
                (2 * low + 1) * (2 * low + 1) <= 16 * n,
                low >= 0,
        ;
        assert((2 * (low + 1) - 1) * (2 * (low + 1) - 1) == (2 * low + 1) * (2 * low + 1));
        lemma_twice_root_from(n, low + 1)
    }
}

/// The number of clusters for `n` documents.
pub fn default_num_clusters(n: usize) -> (r: usize)
    ensures
        is_cluster_count(r as int, n as int),
{
    if n <= 4 {
        return if n < 4 { 1 } else { n / 2 };
    }
    if n >= 16384 {
        proof {
            let k = lemma_twice_root_exists(n as int);
            assert(k >= 256) by (nonlinear_arith)
                requires
                    16 * n < (2 * k + 1) * (2 * k + 1),
                    n >= 16384,
                    k >= 0,
            ;
            assert(is_twice_root(k, n as int));
        }
        return 256;
    }
    let mut k: usize = 1;
    assert((2 * k - 1) * (2 * k - 1) == 1 && (2 * k + 1) * (2 * k + 1) == 9) by (nonlinear_arith)
        requires
            k == 1,
    ;
    // The square of 2k + 1.
    let mut square: usize = 9;
    while square <= 16 * n
        invariant
            5 <= n < 16384,
            1 <= k <= 256,
            (2 * k - 1) * (2 * k - 1) <= 16 * n,
            square == (2 * k + 1) * (2 * k + 1),
        decreases 257 - k,
    {
        proof {
            assert(k < 256) by (nonlinear_arith)
                requires
                    (2 * k + 1) * (2 * k + 1) <= 16 * n,
                    n < 16384,
            ;
            let j = k + 1;
            assert((2 * j - 1) * (2 * j - 1) == (2 * k + 1) * (2 * k + 1)) by (nonlinear_arith)
                requires
                    j == k + 1,
            ;
            assert((2 * j + 1) * (2 * j + 1) == (2 * k + 1) * (2 * k + 1) + 8 * j)
                by (nonlinear_arith)
                requires
                    j == k + 1,
            ;
        }
        k += 1;
        square = square + 8 * k;
    }
    assert(is_twice_root(k as int, n as int));
    let top: usize = if n / 2 > 2 { n / 2 } else { 2 };
    let low: usize = if k < 2 {
        2
    } else if k > top {
        top
    } else {
        k
    };
    if low > 256 {
        256
    } else {
        low
    }
}

/// The position of the best key, the first of equals; 0 if there are none.
pub open spec fn is_best(keys: Seq<u32>, r: int) -> bool {
    if keys.len() == 0 {
        r == 0
    } else {
        &&& 0 <= r < keys.len()
        &&& forall|i: int| 0 <= i < keys.len() ==> #[trigger] keys[i] <= keys[r]
        &&& forall|i: int| 0 <= i < r ==> #[trigger] keys[i] < keys[r]
    }
}

/// The cluster that a vector belongs to, by the keys of its similarity to
/// each centroid.
pub fn assign_one(keys: &[u32]) -> (best: u32)
    requires
        keys@.len() <= u32::MAX,
    ensures
        is_best(keys@, best as int),
{
    let n: usize = keys.len();
    let mut best: usize = 0;
    let mut i: usize = 1;
    while i < n
        invariant
            n == keys@.len(),
            n > 0 ==> best < n,
            n == 0 ==> best == 0,
            1 <= i,
            n > 0 ==> i <= n,
            best < i,
            forall|j: int| 0 <= j < i && j < n ==> #[trigger] keys@[j] <= keys@[best as int],
            forall|j: int| 0 <= j < best ==> #[trigger] keys@[j] < keys@[best as int],
        decreases n - i,
    {
        if keys[i] > keys[best] {
            best = i;
        }
        i += 1;
    }
    best as u32
}

// ---------------------------------------------------------------------------
// Layout
// ---------------------------------------------------------------------------

/// Rounded up to a multiple of 8.
pub open spec fn round8(x: int) -> int {
    (x + 7) / 8 * 8
}

pub open spec fn assign_at(k: int, d: int) -> int {
    HEADER_LEN + k * d * 2
}

pub open spec fn df_at(k: int, d: int, n: int) -> int {
    assign_at(k, d) + n * 4
}

pub open spec fn region_at(k: int, d: int, n: int) -> int {
    round8(df_at(k, d, n) + k * 4)
}

pub open spec fn rows_at(k: int, d: int, n: int) -> int {
    region_at(k, d, n) + (k + 1) * 8
}

pub open spec fn max_tf_at(k: int, d: int, n: int) -> int {
    rows_at(k, d, n) + (k + 1) * 4
}

pub open spec fn min_len_at(k: int, d: int, n: int) -> int {
    max_tf_at(k, d, n) + k * 4
}

pub open spec fn blocks_at(k: int, d: int, n: int) -> int {
    min_len_at(k, d, n) + k * 4
}

/// The number of blocks that a file declares.
pub open spec fn block_total(b: Seq<u8>, k: int, d: int, n: int) -> nat {
    codec::le_at(b, rows_at(k, d, n) + k * 4, 4)
}

/// Why `b` is not an inverted file, if it is none.
pub open spec fn refusal(b: Seq<u8>) -> Option<IvfError> {
    let n = codec::le_at(b, 12, 4) as int;
    let k = codec::le_at(b, 16, 4) as int;
    let d = codec::le_at(b, 20, 4) as int;
    if b.len() < HEADER_LEN || codec::le_at(b, 0, 8) != MAGIC {
        Some(IvfError::NotAnIvfFile)
    } else if codec::le_at(b, 8, 4) != VERSION {
        Some(IvfError::UnsupportedVersion(codec::le_at(b, 8, 4) as u32))
    } else if b.len() < blocks_at(k, d, n) + 4 {
        Some(IvfError::TruncatedBeforeBlocks)
    } else if b.len() < blocks_at(k, d, n) + 16 * block_total(b, k, d, n) {
        Some(IvfError::Truncated)
    } else {
        None
    }
}

/// An inverted file over clusters.
pub struct IvfIndex {
    pub num_docs: u32,
    pub num_clusters: u32,
    pub dim: u32,
    pub block_size: u32,
    pub size: usize,
    /// The centroids, in half precision.
    pub centroids: Vec<u16>,
    /// The cluster of each document.
    pub assignment: Vec<u32>,
    pub cluster_df: Vec<u32>,
    /// Where the packed documents of each cluster begin, and the last end.
    pub regions: Vec<u64>,
    /// The first block of each cluster, and the number of blocks.
    pub block_rows: Vec<u32>,
    pub max_tfs: Vec<u32>,
    pub min_lens: Vec<u32>,
    pub block_max_docs: Vec<u32>,
    pub block_max_tfs: Vec<u32>,
    pub block_min_lens: Vec<u32>,
    /// Where each block begins in the packed documents of its cluster.
    pub block_offsets: Vec<u32>,
    pub packed: Vec<u8>,
}

/// `x` is what the file `b` says.
pub open spec fn says(b: Seq<u8>, x: IvfIndex) -> bool {
    let n = x.num_docs as int;
    let k = x.num_clusters as int;
    let d = x.dim as int;
    let blocks = block_total(b, k, d, n) as int;
    let at = blocks_at(k, d, n);
    &&& x.num_docs == codec::le_at(b, 12, 4)
    &&& x.num_clusters == codec::le_at(b, 16, 4)
    &&& x.dim == codec::le_at(b, 20, 4)
    &&& x.block_size == codec::le_at(b, 24, 4)
    &&& x.size == b.len()
    &&& table::nats_u16(x.centroids@) == table::entries(b, HEADER_LEN as int, k * d, 2)
    &&& table::nats_u32(x.assignment@) == table::entries(b, assign_at(k, d), n, 4)
    &&& table::nats_u32(x.cluster_df@) == table::entries(b, df_at(k, d, n), k, 4)
    &&& table::nats_u64(x.regions@) == table::entries(b, region_at(k, d, n), k + 1, 8)
    &&& table::nats_u32(x.block_rows@) == table::entries(b, rows_at(k, d, n), k + 1, 4)
    &&& table::nats_u32(x.max_tfs@) == table::entries(b, max_tf_at(k, d, n), k, 4)
    &&& table::nats_u32(x.min_lens@) == table::entries(b, min_len_at(k, d, n), k, 4)
    &&& table::nats_u32(x.block_max_docs@) == table::entries(b, at, blocks, 4)
    &&& table::nats_u32(x.block_max_tfs@) == table::entries(b, at + 4 * blocks, blocks, 4)
    &&& table::nats_u32(x.block_min_lens@) == table::entries(b, at + 8 * blocks, blocks, 4)
    &&& table::nats_u32(x.block_offsets@) == table::entries(b, at + 12 * blocks, blocks, 4)
    &&& x.packed@ == b.skip(at + 16 * blocks)
}

impl IvfIndex {
    /// An inverted file.
    pub fn open(bytes: &[u8]) -> (r: Result<IvfIndex, IvfError>)
        ensures
            match r {
                Ok(x) => refusal(bytes@) is None && says(bytes@, x) && x.wf(),
                Err(e) => refusal(bytes@) == Some(e),
            },
    {
        let size: usize = bytes.len();
        if size < HEADER_LEN || codec::read_le(bytes, 0, 8) != MAGIC {
            return Err(IvfError::NotAnIvfFile);
        }
        let version: u32 = table::field(bytes, 0);
        if version != VERSION {
            return Err(IvfError::UnsupportedVersion(version));
        }
        let num_docs: u32 = table::field(bytes, 1);
        let num_clusters: u32 = table::field(bytes, 2);
        let dim: u32 = table::field(bytes, 3);
        let block_size: u32 = table::field(bytes, 4);
        let ghost gn = num_docs as int;
        let ghost gk = num_clusters as int;
        let ghost gd = dim as int;
        proof {
            assert(0 <= gk * gd <= 0xffff_ffff * 0xffff_ffff) by (nonlinear_arith)
                requires
                    0 <= gk <= 0xffff_ffff,
                    0 <= gd <= 0xffff_ffff,
            ;
        }
        let cells: u128 = num_clusters as u128 * dim as u128;
        let wide_k: u128 = num_clusters as u128;
        let wide_assign: u128 = HEADER_LEN as u128 + cells * 2;
        let wide_df: u128 = wide_assign + num_docs as u128 * 4;
        let wide_region: u128 = (wide_df + wide_k * 4 + 7) / 8 * 8;
        let wide_rows: u128 = wide_region + (wide_k + 1) * 8;
        let wide_max: u128 = wide_rows + (wide_k + 1) * 4;
        let wide_min: u128 = wide_max + wide_k * 4;
        let wide_blocks: u128 = wide_min + wide_k * 4;
        assert(wide_blocks == blocks_at(gk, gd, gn));
        if (size as u128) < wide_blocks + 4 {
            return Err(IvfError::TruncatedBeforeBlocks);
        }
        let k: usize = num_clusters as usize;
        let n: usize = num_docs as usize;
        let at: usize = wide_blocks as usize;
        let rows_off: usize = wide_rows as usize;
        let blocks: u64 = codec::read_le(bytes, rows_off + k * 4, 4);
        proof {
            lemma2_to64();
        }
        if (size as u128) < wide_blocks + 16 * (blocks as u128) {
            return Err(IvfError::Truncated);
        }
        let nb: usize = blocks as usize;
        let centroids = table::read_u16(bytes, HEADER_LEN, cells as usize);
        let assignment = table::read_u32(bytes, wide_assign as usize, n);
        let cluster_df = table::read_u32(bytes, wide_df as usize, k);
        let regions = table::read_u64(bytes, wide_region as usize, k + 1);
        let block_rows = table::read_u32(bytes, rows_off, k + 1);
        assert(table::nats_u32(block_rows@)[k as int] == block_rows@[k as int]);
        let max_tfs = table::read_u32(bytes, wide_max as usize, k);
        let min_lens = table::read_u32(bytes, wide_min as usize, k);
        let block_max_docs = table::read_u32(bytes, at, nb);
        let block_max_tfs = table::read_u32(bytes, at + 4 * nb, nb);
        let block_min_lens = table::read_u32(bytes, at + 8 * nb, nb);
        let block_offsets = table::read_u32(bytes, at + 12 * nb, nb);
        let mut packed: Vec<u8> = Vec::new();
        codec::append(&mut packed, slice_subrange(bytes, at + 16 * nb, size));
        assert(packed@ =~= bytes@.skip(at + 16 * nb));
        Ok(
            IvfIndex {
                num_docs,
                num_clusters,
                dim,
                block_size,
                size,
                centroids,
                assignment,
                cluster_df,
                regions,
                block_rows,
                max_tfs,
                min_lens,
                block_max_docs,
                block_max_tfs,
                block_min_lens,
                block_offsets,
                packed,
            },
        )
    }
}

// ---------------------------------------------------------------------------
// Reading
// ---------------------------------------------------------------------------

/// The documents of a packed block.
pub open spec fn block_docs(bb: Seq<u8>) -> Seq<u32> {
    Seq::new(compress::block_count(bb), |i: int| compress::block_doc(bb, i as nat) as u32)
}

impl IvfIndex {
    /// The packed documents of cluster `c`.
    pub open spec fn region(&self, c: int) -> Seq<u8> {
        self.packed@.subrange(self.regions@[c] as int, self.regions@[c + 1] as int)
    }

    /// Block `row` of cluster `c`, and what follows it.
    pub open spec fn block(&self, c: int, row: int) -> Seq<u8> {
        self.region(c).skip(self.block_offsets@[row] as int)
    }

    /// The documents in the blocks of cluster `c` before `row`.
    pub open spec fn docs_before(&self, c: int, row: int) -> Seq<u32>
        decreases row - self.block_rows@[c],
    {
        if row <= self.block_rows@[c] {
            Seq::empty()
        } else {
            self.docs_before(c, row - 1) + block_docs(self.block(c, row - 1))
        }
    }

    /// The documents of cluster `c`: none if there is no such cluster.
    pub open spec fn cluster_docs(&self, c: int) -> Seq<u32> {
        if 0 <= c < self.num_clusters && self.cluster_df@[c] > 0 {
            self.docs_before(c, self.block_rows@[c + 1] as int)
        } else {
            Seq::empty()
        }
    }

    /// Document `d` is on the list of one of the clusters.
    pub open spec fn lists(&self, clusters: Seq<u32>, d: u32) -> bool {
        exists|i: int|
            0 <= i < clusters.len() && self.cluster_docs((#[trigger] clusters[i]) as int).contains(d)
    }

    /// `out` is the union of the lists of the clusters, ascending and without
    /// repetition.
    pub open spec fn gathers(&self, clusters: Seq<u32>, out: Seq<u32>) -> bool {
        &&& ascending(out)
        &&& forall|d: u32| #[trigger] out.contains(d) <==> self.lists(clusters, d)
    }

    /// The lists and the assignment say the same.
    pub open spec fn faithful(&self) -> bool {
        forall|c: int, d: u32|
            c >= 0 ==> (#[trigger] self.cluster_docs(c).contains(d) <==> d < self.num_docs
                && self.assignment@[d as int] == c)
    }

    /// The documents of several clusters, one cluster after the other.
    spec fn docs_of(&self, clusters: Seq<u32>) -> Seq<u32>
        decreases clusters.len(),
    {
        if clusters.len() == 0 {
            Seq::empty()
        } else {
            self.docs_of(clusters.drop_last()) + self.cluster_docs(clusters.last() as int)
        }
    }

    /// The tables have one entry per document, cluster and block.
    pub open spec fn wf(&self) -> bool {
        let k = self.num_clusters as int;
        &&& self.assignment@.len() == self.num_docs
        &&& self.cluster_df@.len() == k
        &&& self.regions@.len() == k + 1
        &&& self.block_rows@.len() == k + 1
        &&& self.block_offsets@.len() == self.block_rows@[k]
        &&& self.centroids@.len() == k * self.dim
    }

    /// The blocks of cluster `c` can be read.
    pub open spec fn cluster_readable(&self, c: int) -> bool {
        let from = self.regions@[c];
        let to = self.regions@[c + 1];
        &&& from <= to <= self.packed@.len()
        &&& self.block_rows@[c] <= self.block_rows@[c + 1] <= self.block_offsets@.len()
        &&& forall|row: int|
            self.block_rows@[c] <= row < self.block_rows@[c + 1] ==> {
                &&& #[trigger] self.block_offsets@[row] <= to - from
                &&& compress::docs_readable(self.block(c, row))
            }
    }

    /// The tables agree with each other and with the packed documents.
    pub open spec fn consistent(&self) -> bool {
        &&& self.wf()
        &&& forall|c: int|
            0 <= c < self.num_clusters && #[trigger] self.cluster_df@[c] > 0
                ==> self.cluster_readable(c)
    }

    /// Do the tables agree with each other and with the packed documents?
    pub fn is_consistent(&self) -> (r: bool)
        requires
            self.wf(),
        ensures
            r == self.consistent(),
    {
        let k: usize = self.num_clusters as usize;
        let total: usize = self.packed.len();
        let mut c: usize = 0;
        while c < k
            invariant
                self.wf(),
                c <= k == self.num_clusters,
                total == self.packed@.len(),
                forall|j: int|
                    0 <= j < c && #[trigger] self.cluster_df@[j] > 0 ==> self.cluster_readable(j),
            decreases k - c,
        {
            if self.cluster_df[c] > 0 && !self.check_cluster(c) {
                assert(self.cluster_df@[c as int] > 0);
                return false;
            }
            c += 1;
        }
        true
    }

    fn check_cluster(&self, c: usize) -> (r: bool)
        requires
            self.wf(),
            c < self.num_clusters,
        ensures
            r == self.cluster_readable(c as int),
    {
        let from: u64 = self.regions[c];
        let to: u64 = self.regions[c + 1];
        if from > to || to > self.packed.len() as u64 {
            return false;
        }
        let first: u32 = self.block_rows[c];
        let last: u32 = self.block_rows[c + 1];
        if first > last || last as usize > self.block_offsets.len() {
            return false;
        }
        let bytes: &[u8] = slice_subrange(self.packed.as_slice(), from as usize, to as usize);
        let len: usize = bytes.len();
        let mut row: usize = first as usize;
        while row < last as usize
            invariant
                self.wf(),
                c < self.num_clusters,
                from == self.regions@[c as int],
                to == self.regions@[c + 1],
                from <= to <= self.packed@.len(),
                first == self.block_rows@[c as int],
                last == self.block_rows@[c + 1],
                first <= row <= last <= self.block_offsets@.len(),
                bytes@ == self.region(c as int),
                len == bytes@.len(),
                forall|j: int|
                    first <= j < row ==> {
                        &&& #[trigger] self.block_offsets@[j] <= to - from
                        &&& compress::docs_readable(self.block(c as int, j))
                    },
            decreases last - row,
        {
            let at: u32 = self.block_offsets[row];
            if at as u64 > to - from {
                assert(!(self.block_offsets@[row as int] <= to - from));
                return false;
            }
            let own: &[u8] = slice_subrange(bytes, at as usize, len);
            assert(own@ =~= self.block(c as int, row as int));
            if !compress::check_docs(own) {
                assert(self.block_offsets@[row as int] == at);
                return false;
            }
            row += 1;
        }
        true
    }

    pub fn num_clusters(&self) -> (n: u32)
        ensures
            n == self.num_clusters,
    {
        self.num_clusters
    }

    pub fn num_docs(&self) -> (n: u32)
        ensures
            n == self.num_docs,
    {
        self.num_docs
    }

    pub fn size_bytes(&self) -> (n: u64)
        ensures
            n == self.size,
    {
        self.size as u64
    }

    /// The cluster of a document: 0 if there is no such document.
    pub fn cluster_of(&self, doc_id: u32) -> (c: u32)
        requires
            self.wf(),
        ensures
            c == if doc_id < self.num_docs {
                self.assignment@[doc_id as int]
            } else {
                0
            },
    {
        if doc_id >= self.num_docs {
            return 0;
        }
        self.assignment[doc_id as usize]
    }

    /// How many clusters to open if the query does not say: a quarter of
    /// them, from 1 to 8.
    pub open spec fn auto_nprobe_spec(&self) -> int {
        let k = self.num_clusters as int;
        let quarter = k / 4;
        let held = if quarter < 1 {
            1
        } else if quarter > 8 {
            8
        } else {
            quarter
        };
        if held < k {
            held
        } else {
            k
        }
    }

    /// How many clusters to open if the query does not say.
    pub fn auto_nprobe(&self) -> (n: usize)
        ensures
            n == self.auto_nprobe_spec(),
    {
        let k: usize = self.num_clusters as usize;
        let quarter: usize = k / 4;
        let held: usize = if quarter < 1 {
            1
        } else if quarter > 8 {
            8
        } else {
            quarter
        };
        if held < k {
            held
        } else {
            k
        }
    }

    /// `nprobe` within the number of clusters.
    pub open spec fn opened(&self, nprobe: int) -> int {
        if nprobe < 1 {
            1
        } else if nprobe > self.num_clusters {
            self.num_clusters as int
        } else {
            nprobe
        }
    }

    /// The nearest clusters, by the keys of the similarity of each centroid
    /// to the query: best first, equals by id.
    pub fn nearest_clusters(&self, keys: &[u32], nprobe: usize) -> (r: Vec<u32>)
        requires
            self.num_clusters >= 1,
            keys@.len() == self.num_clusters,
        ensures
            nearest(keys@, self.opened(nprobe as int), r@),
    {
        let k: usize = self.num_clusters as usize;
        let take: usize = if nprobe < 1 {
            1
        } else if nprobe > k {
            k
        } else {
            nprobe
        };
        let order = order::best_first(keys);
        let mut r: Vec<u32> = Vec::new();
        let mut i: usize = 0;
        while i < take
            invariant
                i <= take <= k == keys@.len(),
                k <= u32::MAX,
                order@.len() == k,
                order::sorted_indices(order@, k as int, order::best_less(keys@)),
                r@.len() == i,
                forall|j: int| 0 <= j < i ==> #[trigger] r@[j] == order@[j],
            decreases take - i,
        {
            assert(order@[i as int] < k);
            r.push(order[i] as u32);
            i += 1;
        }
        assert(listed(order@, r@));
        r
    }

    /// The documents of `clusters`: their union, sorted, each once.
    pub fn docs_in_clusters(&self, clusters: &[u32]) -> (out: Vec<u32>)
        requires
            self.consistent(),
        ensures
            self.gathers(clusters@, out@),
            self.faithful() ==> forall|d: u32| #[trigger]
                out@.contains(d) <==> d < self.num_docs && clusters@.contains(
                    self.assignment@[d as int],
                ),
    {
        let all = self.concatenated(clusters);
        let out = sorted_once(&all);
        proof {
            assert forall|d: u32| #[trigger] out@.contains(d) <==> self.lists(clusters@, d) by {
                lemma_docs_of(self, clusters@, d);
            }
            if self.faithful() {
                assert forall|d: u32| #[trigger] out@.contains(d) <==> d < self.num_docs
                    && clusters@.contains(self.assignment@[d as int]) by {
                    if self.lists(clusters@, d) {
                        let i = choose|i: int|
                            0 <= i < clusters@.len() && self.cluster_docs(
                                (#[trigger] clusters@[i]) as int,
                            ).contains(d);
                        assert(clusters@[i] == self.assignment@[d as int]);
                    }
                    if d < self.num_docs && clusters@.contains(self.assignment@[d as int]) {
                        let i = choose|i: int|
                            0 <= i < clusters@.len() && clusters@[i] == self.assignment@[d as int];
                        assert(self.cluster_docs(clusters@[i] as int).contains(d));
                    }
                }
            }
        }
        out
    }

    fn concatenated(&self, clusters: &[u32]) -> (out: Vec<u32>)
        requires
            self.consistent(),
        ensures
            out@ == self.docs_of(clusters@),
    {
        let k: usize = self.num_clusters as usize;
        let mut out: Vec<u32> = Vec::new();
        let mut tmp: Vec<u32> = Vec::new();
        let mut i: usize = 0;
        assert(clusters@.take(0) =~= Seq::<u32>::empty());
        while i < clusters.len()
            invariant
                self.consistent(),
                k == self.num_clusters,
                i <= clusters@.len(),
                out@ == self.docs_of(clusters@.take(i as int)),
            decreases clusters@.len() - i,
        {
            let ghost before = out@;
            let c: usize = clusters[i] as usize;
            proof {
                let more = clusters@.take(i + 1);
                assert(more.drop_last() =~= clusters@.take(i as int));
                assert(more.last() == c);
            }
            if c >= k || self.cluster_df[c] == 0 {
                assert(out@ =~= before + self.cluster_docs(c as int));
                i += 1;
                continue;
            }
            assert(self.cluster_readable(c as int));
            let total: usize = self.packed.len();
            let from: usize = self.regions[c] as usize;
            let to: usize = self.regions[c + 1] as usize;
            let first: usize = self.block_rows[c] as usize;
            let last: usize = self.block_rows[c + 1] as usize;
            let bytes: &[u8] = slice_subrange(self.packed.as_slice(), from, to);
            let len: usize = bytes.len();
            let mut row: usize = first;
            assert(out@ =~= before + self.docs_before(c as int, row as int));
            while row < last
                invariant
                    self.cluster_readable(c as int),
                    bytes@ == self.region(c as int),
                    len == bytes@.len(),
                    len == self.regions@[c + 1] - self.regions@[c as int],
                    first == self.block_rows@[c as int],
                    last == self.block_rows@[c + 1],
                    first <= row <= last <= self.block_offsets@.len(),
                    out@ == before + self.docs_before(c as int, row as int),
                decreases last - row,
            {
                let at: usize = self.block_offsets[row] as usize;
                let own: &[u8] = slice_subrange(bytes, at, len);
                assert(own@ =~= self.block(c as int, row as int));
                compress::decode_block_docs(own, &mut tmp);
                assert(tmp@ =~= block_docs(own@));
                external::extend(&mut out, &tmp);
                row += 1;
                assert(out@ =~= before + self.docs_before(c as int, row as int));
            }
            i += 1;
        }
        assert(clusters@.take(i as int) =~= clusters@);
        out
    }

    /// The documents of the nearest clusters. With `nprobe` zero the index
    /// chooses how many clusters to open.
    pub fn probe(&self, keys: &[u32], nprobe: usize) -> (out: Vec<u32>)
        requires
            self.consistent(),
            self.num_clusters >= 1,
            keys@.len() == self.num_clusters,
        ensures
            exists|clusters: Seq<u32>|
                #![trigger self.gathers(clusters, out@)]
                nearest(
                    keys@,
                    self.opened(
                        if nprobe == 0 {
                            self.auto_nprobe_spec()
                        } else {
                            nprobe as int
                        },
                    ),
                    clusters,
                ) && self.gathers(clusters, out@),
    {
        let wanted: usize = if nprobe == 0 { self.auto_nprobe() } else { nprobe };
        let clusters = self.nearest_clusters(keys, wanted);
        self.docs_in_clusters(clusters.as_slice())
    }
}

/// Smaller ids first, and none twice.
pub open spec fn ascending(ids: Seq<u32>) -> bool {
    forall|i: int, j: int| 0 <= i < j < ids.len() ==> #[trigger] ids[i] < #[trigger] ids[j]
}

proof fn lemma_docs_of(x: &IvfIndex, clusters: Seq<u32>, d: u32)
    ensures
        x.docs_of(clusters).contains(d) <==> x.lists(clusters, d),
    decreases clusters.len(),
{
    if clusters.len() > 0 {
        let front = clusters.drop_last();
        let head = x.docs_of(front);
        let last = x.cluster_docs(clusters.last() as int);
        lemma_docs_of(x, front, d);
        let all = head + last;
        if all.contains(d) {
            let i = choose|i: int| 0 <= i < all.len() && all[i] == d;
            if i < head.len() {
                assert(head[i] == d);
                let j = choose|j: int|
                    0 <= j < front.len() && x.cluster_docs((#[trigger] front[j]) as int).contains(d);
                assert(clusters[j] == front[j]);
            } else {
                assert(last[i - head.len()] == d);
                assert(x.cluster_docs(clusters[clusters.len() - 1] as int).contains(d));
            }
        }
        if x.lists(clusters, d) {
            let j = choose|j: int|
                0 <= j < clusters.len() && x.cluster_docs((#[trigger] clusters[j]) as int).contains(
                    d,
                );
            if j < front.len() {
                assert(front[j] == clusters[j]);
                let i = choose|i: int| 0 <= i < head.len() && head[i] == d;
                assert(all[i] == d);
            } else {
                let i = choose|i: int| 0 <= i < last.len() && last[i] == d;
                assert(all[head.len() + i] == d);
            }
        }
    }
}

/// The ids of `all`, ascending, each once.
fn sorted_once(all: &Vec<u32>) -> (out: Vec<u32>)
    ensures
        ascending(out@),
        forall|d: u32| #[trigger] out@.contains(d) <==> all@.contains(d),
{
    let mut keys: Vec<u64> = Vec::new();
    let n: usize = all.len();
    let mut i: usize = 0;
    while i < n
        invariant
            i <= n == all@.len(),
            keys@.len() == i,
            forall|j: int| 0 <= j < i ==> #[trigger] keys@[j] == all@[j],
        decreases n - i,
    {
        keys.push(all[i] as u64);
        i += 1;
    }
    let order = order::order_by_key(keys.as_slice());
    let mut out: Vec<u32> = Vec::new();
    i = 0;
    while i < n
        invariant
            i <= n == all@.len(),
            keys@.len() == n,
            forall|j: int| 0 <= j < n ==> #[trigger] keys@[j] == all@[j],
            order::sorted_indices(order@, n as int, order::key_less(keys@)),
            order@.len() == n,
            ascending(out@),
            i == 0 ==> out@.len() == 0,
            i > 0 ==> out@.len() > 0 && out@.last() == all@[order@[i - 1] as int],
            forall|j: int| 0 <= j < out@.len() ==> all@.contains(#[trigger] out@[j]),
            forall|j: int| 0 <= j < i ==> out@.contains(all@[#[trigger] order@[j] as int]),
        decreases n - i,
    {
        assert(order@[i as int] < n);
        let d: u32 = all[order[i]];
        let size: usize = out.len();
        let ghost before = out@;
        proof {
            if i > 0 {
                assert(order@[i - 1] < n);
                assert(order::key_less(keys@)(order@[i - 1] as int, order@[i as int] as int));
                assert(keys@[order@[i - 1] as int] <= keys@[order@[i as int] as int]);
            }
        }
        if size == 0 || out[size - 1] != d {
            assert(all@.contains(d));
            out.push(d);
            proof {
                assert forall|j: int| 0 <= j < i + 1 implies out@.contains(
                    all@[#[trigger] order@[j] as int],
                ) by {
                    if j < i {
                        let v = all@[order@[j] as int];
                        let q = choose|q: int| 0 <= q < before.len() && before[q] == v;
                        assert(out@[q] == v);
                    } else {
                        assert(out@[before.len() as int] == d);
                    }
                }
                assert forall|a: int, b: int| 0 <= a < b < out@.len() implies #[trigger] out@[a]
                    < #[trigger] out@[b] by {
                    if b == before.len() {
                        assert(before.last() < d);
                        if a < before.len() - 1 {
                            assert(before[a] < before[before.len() - 1]);
                        }
                    }
                }
            }
        } else {
            assert(out@[size - 1] == d);
        }
        i += 1;
    }
    proof {
        assert forall|d: u32| all@.contains(d) implies #[trigger] out@.contains(d) by {
            let j = choose|j: int| 0 <= j < all@.len() && all@[j] == d;
            assert(order@.contains(j as usize));
            let q = choose|q: int| 0 <= q < order@.len() && order@[q] == j as usize;
            assert(out@.contains(all@[order@[q] as int]));
        }
    }
    out
}

/// Trained centroids: how many, their dimension, and the coordinates in
/// single precision.
pub struct Centroids {
    pub k: usize,
    pub dim: usize,
    pub values: Vec<u32>,
}

/// The centroids of an existing inverted file, if it is one.
pub fn read_centroids(bytes: &[u8]) -> (r: Option<Centroids>)
    ensures
        r is Some == refusal(bytes@) is None,
        r matches Some(c) ==> {
            let stored = table::entries(bytes@, HEADER_LEN as int, c.k * c.dim, 2);
            &&& c.k == codec::le_at(bytes@, 16, 4)
            &&& c.dim == codec::le_at(bytes@, 20, 4)
            &&& c.values@.len() == c.k * c.dim
            &&& forall|i: int|
                0 <= i < c.values@.len() ==> embeddings::widens(
                    stored[i],
                    (#[trigger] c.values@[i]) as nat,
                )
        },
{
    let index = match IvfIndex::open(bytes) {
        Ok(x) => x,
        Err(_) => {
            return None;
        },
    };
    let n: usize = index.centroids.len();
    let ghost stored = table::nats_u16(index.centroids@);
    let mut values: Vec<u32> = Vec::new();
    let mut i: usize = 0;
    while i < n
        invariant
            i <= n == index.centroids@.len(),
            stored == table::nats_u16(index.centroids@),
            values@.len() == i,
            forall|j: int|
                0 <= j < i ==> embeddings::widens(stored[j], (#[trigger] values@[j]) as nat),
        decreases n - i,
    {
        values.push(embeddings::f16_to_f32(index.centroids[i]));
        i += 1;
    }
    Some(Centroids { k: index.num_clusters as usize, dim: index.dim as usize, values })
}

/// `r` lists the first positions of `order`.
pub open spec fn listed(order: Seq<usize>, r: Seq<u32>) -> bool {
    &&& r.len() <= order.len()
    &&& forall|i: int| 0 <= i < r.len() ==> #[trigger] r[i] == order[i]
}

/// `r` are the `count` positions with the best keys, best first.
pub open spec fn nearest(keys: Seq<u32>, count: int, r: Seq<u32>) -> bool {
    &&& r.len() == count
    &&& exists|order: Seq<usize>| #[trigger]
        listed(order, r) && order::sorted_indices(
            order,
            keys.len() as int,
            order::best_less(keys),
        )
}

// ---------------------------------------------------------------------------
// Writing
// ---------------------------------------------------------------------------

/// Postings per block.
pub open spec fn per_block() -> int {
    postings::DEFAULT_BLOCK_SIZE as int
}

/// The first `upto` documents that belong to cluster `c`, as postings.
pub open spec fn cluster_list(assignment: Seq<u32>, c: int, upto: int) -> Seq<Posting>
    decreases upto,
{
    if upto <= 0 {
        Seq::empty()
    } else {
        let before = cluster_list(assignment, c, upto - 1);
        if assignment[upto - 1] == c {
            before.push(Posting { doc_id: (upto - 1) as u32, tf: 1 })
        } else {
            before
        }
    }
}

/// The documents that belong to cluster `c`.
pub open spec fn members(assignment: Seq<u32>, c: int) -> Seq<u32> {
    cluster_list(assignment, c, assignment.len() as int).map_values(|p: Posting| p.doc_id)
}

/// How many of the first `upto` documents belong to a cluster below `c`.
spec fn count_below(assignment: Seq<u32>, c: int, upto: int) -> int
    decreases upto,
{
    if upto <= 0 {
        0
    } else {
        count_below(assignment, c, upto - 1) + if assignment[upto - 1] < c {
            1int
        } else {
            0int
        }
    }
}

proof fn lemma_cluster_list(assignment: Seq<u32>, c: int, upto: int)
    requires
        0 <= upto <= assignment.len() <= u32::MAX,
    ensures
        external::packable(cluster_list(assignment, c, upto), upto),
        cluster_list(assignment, c, upto).len() <= upto,
        count_below(assignment, c + 1, upto) == count_below(assignment, c, upto) + cluster_list(
            assignment,
            c,
            upto,
        ).len(),
        0 <= count_below(assignment, c + 1, upto) <= upto,
    decreases upto,
{
    if upto > 0 {
        lemma_cluster_list(assignment, c, upto - 1);
        let before = cluster_list(assignment, c, upto - 1);
        let list = cluster_list(assignment, c, upto);
        assert forall|i: int, j: int| 0 <= i < j < list.len() implies (#[trigger] list[i]).doc_id < (
        #[trigger] list[j]).doc_id by {
            if j < before.len() {
                assert(before[i].doc_id < before[j].doc_id);
            } else {
                assert(before[i].doc_id < upto - 1);
            }
        }
        assert forall|i: int| 0 <= i < list.len() implies (#[trigger] list[i]).doc_id < upto by {
            if i < before.len() {
                assert(before[i].doc_id < upto - 1);
            }
        }
        assert forall|i: int| 0 <= i < list.len() implies (#[trigger] list[i]).tf >= 1 by {
            if i < before.len() {
                assert(before[i].tf >= 1);
            }
        }
    }
}

/// The terms are the clusters, packed.
pub open spec fn packed_clusters(
    terms: Seq<EncodedTerm>,
    assignment: Seq<u32>,
    lens: Seq<u32>,
    k: int,
) -> bool {
    &&& terms.len() == k
    &&& forall|c: int|
        0 <= c < k ==> external::packs(
            #[trigger] terms[c],
            cluster_list(assignment, c, assignment.len() as int),
            lens,
            per_block(),
        )
}

/// Zeros up to the next multiple of 8.
pub open spec fn padding(prefix: int) -> Seq<u8> {
    Seq::new((round8(prefix) - prefix) as nat, |i: int| 0u8)
}

/// What follows the padding.
pub open spec fn file_tail(t: external::TablesModel, packed: Seq<u8>) -> Seq<u8> {
    table::table(table::nats_u64(t.region_offsets), 8) + (table::table(
        table::nats_u32(t.block_rows),
        4,
    ) + (table::table(table::nats_u32(t.term_max_tfs), 4) + (table::table(
        table::nats_u32(t.term_min_lens),
        4,
    ) + (table::table(table::nats_u32(t.block_max_doc_ids), 4) + (table::table(
        table::nats_u32(t.block_max_tfs),
        4,
    ) + (table::table(table::nats_u32(t.block_min_lens), 4) + (table::table(
        table::nats_u32(t.block_byte_offsets),
        4,
    ) + packed)))))))
}

/// The inverted file of the clusters `terms`.
pub open spec fn ivf_file(
    dim: int,
    centroids: Seq<u32>,
    assignment: Seq<u32>,
    terms: Seq<EncodedTerm>,
) -> Seq<u8> {
    let t = external::tables_of(terms);
    let n = assignment.len();
    let k = terms.len();
    table::framed(
        MAGIC as nat,
        seq![VERSION as nat, n, k, dim as nat, per_block() as nat, 0nat],
        table::table(embeddings::stored_row(centroids), 2) + (table::table(
            table::nats_u32(assignment),
            4,
        ) + (table::table(table::nats_u32(t.term_dfs), 4) + (padding(
            df_at(k as int, dim, n as int) + k * 4,
        ) + file_tail(t, external::bytes_of(terms))))),
    )
}

proof fn lemma_clusters_fit(
    terms: Seq<EncodedTerm>,
    assignment: Seq<u32>,
    lens: Seq<u32>,
    k: int,
)
    requires
        packed_clusters(terms, assignment, lens, k),
        assignment.len() <= u32::MAX,
        k <= u32::MAX,
        forall|c: int|
            0 <= c < k ==> (#[trigger] external::whole_region(
                cluster_list(assignment, c, assignment.len() as int),
                per_block(),
            )).len() <= u32::MAX,
    ensures
        external::aligned_terms(terms),
        external::bytes_of(terms).len() <= k * u32::MAX,
        external::blocks_of(terms) <= count_below(assignment, k, assignment.len() as int),
        count_below(assignment, k, assignment.len() as int) <= assignment.len(),
    decreases terms.len(),
{
    let n = assignment.len() as int;
    assert forall|c: int| 0 <= c < terms.len() implies {
        let e = #[trigger] terms[c];
        &&& e.offsets@.len() == e.max_doc_ids@.len()
        &&& e.max_tfs@.len() == e.max_doc_ids@.len()
        &&& e.min_lens@.len() == e.max_doc_ids@.len()
    } by {
        assert(external::packs(terms[c], cluster_list(assignment, c, n), lens, per_block()));
    }
    if k > 0 {
        let front = terms.drop_last();
        assert(packed_clusters(front, assignment, lens, k - 1)) by {
            assert forall|c: int| 0 <= c < k - 1 implies external::packs(
                #[trigger] front[c],
                cluster_list(assignment, c, n),
                lens,
                per_block(),
            ) by {
                assert(front[c] == terms[c]);
            }
        }
        lemma_clusters_fit(front, assignment, lens, k - 1);
        lemma_cluster_list(assignment, k - 1, n);
        let list = cluster_list(assignment, k - 1, n);
        let e = terms[k - 1];
        assert(external::packs(e, list, lens, per_block()));
        assert(external::whole_region(list, per_block()).len() <= u32::MAX);
        assert(postings::block_total(list.len() as int, per_block()) <= list.len());
        assert((k - 1) * u32::MAX + u32::MAX == k * u32::MAX) by (nonlinear_arith);
    } else {
        lemma_count_zero(assignment, n);
    }
}

proof fn lemma_count_zero(assignment: Seq<u32>, upto: int)
    requires
        0 <= upto <= assignment.len(),
    ensures
        count_below(assignment, 0, upto) == 0,
    decreases upto,
{
    if upto > 0 {
        lemma_count_zero(assignment, upto - 1);
    }
}

/// The packed documents of the clusters stay addressable.
pub open spec fn clusters_fit(assignment: Seq<u32>, k: int) -> bool {
    forall|c: int|
        0 <= c < k ==> (#[trigger] external::whole_region(
            cluster_list(assignment, c, assignment.len() as int),
            per_block(),
        )).len() <= u32::MAX
}

/// The documents by cluster.
fn group(assignment: &[u32], k: usize) -> (lists: Vec<Vec<Posting>>)
    requires
        assignment@.len() <= u32::MAX,
        forall|i: int| 0 <= i < assignment@.len() ==> (#[trigger] assignment@[i]) < k,
    ensures
        lists@.len() == k,
        forall|c: int|
            0 <= c < k ==> (#[trigger] lists@[c])@ == cluster_list(
                assignment@,
                c,
                assignment@.len() as int,
            ),
{
    let mut lists: Vec<Vec<Posting>> = Vec::new();
    let mut c: usize = 0;
    while c < k
        invariant
            c <= k,
            lists@.len() == c,
            forall|j: int| 0 <= j < c ==> (#[trigger] lists@[j])@ == Seq::<Posting>::empty(),
        decreases k - c,
    {
        lists.push(Vec::new());
        c += 1;
    }
    let n: usize = assignment.len();
    let mut i: usize = 0;
    while i < n
        invariant
            i <= n == assignment@.len() <= u32::MAX,
            lists@.len() == k,
            forall|j: int| 0 <= j < n ==> (#[trigger] assignment@[j]) < k,
            forall|j: int|
                0 <= j < k ==> (#[trigger] lists@[j])@ == cluster_list(assignment@, j, i as int),
        decreases n - i,
    {
        let own: usize = assignment[i] as usize;
        let ghost before = lists@;
        assert(assignment@[i as int] < k);
        lists[own].push(Posting { doc_id: i as u32, tf: 1 });
        proof {
            assert forall|j: int| 0 <= j < k implies (#[trigger] lists@[j])@ == cluster_list(
                assignment@,
                j,
                i + 1,
            ) by {
                assert(before[j]@ == cluster_list(assignment@, j, i as int));
            }
        }
        i += 1;
    }
    lists
}

/// The inverted file of clusters that were computed elsewhere: by training,
/// or by [`assign_one`] against trained centroids.
pub fn write_with_centroids(
    doc_lens: &[u32],
    centroids: &[u32],
    assignment: &[u32],
    n: usize,
    dim: usize,
    k: usize,
) -> (r: Result<Vec<u8>, IvfError>)
    requires
        n <= u32::MAX,
        dim <= u32::MAX,
        k <= u32::MAX,
        forall|i: int| 0 <= i < assignment@.len() ==> (#[trigger] assignment@[i]) < k,
    ensures
        match r {
            Ok(b) => {
                &&& n > 0
                &&& doc_lens@.len() == n
                &&& assignment@.len() == n
                &&& centroids@.len() == k * dim
                &&& exists|terms: Seq<EncodedTerm>| #[trigger]
                    packed_clusters(terms, assignment@, doc_lens@, k as int) && b@ == ivf_file(
                        dim as int,
                        centroids@,
                        assignment@,
                        terms,
                    )
            },
            Err(IvfError::NoDocuments) => n == 0,
            Err(IvfError::LengthsMismatch) => n > 0 && doc_lens@.len() != n,
            Err(IvfError::AssignmentMismatch) => n > 0 && doc_lens@.len() == n
                && assignment@.len() != n,
            Err(IvfError::CentroidsMismatch) => n > 0 && doc_lens@.len() == n && assignment@.len()
                == n && centroids@.len() != k * dim,
            Err(_) => false,
        },
{
    if n == 0 {
        return Err(IvfError::NoDocuments);
    }
    if doc_lens.len() != n {
        return Err(IvfError::LengthsMismatch);
    }
    if assignment.len() != n {
        return Err(IvfError::AssignmentMismatch);
    }
    proof {
        assert(0 <= k * dim <= 0xffff_ffff * 0xffff_ffff) by (nonlinear_arith)
            requires
                0 <= k <= 0xffff_ffff,
                0 <= dim <= 0xffff_ffff,
        ;
    }
    proof {
        law_clusters_fit(assignment@, k as int);
    }
    let cells: usize = centroids.len();
    if cells as u128 != k as u128 * dim as u128 {
        return Err(IvfError::CentroidsMismatch);
    }
    let lists = group(assignment, k);
    let mut tables = TermTables::new();
    let mut packed: Vec<u8> = Vec::new();
    let ghost mut terms: Seq<EncodedTerm> = Seq::empty();
    let mut c: usize = 0;
    while c < k
        invariant
            c <= k <= u32::MAX,
            n == assignment@.len() == doc_lens@.len(),
            n <= u32::MAX,
            lists@.len() == k,
            forall|j: int|
                0 <= j < k ==> (#[trigger] lists@[j])@ == cluster_list(assignment@, j, n as int),
            clusters_fit(assignment@, k as int),
            packed_clusters(terms, assignment@, doc_lens@, c as int),
            tables.wf(),
            tables@ == external::tables_of(terms),
            tables.num_postings <= c * u32::MAX,
            packed@ == external::bytes_of(terms),
        decreases k - c,
    {
        proof {
            assert(lists@[c as int]@ == cluster_list(assignment@, c as int, n as int));
            lemma_cluster_list(assignment@, c as int, n as int);
            assert(external::whole_region(
                cluster_list(assignment@, c as int, n as int),
                per_block(),
            ).len() <= u32::MAX);
        }
        let e = external::encode_term(lists[c].as_slice(), doc_lens, postings::DEFAULT_BLOCK_SIZE);
        proof {
            let more = terms.push(e);
            assert(more.drop_last() =~= terms);
            assert forall|j: int| 0 <= j < c + 1 implies external::packs(
                #[trigger] more[j],
                cluster_list(assignment@, j, n as int),
                doc_lens@,
                per_block(),
            ) by {
                if j < c {
                    assert(more[j] == terms[j]);
                }
            }
            lemma_clusters_fit(terms, assignment@, doc_lens@, c as int);
            lemma_clusters_fit(more, assignment@, doc_lens@, c + 1);
            assert((c + 1) * u32::MAX <= u64::MAX) by (nonlinear_arith)
                requires
                    c + 1 <= u32::MAX,
            ;
            assert((c + 1) * u32::MAX == c * u32::MAX + u32::MAX) by (nonlinear_arith);
            external::lemma_tables(terms);
        }
        tables.push_term(&e);
        codec::append(&mut packed, e.bytes.as_slice());
        proof {
            terms = terms.push(e);
            assert(packed@ =~= external::bytes_of(terms));
        }
        c += 1;
    }
    proof {
        lemma_clusters_fit(terms, assignment@, doc_lens@, k as int);
        assert(k * u32::MAX <= u64::MAX) by (nonlinear_arith)
            requires
                k <= u32::MAX,
        ;
        external::lemma_tables(terms);
    }
    let mut out: Vec<u8> = new_head(centroids, assignment, &tables, dim, k);
    let ghost head = out@;
    push_tail(&mut out, &tables, packed.as_slice());
    proof {
        let t = external::tables_of(terms);
        let tail = file_tail(t, external::bytes_of(terms));
        lemma_head(dim as int, centroids@, assignment@, terms, tail);
        assert(out@ == ivf_file(dim as int, centroids@, assignment@, terms));
        assert(packed_clusters(terms, assignment@, doc_lens@, k as int));
    }
    Ok(out)
}

/// The file up to and with the padding.
spec fn file_head(
    dim: int,
    k: int,
    centroids: Seq<u32>,
    assignment: Seq<u32>,
    dfs: Seq<u32>,
) -> Seq<u8> {
    let n = assignment.len();
    table::framed(
        MAGIC as nat,
        seq![VERSION as nat, n, k as nat, dim as nat, per_block() as nat, 0nat],
        Seq::empty(),
    ) + table::table(embeddings::stored_row(centroids), 2) + table::table(
        table::nats_u32(assignment),
        4,
    ) + table::table(table::nats_u32(dfs), 4) + padding(df_at(k, dim, n as int) + k * 4)
}

proof fn lemma_head(
    dim: int,
    centroids: Seq<u32>,
    assignment: Seq<u32>,
    terms: Seq<EncodedTerm>,
    tail: Seq<u8>,
)
    requires
        tail == file_tail(external::tables_of(terms), external::bytes_of(terms)),
    ensures
        file_head(
            dim,
            terms.len() as int,
            centroids,
            assignment,
            external::tables_of(terms).term_dfs,
        ) + tail == ivf_file(dim, centroids, assignment, terms),
{
    let t = external::tables_of(terms);
    let n = assignment.len();
    let k = terms.len();
    let fields = seq![VERSION as nat, n, k, dim as nat, per_block() as nat, 0nat];
    let lead = codec::le_bytes(MAGIC as nat, 8) + table::table(fields, 4);
    let a = table::table(embeddings::stored_row(centroids), 2);
    let b = table::table(table::nats_u32(assignment), 4);
    let c = table::table(table::nats_u32(t.term_dfs), 4);
    let d = padding(df_at(k as int, dim, n as int) + k * 4);
    assert(lead + Seq::<u8>::empty() =~= lead);
    assert(lead + a + b + c + d + tail =~= lead + a + b + c + (d + tail));
    assert(lead + a + b + c + (d + tail) =~= lead + a + b + (c + (d + tail)));
    assert(lead + a + b + (c + (d + tail)) =~= lead + a + (b + (c + (d + tail))));
    assert(lead + a + (b + (c + (d + tail))) =~= lead + (a + (b + (c + (d + tail)))));
}

/// The file up to and with the padding.
fn new_head(
    centroids: &[u32],
    assignment: &[u32],
    tables: &TermTables,
    dim: usize,
    k: usize,
) -> (out: Vec<u8>)
    requires
        dim <= u32::MAX,
        k <= u32::MAX,
        assignment@.len() <= u32::MAX,
        centroids@.len() == k * dim,
        tables.term_dfs@.len() == k,
    ensures
        out@ == file_head(
            dim as int,
            k as int,
            centroids@,
            assignment@,
            tables.term_dfs@,
        ),
{
    let n: usize = assignment.len();
    let fields: [u32; 6] = [VERSION, n as u32, k as u32, dim as u32, 128, 0];
    let mut out: Vec<u8> = table::new_frame(MAGIC, fields.as_slice());
    let lanes = embeddings::to_halves(centroids);
    table::push_u16(&mut out, lanes.as_slice());
    table::push_u32(&mut out, assignment);
    table::push_u32(&mut out, tables.term_dfs.as_slice());
    let ghost lead = out@;
    proof {
        table::lemma_table_len(embeddings::stored_row(centroids@), 2);
        table::lemma_table_len(table::nats_u32(assignment@), 4);
        table::lemma_table_len(table::nats_u32(tables.term_dfs@), 4);
        table::lemma_table_len(table::nats_u32(fields@), 4);
        assert(out@.len() == df_at(k as int, dim as int, n as int) + k * 4);
        assert(table::nats_u32(fields@) =~= seq![
            VERSION as nat,
            n as nat,
            k as nat,
            dim as nat,
            per_block() as nat,
            0nat,
        ]);
    }
    let prefix: usize = out.len();
    let gap: usize = (8 - prefix % 8) % 8;
    let mut z: usize = 0;
    assert(out@ =~= lead + Seq::new(0, |i: int| 0u8));
    while z < gap
        invariant
            z <= gap,
            out@ == lead + Seq::new(z as nat, |i: int| 0u8),
        decreases gap - z,
    {
        out.push(0);
        z += 1;
        assert(out@ =~= lead + Seq::new(z as nat, |i: int| 0u8));
    }
    assert(Seq::new(gap as nat, |i: int| 0u8) =~= padding(
        df_at(k as int, dim as int, n as int) + k * 4,
    ));
    out
}

/// Append what follows the padding.
fn push_tail(out: &mut Vec<u8>, t: &TermTables, packed: &[u8])
    ensures
        final(out)@ == old(out)@ + file_tail(t@, packed@),
{
    let ghost start = out@;
    table::push_u64(out, t.region_offsets.as_slice());
    let ghost x1 = out@;
    table::push_u32(out, t.block_rows.as_slice());
    let ghost x2 = out@;
    table::push_u32(out, t.term_max_tfs.as_slice());
    let ghost x3 = out@;
    table::push_u32(out, t.term_min_lens.as_slice());
    let ghost x4 = out@;
    table::push_u32(out, t.block_max_doc_ids.as_slice());
    let ghost x5 = out@;
    table::push_u32(out, t.block_max_tfs.as_slice());
    let ghost x6 = out@;
    table::push_u32(out, t.block_min_lens.as_slice());
    let ghost x7 = out@;
    table::push_u32(out, t.block_byte_offsets.as_slice());
    codec::append(out, packed);
    proof {
        let y8 = table::table(table::nats_u32(t@.block_byte_offsets), 4) + packed@;
        let y7 = table::table(table::nats_u32(t@.block_min_lens), 4) + y8;
        let y6 = table::table(table::nats_u32(t@.block_max_tfs), 4) + y7;
        let y5 = table::table(table::nats_u32(t@.block_max_doc_ids), 4) + y6;
        let y4 = table::table(table::nats_u32(t@.term_min_lens), 4) + y5;
        let y3 = table::table(table::nats_u32(t@.term_max_tfs), 4) + y4;
        let y2 = table::table(table::nats_u32(t@.block_rows), 4) + y3;
        assert(out@ =~= x7 + y8);
        assert(x7 + y8 =~= x6 + y7);
        assert(x6 + y7 =~= x5 + y6);
        assert(x5 + y6 =~= x4 + y5);
        assert(x4 + y5 =~= x3 + y4);
        assert(x3 + y4 =~= x2 + y3);
        assert(x2 + y3 =~= x1 + y2);
        assert(x1 + y2 =~= start + file_tail(t@, packed@));
    }
}

/// The packed clusters stay addressable, however many documents there are.
pub proof fn law_clusters_fit(assignment: Seq<u32>, k: int)
    requires
        assignment.len() <= u32::MAX,
    ensures
        clusters_fit(assignment, k),
{
    let n = assignment.len() as int;
    assert forall|c: int| 0 <= c < k implies (#[trigger] external::whole_region(
        cluster_list(assignment, c, n),
        per_block(),
    )).len() <= u32::MAX by {
        let list = cluster_list(assignment, c, n);
        lemma_cluster_list(assignment, c, n);
        lemma_cluster_once(assignment, c, n);
        let total = postings::block_total(list.len() as int, per_block());
        if total > 0 {
            lemma_region_bound(list, n, total - 1);
            external::lemma_block_encodable(list, n, per_block(), total - 1);
            postings::lemma_block_range(total - 1, per_block(), list.len() as int);
            compress::lemma_encoded_len(external::block_of(list, per_block(), total - 1));
        }
    }
}

/// A cluster holds each of its documents once.
proof fn lemma_cluster_once(assignment: Seq<u32>, c: int, upto: int)
    requires
        0 <= upto <= assignment.len(),
    ensures
        forall|i: int|
            0 <= i < cluster_list(assignment, c, upto).len() ==> (#[trigger] cluster_list(
                assignment,
                c,
                upto,
            )[i]).tf == 1,
    decreases upto,
{
    if upto > 0 {
        lemma_cluster_once(assignment, c, upto - 1);
        let list = cluster_list(assignment, c, upto);
        let before = cluster_list(assignment, c, upto - 1);
        assert forall|i: int| 0 <= i < list.len() implies (#[trigger] list[i]).tf == 1 by {
            if i < before.len() {
                assert(before[i].tf == 1);
            }
        }
    }
}

/// The blocks before block `b` take less room than the documents before it.
proof fn lemma_region_bound(list: Seq<Posting>, n: int, b: int)
    requires
        external::packable(list, n),
        forall|i: int| 0 <= i < list.len() ==> (#[trigger] list[i]).tf == 1,
        0 <= b < postings::block_total(list.len() as int, per_block()),
    ensures
        0 <= postings::block_lo(b, per_block()) < list.len(),
        8 * external::region(list, per_block(), b).len() <= 7 * list[postings::block_lo(
            b,
            per_block(),
        )].doc_id,
    decreases b,
{
    let len = list.len() as int;
    postings::lemma_block_range(b, per_block(), len);
    if b > 0 {
        lemma_region_bound(list, n, b - 1);
        external::lemma_block_encodable(list, n, per_block(), b - 1);
        postings::lemma_block_range(b - 1, per_block(), len);
        let p = external::block_of(list, per_block(), b - 1);
        let lo = postings::block_lo(b - 1, per_block());
        assert(postings::block_hi(b - 1, per_block(), len) == postings::block_lo(b, per_block()));
        assert(p.len() == 128);
        assert forall|i: int| 0 <= i < p.len() implies (#[trigger] p[i]).tf == 1 by {
            assert(list[lo + i].tf == 1);
        }
        compress::lemma_flat_len(p);
        assert(p[0] == list[lo] && p[127] == list[lo + 127]);
        assert(list[lo + 127].doc_id < list[lo + 128].doc_id);
    }
}

/// The documents in the first blocks of a packed cluster are the first of
/// its list.
#[verifier::spinoff_prover]
#[verifier::rlimit(30)]
proof fn lemma_docs_before(x: IvfIndex, c: int, b: int, e: EncodedTerm, list: Seq<Posting>, lens: Seq<u32>)
    requires
        external::packs(e, list, lens, per_block()),
        external::packable(list, lens.len() as int),
        lens.len() <= u32::MAX,
        0 <= c < x.num_clusters,
        x.wf(),
        x.block_rows@[c] <= x.block_rows@[c + 1] <= x.block_offsets@.len(),
        x.region(c) == e.bytes@,
        x.block_offsets@.subrange(x.block_rows@[c] as int, x.block_rows@[c + 1] as int)
            == e.offsets@,
        0 <= b <= e.offsets@.len(),
    ensures
        forall|row: int|
            x.block_rows@[c] <= row < x.block_rows@[c] + b ==> {
                &&& #[trigger] x.block_offsets@[row] <= e.bytes@.len()
                &&& compress::docs_readable(x.block(c, row))
            },
        x.docs_before(c, x.block_rows@[c] + b) == list.take(
            if b < e.offsets@.len() {
                postings::block_lo(b, per_block())
            } else {
                list.len() as int
            },
        ).map_values(|p: Posting| p.doc_id),
    decreases b,
{
    let first = x.block_rows@[c] as int;
    let total = postings::block_total(list.len() as int, per_block());
    let ids = |p: Posting| p.doc_id;
    if b == 0 {
        assert(0 * per_block() == 0);
        if list.len() > 0 {
            postings::lemma_block_of(0, per_block(), list.len() as int);
        }
        assert(list.take(0).map_values(ids) =~= Seq::<u32>::empty());
    } else {
        lemma_docs_before(x, c, b - 1, e, list, lens);
        external::lemma_block_encodable(list, lens.len() as int, per_block(), b - 1);
        external::lemma_block_bytes(list, per_block(), b - 1);
        postings::lemma_block_range(b - 1, per_block(), list.len() as int);
        let p = external::block_of(list, per_block(), b - 1);
        let whole = external::whole_region(list, per_block());
        let at = external::region(list, per_block(), b - 1).len() as int;
        let own = compress::encoded(p);
        compress::law_decode_inverts_encode(p, whole.skip(at + own.len() as int));
        assert(e.offsets@[b - 1] == at);
        assert(x.block_offsets@.subrange(first, x.block_rows@[c + 1] as int)[b - 1]
            == x.block_offsets@[first + b - 1]);
        let bb = x.block(c, first + b - 1);
        assert(bb == whole.skip(at));
        assert(block_docs(bb) =~= p.map_values(ids)) by {
            assert forall|i: int| 0 <= i < p.len() implies block_docs(bb)[i] == p[i].doc_id by {
                assert(compress::block_doc(bb, i as nat) == p[i].doc_id);
            }
        }
        let lo = postings::block_lo(b - 1, per_block());
        let hi = postings::block_hi(b - 1, per_block(), list.len() as int);
        assert(list.take(lo).map_values(ids) + p.map_values(ids) =~= list.take(hi).map_values(ids));
    }
}

/// Written clusters are never refused.
pub proof fn law_written_clusters_open(
    dim: u32,
    centroids: Seq<u32>,
    assignment: Seq<u32>,
    lens: Seq<u32>,
    terms: Seq<EncodedTerm>,
)
    requires
        0 < assignment.len() == lens.len() <= u32::MAX,
        forall|i: int| 0 <= i < assignment.len() ==> (#[trigger] assignment[i]) < terms.len(),
        terms.len() <= u32::MAX,
        centroids.len() == terms.len() * dim,
        packed_clusters(terms, assignment, lens, terms.len() as int),
    ensures
        refusal(ivf_file(dim as int, centroids, assignment, terms)) is None,
{
    lemma_some_block(assignment, lens, terms);
    lemma_written_tables(
        ivf_file(dim as int, centroids, assignment, terms),
        dim,
        centroids,
        assignment,
        lens,
        terms,
    );
}

/// A document is listed in its own cluster and in no other.
proof fn lemma_member(assignment: Seq<u32>, c: int, upto: int, d: u32)
    requires
        0 <= upto <= assignment.len() <= u32::MAX,
    ensures
        cluster_list(assignment, c, upto).map_values(|p: Posting| p.doc_id).contains(d) <==> d < upto
            && assignment[d as int] == c,
    decreases upto,
{
    let ids = |p: Posting| p.doc_id;
    let s = cluster_list(assignment, c, upto).map_values(ids);
    if upto > 0 {
        lemma_member(assignment, c, upto - 1, d);
        let t = cluster_list(assignment, c, upto - 1).map_values(ids);
        if assignment[upto - 1] == c {
            assert(s =~= t.push((upto - 1) as u32));
            assert(s[t.len() as int] == (upto - 1) as u32);
            if t.contains(d) {
                let i = choose|i: int| 0 <= i < t.len() && t[i] == d;
                assert(s[i] == d);
            }
            if s.contains(d) && d != upto - 1 {
                let i = choose|i: int| 0 <= i < s.len() && s[i] == d;
                assert(t[i] == d);
            }
        }
    }
}

proof fn lemma_faithful(x: IvfIndex)
    requires
        x.num_docs == x.assignment@.len(),
        forall|i: int|
            0 <= i < x.assignment@.len() ==> (#[trigger] x.assignment@[i]) < x.num_clusters,
        forall|c: int|
            0 <= c < x.num_clusters ==> #[trigger] x.cluster_docs(c) == members(x.assignment@, c),
    ensures
        x.faithful(),
{
    assert forall|c: int, d: u32| c >= 0 implies (#[trigger] x.cluster_docs(c).contains(d) <==> d
        < x.num_docs && x.assignment@[d as int] == c) by {
        if c < x.num_clusters {
            assert(x.cluster_docs(c) == members(x.assignment@, c));
            lemma_member(x.assignment@, c, x.assignment@.len() as int, d);
        }
    }
}

/// Ids are listed in ascending order in one way.
proof fn lemma_ascending_unique(a: Seq<u32>, b: Seq<u32>)
    requires
        ascending(a),
        ascending(b),
        forall|d: u32| #[trigger] a.contains(d) <==> b.contains(d),
    ensures
        a == b,
    decreases a.len(),
{
    if a.len() == 0 {
        if b.len() > 0 {
            assert(b.contains(b[0]));
            assert(a.contains(b[0]));
        }
        assert(a =~= b);
    } else {
        let (x, y) = (a[a.len() - 1], b[b.len() - 1]);
        assert(a.contains(x));
        assert(b.contains(x));
        let i = choose|i: int| 0 <= i < b.len() && b[i] == x;
        assert(b.contains(y));
        assert(a.contains(y));
        let j = choose|j: int| 0 <= j < a.len() && a[j] == y;
        assert(x == y) by {
            if i < b.len() - 1 {
                assert(b[i] < b[b.len() - 1]);
            }
            if j < a.len() - 1 {
                assert(a[j] < a[a.len() - 1]);
            }
        }
        let (c, e) = (a.drop_last(), b.drop_last());
        assert forall|d: u32| #[trigger] c.contains(d) <==> e.contains(d) by {
            if c.contains(d) {
                let i = choose|i: int| 0 <= i < c.len() && c[i] == d;
                assert(a[i] == d && a[i] < x);
                assert(a.contains(d));
                assert(b.contains(d));
                let j = choose|j: int| 0 <= j < b.len() && b[j] == d;
                assert(e[j] == d);
            }
            if e.contains(d) {
                let i = choose|i: int| 0 <= i < e.len() && e[i] == d;
                assert(b[i] == d && b[i] < y);
                assert(b.contains(d));
                assert(a.contains(d));
                let j = choose|j: int| 0 <= j < a.len() && a[j] == d;
                assert(c[j] == d);
            }
        }
        lemma_ascending_unique(c, e);
        assert(a =~= c.push(x));
        assert(b =~= e.push(y));
    }
}

/// Opening one cluster of a faithful file gives the documents that were
/// assigned to it, in ascending order, and nothing else.
pub proof fn law_one_cluster_is_its_documents(x: IvfIndex, c: u32, out: Seq<u32>)
    requires
        x.faithful(),
        x.num_docs == x.assignment@.len(),
        x.gathers(seq![c], out),
    ensures
        out == members(x.assignment@, c as int),
{
    let n = x.assignment@.len() as int;
    let list = cluster_list(x.assignment@, c as int, n);
    let all = members(x.assignment@, c as int);
    lemma_cluster_list(x.assignment@, c as int, n);
    assert forall|i: int, j: int| 0 <= i < j < all.len() implies #[trigger] all[i]
        < #[trigger] all[j] by {
        assert(list[i].doc_id < list[j].doc_id);
    }
    assert forall|d: u32| #[trigger] out.contains(d) <==> all.contains(d) by {
        lemma_member(x.assignment@, c as int, n, d);
        assert(x.cluster_docs(c as int).contains(d) <==> d < x.num_docs && x.assignment@[d as int]
            == c);
        assert(seq![c][0] == c);
        if x.lists(seq![c], d) {
            let i = choose|i: int|
                0 <= i < seq![c].len() && x.cluster_docs((#[trigger] seq![c][i]) as int).contains(d);
            assert(i == 0);
        }
    }
    lemma_ascending_unique(out, all);
}

/// Written clusters read back: the file opens, every document has the
/// cluster it was given, and opening a cluster gives its documents.
pub proof fn law_written_clusters_read_back(
    b: Seq<u8>,
    dim: u32,
    centroids: Seq<u32>,
    assignment: Seq<u32>,
    lens: Seq<u32>,
    terms: Seq<EncodedTerm>,
    x: IvfIndex,
)
    requires
        0 < assignment.len() == lens.len() <= u32::MAX,
        forall|i: int| 0 <= i < assignment.len() ==> (#[trigger] assignment[i]) < terms.len(),
        terms.len() <= u32::MAX,
        centroids.len() == terms.len() * dim,
        packed_clusters(terms, assignment, lens, terms.len() as int),
        b == ivf_file(dim as int, centroids, assignment, terms),
        says(b, x),
        x.wf(),
    ensures
        refusal(b) is None,
        x.num_docs == assignment.len(),
        x.num_clusters == terms.len(),
        x.dim == dim,
        x.assignment@ == assignment,
        table::nats_u16(x.centroids@) == embeddings::stored_row(centroids),
        x.consistent(),
        forall|c: int|
            0 <= c < x.num_clusters ==> #[trigger] x.cluster_docs(c) == members(assignment, c),
        x.faithful(),
{
    let n = assignment.len() as int;
    let k = terms.len() as int;
    let d = dim as int;
    lemma_some_block(assignment, lens, terms);
    lemma_written_tables(b, dim, centroids, assignment, lens, terms);
    let t = external::tables_of(terms);
    let blocks = external::blocks_of(terms) as int;
    lemma_same_u32(x.assignment@, assignment);
    lemma_same_u32(x.cluster_df@, t.term_dfs);
    lemma_same_u64(x.regions@, t.region_offsets);
    lemma_same_u32(x.block_rows@, t.block_rows);
    lemma_same_u32(x.block_offsets@, t.block_byte_offsets);
    law_clusters_fit(assignment, k);
    lemma_clusters_fit(terms, assignment, lens, k);
    assert(k * u32::MAX <= u64::MAX) by (nonlinear_arith)
        requires
            k <= u32::MAX,
    ;
    external::lemma_tables(terms);
    assert forall|c: int| 0 <= c < k implies x.cluster_readable(c) && #[trigger] x.cluster_docs(c)
        == members(assignment, c) by {
        let e = terms[c];
        let list = cluster_list(assignment, c, n);
        assert(external::packs(e, list, lens, per_block()));
        external::law_tables_locate_terms(terms, c);
        lemma_cluster_list(assignment, c, n);
        assert(x.region(c) == e.bytes@);
        lemma_docs_before(x, c, e.offsets@.len() as int, e, list, lens);
        assert(list.take(list.len() as int) =~= list);
        if e.df == 0 {
            assert(members(assignment, c) =~= Seq::<u32>::empty());
        }
    }
    assert forall|c: int|
        0 <= c < x.num_clusters && #[trigger] x.cluster_df@[c] > 0 implies x.cluster_readable(c) by {
        assert(x.cluster_docs(c) == members(assignment, c));
    }
    lemma_faithful(x);
}

proof fn lemma_same_u32(a: Seq<u32>, b: Seq<u32>)
    requires
        table::nats_u32(a) == table::nats_u32(b),
    ensures
        a == b,
{
    assert(a.len() == table::nats_u32(a).len());
    assert(b.len() == table::nats_u32(b).len());
    assert forall|i: int| 0 <= i < a.len() implies a[i] == b[i] by {
        assert(table::nats_u32(a)[i] == a[i]);
        assert(table::nats_u32(b)[i] == b[i]);
    }
    assert(a =~= b);
}

proof fn lemma_same_u64(a: Seq<u64>, b: Seq<u64>)
    requires
        table::nats_u64(a) == table::nats_u64(b),
    ensures
        a == b,
{
    assert(a.len() == table::nats_u64(a).len());
    assert(b.len() == table::nats_u64(b).len());
    assert forall|i: int| 0 <= i < a.len() implies a[i] == b[i] by {
        assert(table::nats_u64(a)[i] == a[i]);
        assert(table::nats_u64(b)[i] == b[i]);
    }
    assert(a =~= b);
}

/// If there are documents there are blocks.
proof fn lemma_some_block(assignment: Seq<u32>, lens: Seq<u32>, terms: Seq<EncodedTerm>)
    requires
        0 < assignment.len() <= u32::MAX,
        assignment[0] < terms.len(),
        packed_clusters(terms, assignment, lens, terms.len() as int),
    ensures
        external::blocks_of(terms) >= 1,
{
    let c = assignment[0] as int;
    let n = assignment.len() as int;
    let list = cluster_list(assignment, c, n);
    lemma_first_member(assignment, n);
    assert(external::packs(terms[c], list, lens, per_block()));
    postings::lemma_block_of(0, per_block(), list.len() as int);
    lemma_blocks_include(terms, c);
}

proof fn lemma_first_member(assignment: Seq<u32>, upto: int)
    requires
        1 <= upto <= assignment.len(),
    ensures
        cluster_list(assignment, assignment[0] as int, upto).len() >= 1,
    decreases upto,
{
    if upto > 1 {
        lemma_first_member(assignment, upto - 1);
    }
}

proof fn lemma_blocks_include(terms: Seq<EncodedTerm>, c: int)
    requires
        0 <= c < terms.len(),
    ensures
        external::blocks_of(terms) >= terms[c].max_doc_ids@.len(),
    decreases terms.len(),
{
    if c < terms.len() - 1 {
        lemma_blocks_include(terms.drop_last(), c);
    }
}

/// Every table of a written file is read back.
#[verifier::spinoff_prover]
#[verifier::rlimit(40)]
proof fn lemma_written_tables(
    b: Seq<u8>,
    dim: u32,
    centroids: Seq<u32>,
    assignment: Seq<u32>,
    lens: Seq<u32>,
    terms: Seq<EncodedTerm>,
)
    requires
        assignment.len() <= u32::MAX,
        terms.len() <= u32::MAX,
        centroids.len() == terms.len() * dim,
        packed_clusters(terms, assignment, lens, terms.len() as int),
        external::blocks_of(terms) >= 1,
        b == ivf_file(dim as int, centroids, assignment, terms),
    ensures
        refusal(b) is None,
        ({
            let n = assignment.len() as int;
            let k = terms.len() as int;
            let d = dim as int;
            let t = external::tables_of(terms);
            let blocks = external::blocks_of(terms) as int;
            let at = blocks_at(k, d, n);
            &&& codec::le_at(b, 12, 4) == n
            &&& codec::le_at(b, 16, 4) == k
            &&& codec::le_at(b, 20, 4) == d
            &&& block_total(b, k, d, n) == blocks
            &&& table::entries(b, HEADER_LEN as int, k * d, 2) == embeddings::stored_row(centroids)
            &&& table::entries(b, assign_at(k, d), n, 4) == table::nats_u32(assignment)
            &&& table::entries(b, df_at(k, d, n), k, 4) == table::nats_u32(t.term_dfs)
            &&& table::entries(b, region_at(k, d, n), k + 1, 8) == table::nats_u64(
                t.region_offsets,
            )
            &&& table::entries(b, rows_at(k, d, n), k + 1, 4) == table::nats_u32(t.block_rows)
            &&& table::entries(b, at + 12 * blocks, blocks, 4) == table::nats_u32(
                t.block_byte_offsets,
            )
            &&& b.skip(at + 16 * blocks) == external::bytes_of(terms)
        }),
{
    let n = assignment.len() as int;
    let k = terms.len() as int;
    let d = dim as int;
    let t = external::tables_of(terms);
    let blocks = external::blocks_of(terms) as int;
    let at = blocks_at(k, d, n);
    let lanes = embeddings::stored_row(centroids);
    let packed = external::bytes_of(terms);
    law_clusters_fit(assignment, k);
    lemma_clusters_fit(terms, assignment, lens, k);
    assert(k * u32::MAX <= u64::MAX) by (nonlinear_arith)
        requires
            k <= u32::MAX,
    ;
    external::lemma_tables(terms);
    lemma2_to64();
    lemma2_to64_rest();
    let fields = seq![VERSION as nat, n as nat, k as nat, dim as nat, per_block() as nat, 0nat];
    let tail = file_tail(t, packed);
    let pad = padding(df_at(k, d, n) + k * 4);
    let r3 = pad + tail;
    let r2 = table::table(table::nats_u32(t.term_dfs), 4) + r3;
    let r1 = table::table(table::nats_u32(assignment), 4) + r2;
    let body = table::table(lanes, 2) + r1;
    table::lemma_framed(MAGIC as nat, fields, body);
    assert(fields[0] == VERSION && fields[1] == n && fields[2] == k && fields[3] == d);
    assert(codec::le_at(b, 8, 4) == fields[0]);
    assert(codec::le_at(b, 12, 4) == fields[1]);
    assert(codec::le_at(b, 16, 4) == fields[2]);
    assert(codec::le_at(b, 20, 4) == fields[3]);
    assert(table::fits(lanes, 2)) by {
        assert forall|i: int| 0 <= i < lanes.len() implies (#[trigger] lanes[i]) < pow2(16) by {
            embeddings::lemma_half_bound(centroids[i]);
        }
    }
    table::lemma_fits_u32(assignment);
    table::lemma_fits_u32(t.term_dfs);
    table::lemma_next_table(b, 32, lanes, 2, r1);
    table::lemma_next_table(b, assign_at(k, d), table::nats_u32(assignment), 4, r2);
    table::lemma_next_table(b, df_at(k, d, n), table::nats_u32(t.term_dfs), 4, r3);
    table::lemma_next(b, df_at(k, d, n) + k * 4, pad, tail);
    lemma_tail_tables(b, region_at(k, d, n), t, packed, k, blocks);
}

/// The tables that follow the padding, from `off` on, are read back.
proof fn lemma_tail_tables(
    b: Seq<u8>,
    off: int,
    t: external::TablesModel,
    packed: Seq<u8>,
    k: int,
    blocks: int,
)
    requires
        0 <= off <= b.len(),
        b.skip(off) == file_tail(t, packed),
        k >= 0,
        t.region_offsets.len() == k + 1,
        t.block_rows.len() == k + 1,
        t.term_max_tfs.len() == k,
        t.term_min_lens.len() == k,
        t.block_rows[k] == blocks,
        t.block_max_doc_ids.len() == blocks,
        t.block_max_tfs.len() == blocks,
        t.block_min_lens.len() == blocks,
        t.block_byte_offsets.len() == blocks,
    ensures
        ({
            let rows = off + (k + 1) * 8;
            let at = rows + (k + 1) * 4 + k * 4 + k * 4;
            &&& table::entries(b, off, k + 1, 8) == table::nats_u64(t.region_offsets)
            &&& table::entries(b, rows, k + 1, 4) == table::nats_u32(t.block_rows)
            &&& codec::le_at(b, rows + k * 4, 4) == blocks
            &&& table::entries(b, at + 12 * blocks, blocks, 4) == table::nats_u32(
                t.block_byte_offsets,
            )
            &&& b.skip(at + 16 * blocks) == packed
            &&& at + 16 * blocks <= b.len()
        }),
{
    let rows = off + (k + 1) * 8;
    let max = rows + (k + 1) * 4;
    let at = max + k * 4 + k * 4;
    let y8 = table::table(table::nats_u32(t.block_byte_offsets), 4) + packed;
    let y7 = table::table(table::nats_u32(t.block_min_lens), 4) + y8;
    let y6 = table::table(table::nats_u32(t.block_max_tfs), 4) + y7;
    let y5 = table::table(table::nats_u32(t.block_max_doc_ids), 4) + y6;
    let y4 = table::table(table::nats_u32(t.term_min_lens), 4) + y5;
    let y3 = table::table(table::nats_u32(t.term_max_tfs), 4) + y4;
    let y2 = table::table(table::nats_u32(t.block_rows), 4) + y3;
    table::lemma_fits_u64(t.region_offsets);
    table::lemma_fits_u32(t.block_rows);
    table::lemma_fits_u32(t.term_max_tfs);
    table::lemma_fits_u32(t.term_min_lens);
    table::lemma_fits_u32(t.block_max_doc_ids);
    table::lemma_fits_u32(t.block_max_tfs);
    table::lemma_fits_u32(t.block_min_lens);
    table::lemma_fits_u32(t.block_byte_offsets);
    table::lemma_next_table(b, off, table::nats_u64(t.region_offsets), 8, y2);
    table::lemma_next_table(b, rows, table::nats_u32(t.block_rows), 4, y3);
    table::lemma_next_table(b, max, table::nats_u32(t.term_max_tfs), 4, y4);
    table::lemma_next_table(b, max + k * 4, table::nats_u32(t.term_min_lens), 4, y5);
    table::lemma_next_table(b, at, table::nats_u32(t.block_max_doc_ids), 4, y6);
    table::lemma_next_table(b, at + 4 * blocks, table::nats_u32(t.block_max_tfs), 4, y7);
    table::lemma_next_table(b, at + 8 * blocks, table::nats_u32(t.block_min_lens), 4, y8);
    table::lemma_next_table(b, at + 12 * blocks, table::nats_u32(t.block_byte_offsets), 4, packed);
    assert(table::entries(b, rows, k + 1, 4)[k] == t.block_rows[k]);
}

/// The nearest clusters are different ones, those with the better keys first
/// and equal ones by id, and no other cluster is better than any of them.
pub proof fn law_nearest_clusters(keys: Seq<u32>, count: int, r: Seq<u32>, c: u32)
    requires
        nearest(keys, count, r),
        keys.len() <= u32::MAX,
    ensures
        r.len() == count,
        forall|i: int| 0 <= i < r.len() ==> (#[trigger] r[i]) < keys.len(),
        forall|i: int, j: int|
            0 <= i < j < r.len() ==> keys[(#[trigger] r[i]) as int] > keys[(#[trigger] r[j]) as int]
                || (keys[r[i] as int] == keys[r[j] as int] && r[i] < r[j]),
        c < keys.len() && !r.contains(c) ==> forall|i: int|
            0 <= i < r.len() ==> keys[(#[trigger] r[i]) as int] > keys[c as int] || (keys[r[i] as int]
                == keys[c as int] && r[i] < c),
{
    let less = order::best_less(keys);
    let order = choose|order: Seq<usize>| #[trigger]
        listed(order, r) && order::sorted_indices(order, keys.len() as int, less);
    assert forall|i: int| 0 <= i < r.len() implies (#[trigger] r[i]) < keys.len() by {
        assert(order[i] < keys.len());
    }
    assert forall|i: int, j: int| 0 <= i < j < r.len() implies keys[(#[trigger] r[i]) as int]
        > keys[(#[trigger] r[j]) as int] || (keys[r[i] as int] == keys[r[j] as int] && r[i]
        < r[j]) by {
        assert(less(order[i] as int, order[j] as int));
    }
    if c < keys.len() && !r.contains(c) {
        assert(order.contains(c as usize));
        let q = choose|q: int| 0 <= q < order.len() && order[q] == c as usize;
        if q < r.len() {
            assert(r[q] == c);
        }
        assert forall|i: int| 0 <= i < r.len() implies keys[(#[trigger] r[i]) as int]
            > keys[c as int] || (keys[r[i] as int] == keys[c as int] && r[i] < c) by {
            assert(less(order[i] as int, order[q] as int));
        }
    }
}

/// Left to itself, a query opens a quarter of the clusters, at least one and at
/// most eight.
pub proof fn law_auto_nprobe(x: IvfIndex)
    requires
        x.num_clusters >= 1,
    ensures
        ({
            let n = x.auto_nprobe_spec();
            let k = x.num_clusters as int;
            &&& 1 <= n <= 8
            &&& n <= k
            &&& k >= 32 ==> n == 8
            &&& 4 <= k < 32 ==> 4 * n <= k < 4 * n + 4
        }),
{
}

/// An opened cluster file gives a query the documents of the clusters whose
/// centroids are nearest: each document of such a cluster once, in ascending
/// order, and no other.
pub proof fn law_probed_documents(x: IvfIndex, clusters: Seq<u32>, out: Seq<u32>)
    requires
        x.faithful(),
        x.gathers(clusters, out),
    ensures
        forall|i: int, j: int| 0 <= i < j < out.len() ==> #[trigger] out[i] < #[trigger] out[j],
        forall|d: u32| #[trigger]
            out.contains(d) <==> d < x.num_docs && clusters.contains(x.assignment@[d as int]),
{
    assert forall|d: u32| #[trigger] out.contains(d) <==> d < x.num_docs && clusters.contains(
        x.assignment@[d as int],
    ) by {
        if x.lists(clusters, d) {
            let i = choose|i: int|
                0 <= i < clusters.len() && x.cluster_docs((#[trigger] clusters[i]) as int).contains(
                    d,
                );
            assert(clusters[i] == x.assignment@[d as int]);
        }
        if d < x.num_docs && clusters.contains(x.assignment@[d as int]) {
            let i = choose|i: int| 0 <= i < clusters.len() && clusters[i] == x.assignment@[d as int];
            assert(x.cluster_docs(clusters[i] as int).contains(d));
        }
    }
}

/// The documents of a cluster are those assigned to it, in order.
pub proof fn law_members(assignment: Seq<u32>, c: int, d: u32)
    requires
        assignment.len() <= u32::MAX,
    ensures
        members(assignment, c).contains(d) <==> d < assignment.len() && assignment[d as int] == c,
        forall|i: int, j: int|
            0 <= i < j < members(assignment, c).len() ==> #[trigger] members(assignment, c)[i]
                < #[trigger] members(assignment, c)[j],
{
    let n = assignment.len() as int;
    let list = cluster_list(assignment, c, n);
    let all = members(assignment, c);
    lemma_listed_members(assignment, c, n, d);
    assert forall|i: int, j: int| 0 <= i < j < all.len() implies #[trigger] all[i]
        < #[trigger] all[j] by {
        assert(list[i].doc_id < list[j].doc_id);
    }
    if all.contains(d) {
        let i = choose|i: int| 0 <= i < all.len() && all[i] == d;
        assert(list[i].doc_id == d);
    }
    if d < assignment.len() && assignment[d as int] == c {
        let i = choose|i: int| 0 <= i < list.len() && (#[trigger] list[i]).doc_id == d;
        assert(all[i] == d);
    }
}

proof fn lemma_listed_members(assignment: Seq<u32>, c: int, n: int, d: u32)
    requires
        0 <= n <= assignment.len() <= u32::MAX,
    ensures
        ({
            let list = cluster_list(assignment, c, n);
            &&& (exists|i: int| 0 <= i < list.len() && (#[trigger] list[i]).doc_id == d) <==> d < n
                && assignment[d as int] == c
            &&& forall|i: int| 0 <= i < list.len() ==> (#[trigger] list[i]).doc_id < n
            &&& forall|i: int, j: int|
                0 <= i < j < list.len() ==> (#[trigger] list[i]).doc_id < (#[trigger] list[j]).doc_id
        }),
    decreases n,
{
    if n > 0 {
        lemma_listed_members(assignment, c, n - 1, d);
        let front = cluster_list(assignment, c, n - 1);
        let list = cluster_list(assignment, c, n);
        if exists|i: int| 0 <= i < front.len() && (#[trigger] front[i]).doc_id == d {
            let i = choose|i: int| 0 <= i < front.len() && (#[trigger] front[i]).doc_id == d;
            assert(list[i] == front[i]);
        }
        if d == n - 1 && assignment[n - 1] == c {
            assert(list[front.len() as int].doc_id == d);
        }
        if exists|i: int| 0 <= i < list.len() && (#[trigger] list[i]).doc_id == d {
            let i = choose|i: int| 0 <= i < list.len() && (#[trigger] list[i]).doc_id == d;
            if i < front.len() {
                assert(front[i].doc_id == d);
            }
        }
    }
}

/// There are about twice as many clusters as the square root of the number of
/// documents, at least two, at most half as many as documents, and at most 256.
pub proof fn law_cluster_count(r: int, n: int)
    requires
        n > 4,
        is_cluster_count(r, n),
    ensures
        2 <= r <= 256,
        2 * r <= n || r == 2,
        r == 2 || r == n / 2 || r == 256 || ((2 * r - 1) * (2 * r - 1) <= 16 * n && 16 * n < (2 * r
            + 1) * (2 * r + 1)),
{
}

/// A search opens at least one cluster and never more than there are; between, as
/// many as asked for.
pub proof fn law_opened_clusters(x: IvfIndex, nprobe: int)
    requires
        x.num_clusters >= 1,
    ensures
        1 <= x.opened(nprobe) <= x.num_clusters,
        1 <= nprobe <= x.num_clusters ==> x.opened(nprobe) == nprobe,
        nprobe > x.num_clusters ==> x.opened(nprobe) == x.num_clusters,
{
}

} // verus!
