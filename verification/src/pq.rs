//! Product quantization: documents as short codes into trained codebooks.
//!
//! A vector is split into `m` subspaces, and each part is coded by the
//! nearest of at most 256 centroids. Scoring by codes costs a fixed amount
//! per query and almost nothing per document, so it pays only for many
//! documents.
//!
//! ```text
//! magic[8] = "HPSPQ001"
//! version u32 = 2
//! num_docs u32
//! m u32
//! ks u32 = 256
//! subdim u32
//! ks_used u32
//! then m * 256 * subdim halves, then num_docs * m bytes
//! ```

use crate::codec;
use crate::embeddings;
use crate::table;
use vstd::arithmetic::power2::*;
use vstd::prelude::*;
use vstd::slice::slice_subrange;

verus! {

/// How many documents must be scored for scoring by codes to pay.
pub const MIN_CANDIDATES: usize = 900;

/// The bytes `HPSPQ001` as a number.
pub const MAGIC: u64 = 0x3130_3051_5053_5048;

pub const VERSION: u32 = 2;

pub const HEADER_LEN: usize = 32;

/// Centroids per subspace.
pub const KS: usize = 256;

/// How many documents a query will score. Without clusters, or with none
/// opened, all of them; otherwise the opened share. The product saturates.
pub open spec fn candidates_spec(num_docs: int, num_clusters: int, nprobe: int) -> int {
    if num_clusters == 0 || nprobe == 0 {
        num_docs
    } else {
        let opened = if nprobe < num_clusters {
            nprobe
        } else {
            num_clusters
        };
        let product = num_docs * opened;
        (if product > usize::MAX {
            usize::MAX as int
        } else {
            product
        }) / num_clusters
    }
}

/// How many documents a query will score, by the geometry of the inverted
/// file.
pub fn estimated_candidates(num_docs: usize, num_clusters: usize, nprobe: usize) -> (n: usize)
    ensures
        n == candidates_spec(num_docs as int, num_clusters as int, nprobe as int),
{
    if num_clusters == 0 || nprobe == 0 {
        return num_docs;
    }
    let opened: usize = if nprobe < num_clusters { nprobe } else { num_clusters };
    let product: usize = match num_docs.checked_mul(opened) {
        Some(p) => p,
        None => usize::MAX,
    };
    product / num_clusters
}

/// A query never scores more documents than there are.
pub proof fn law_candidates_bounded(num_docs: int, num_clusters: int, nprobe: int)
    requires
        num_docs >= 0,
        num_clusters >= 0,
        nprobe >= 0,
    ensures
        0 <= candidates_spec(num_docs, num_clusters, nprobe) <= num_docs,
{
    if num_clusters > 0 && nprobe > 0 {
        let opened = if nprobe < num_clusters {
            nprobe
        } else {
            num_clusters
        };
        let product = num_docs * opened;
        assert(0 <= product <= num_docs * num_clusters) by (nonlinear_arith)
            requires
                product == num_docs * opened,
                0 <= opened <= num_clusters,
                num_docs >= 0,
        ;
        let capped = if product > usize::MAX {
            usize::MAX as int
        } else {
            product
        };
        assert(0 <= capped / num_clusters <= num_docs) by (nonlinear_arith)
            requires
                0 <= capped <= num_docs * num_clusters,
                num_clusters > 0,
        ;
    }
}

/// Does scoring by codes pay for this many documents?
pub fn worth_using(candidates: usize) -> (r: bool)
    ensures
        r == (candidates >= MIN_CANDIDATES),
{
    candidates >= MIN_CANDIDATES
}

/// Why bytes are not a code file, or codes cannot become one.
#[derive(Clone, Copy, PartialEq, Eq, Debug, Structural)]
pub enum PqError {
    NotAPqFile,
    UnsupportedVersion,
    WrongCodeSize,
    InvalidTrainedCount,
    Truncated,
    CodesMismatch,
    CodebooksMismatch,
}

/// What a code file says of itself.
pub struct PqHeader {
    pub num_docs: u32,
    pub m: u32,
    pub subdim: u32,
    pub ks_used: u32,
}

/// Where the codes begin.
pub open spec fn codes_at(m: int, subdim: int) -> int {
    HEADER_LEN + m * KS * subdim * 2
}

/// What a code file says of itself, if it is one.
pub open spec fn header_of(b: Seq<u8>) -> Result<PqHeader, PqError> {
    let num_docs = codec::le_at(b, 12, 4);
    let m = codec::le_at(b, 16, 4);
    let subdim = codec::le_at(b, 24, 4);
    let ks_used = codec::le_at(b, 28, 4);
    if b.len() < HEADER_LEN || codec::le_at(b, 0, 8) != MAGIC {
        Err(PqError::NotAPqFile)
    } else if codec::le_at(b, 8, 4) != VERSION {
        Err(PqError::UnsupportedVersion)
    } else if codec::le_at(b, 20, 4) != KS {
        Err(PqError::WrongCodeSize)
    } else if ks_used == 0 || ks_used > KS {
        Err(PqError::InvalidTrainedCount)
    } else if b.len() < codes_at(m as int, subdim as int) + num_docs * m {
        Err(PqError::Truncated)
    } else {
        Ok(
            PqHeader {
                num_docs: num_docs as u32,
                m: m as u32,
                subdim: subdim as u32,
                ks_used: ks_used as u32,
            },
        )
    }
}

/// Document codes with their codebooks.
pub struct PqIndex {
    pub bytes: Vec<u8>,
    pub num_docs: u32,
    pub m: u32,
    pub subdim: u32,
    /// Trained centroids per subspace. The remaining slots of a codebook
    /// hold nothing.
    pub ks_used: u32,
}

impl PqIndex {
    /// The header agrees with the bytes.
    pub open spec fn wf(&self) -> bool {
        header_of(self.bytes@) == Ok::<PqHeader, PqError>(
            PqHeader {
                num_docs: self.num_docs,
                m: self.m,
                subdim: self.subdim,
                ks_used: self.ks_used,
            },
        )
    }

    /// The code of a document: empty if there is no such document.
    pub open spec fn code(&self, doc_id: int) -> Seq<u8> {
        if doc_id < self.num_docs {
            let at = codes_at(self.m as int, self.subdim as int) + doc_id * self.m;
            self.bytes@.subrange(at, at + self.m)
        } else {
            Seq::empty()
        }
    }

    /// The codebooks, as stored.
    pub open spec fn codebooks(&self) -> Seq<nat> {
        table::entries(
            self.bytes@,
            HEADER_LEN as int,
            self.m * KS * self.subdim,
            2,
        )
    }

    /// A code file.
    pub fn open(bytes: Vec<u8>) -> (r: Result<PqIndex, PqError>)
        ensures
            match r {
                Ok(s) => s.wf() && s.bytes@ == bytes@,
                Err(e) => header_of(bytes@) == Err::<PqHeader, PqError>(e),
            },
    {
        let size: usize = bytes.len();
        if size < HEADER_LEN || codec::read_le(bytes.as_slice(), 0, 8) != MAGIC {
            return Err(PqError::NotAPqFile);
        }
        if table::field(bytes.as_slice(), 0) != VERSION {
            return Err(PqError::UnsupportedVersion);
        }
        let num_docs: u32 = table::field(bytes.as_slice(), 1);
        let m: u32 = table::field(bytes.as_slice(), 2);
        let ks: u32 = table::field(bytes.as_slice(), 3);
        let subdim: u32 = table::field(bytes.as_slice(), 4);
        let ks_used: u32 = table::field(bytes.as_slice(), 5);
        if ks as usize != KS {
            return Err(PqError::WrongCodeSize);
        }
        if ks_used == 0 || ks_used as usize > KS {
            return Err(PqError::InvalidTrainedCount);
        }
        proof {
            let a = m * 256;
            assert(0 <= a * subdim <= 0x100_0000_0000 * 0x1_0000_0000) by (nonlinear_arith)
                requires
                    0 <= a <= 0x100_0000_0000,
                    0 <= subdim <= 0x1_0000_0000,
            ;
            assert(0 <= num_docs * m <= 0x1_0000_0000 * 0x1_0000_0000) by (nonlinear_arith)
                requires
                    0 <= num_docs <= 0x1_0000_0000,
                    0 <= m <= 0x1_0000_0000,
            ;
        }
        let book: u128 = m as u128 * 256 * subdim as u128 * 2;
        let need: u128 = HEADER_LEN as u128 + book + num_docs as u128 * m as u128;
        if (size as u128) < need {
            return Err(PqError::Truncated);
        }
        Ok(PqIndex { bytes, num_docs, m, subdim, ks_used })
    }

    proof fn lemma_sizes(&self)
        requires
            self.wf(),
        ensures
            0 <= self.m * KS * self.subdim,
            0 <= self.num_docs * self.m,
            codes_at(self.m as int, self.subdim as int) + self.num_docs * self.m
                <= self.bytes@.len(),
            0 < self.ks_used <= KS,
    {
        let b = self.bytes@;
        codec::lemma_le_nat_bound(b.subrange(12, 16));
        codec::lemma_le_nat_bound(b.subrange(16, 20));
        codec::lemma_le_nat_bound(b.subrange(24, 28));
        codec::lemma_le_nat_bound(b.subrange(28, 32));
        lemma2_to64();
        let a = self.m * 256;
        let s = self.subdim as int;
        let n = self.num_docs as int;
        let m = self.m as int;
        assert(0 <= a * s) by (nonlinear_arith)
            requires
                a >= 0,
                s >= 0,
        ;
        assert(0 <= n * m) by (nonlinear_arith)
            requires
                n >= 0,
                m >= 0,
        ;
    }

    /// The code of a document: empty if there is no such document.
    pub fn codes_of(&self, doc_id: u32) -> (c: &[u8])
        requires
            self.wf(),
        ensures
            c@ == self.code(doc_id as int),
    {
        if doc_id >= self.num_docs {
            let none: &[u8] = slice_subrange(self.bytes.as_slice(), 0, 0);
            assert(none@ =~= Seq::<u8>::empty());
            return none;
        }
        proof {
            self.lemma_sizes();
            let m = self.m as int;
            let d = doc_id as int;
            let n = self.num_docs as int;
            assert(0 <= d * m && d * m + m <= n * m) by (nonlinear_arith)
                requires
                    0 <= d < n,
                    m >= 0,
            ;
            let a = m * 256;
            let s = self.subdim as int;
            assert(s > 0 ==> a <= a * s) by (nonlinear_arith)
                requires
                    a >= 0,
            ;
        }
        let size: usize = self.bytes.len();
        let book: u128 = self.m as u128 * 256 * self.subdim as u128 * 2;
        let start: u128 = HEADER_LEN as u128 + book + doc_id as u128 * self.m as u128;
        let from: usize = start as usize;
        slice_subrange(self.bytes.as_slice(), from, from + self.m as usize)
    }

    pub fn m(&self) -> (n: usize)
        ensures
            n == self.m,
    {
        self.m as usize
    }

    pub fn ks_used(&self) -> (n: usize)
        ensures
            n == self.ks_used,
    {
        self.ks_used as usize
    }

    pub fn size_bytes(&self) -> (n: u64)
        ensures
            n == self.bytes@.len(),
    {
        self.bytes.len() as u64
    }
}

/// Trained codebooks: the number of subspaces, their size, the trained
/// centroids per subspace, and the coordinates in single precision.
pub struct Codebooks {
    pub m: usize,
    pub sub: usize,
    pub ks_used: usize,
    pub values: Vec<u32>,
}

/// The codebooks of an existing code file, if it is one.
pub fn read_codebooks(bytes: Vec<u8>) -> (r: Option<Codebooks>)
    ensures
        r is Some == header_of(bytes@) is Ok,
        r matches Some(c) ==> {
            let h = header_of(bytes@)->Ok_0;
            let stored = table::entries(bytes@, HEADER_LEN as int, h.m * KS * h.subdim, 2);
            &&& c.m == h.m
            &&& c.sub == h.subdim
            &&& c.ks_used == h.ks_used
            &&& c.values@.len() == h.m * KS * h.subdim
            &&& forall|i: int|
                0 <= i < c.values@.len() ==> embeddings::widens(
                    stored[i],
                    (#[trigger] c.values@[i]) as nat,
                )
        },
{
    let index = match PqIndex::open(bytes) {
        Ok(i) => i,
        Err(_) => {
            return None;
        },
    };
    proof {
        index.lemma_sizes();
        let s = index.subdim as int;
        let a = index.m * 256;
        assert(s == 0 ==> a * s == 0) by (nonlinear_arith);
        assert(s > 0 ==> a <= a * s) by (nonlinear_arith)
            requires
                a >= 0,
        ;
    }
    let size: usize = index.bytes.len();
    let cells: u128 = index.m as u128 * 256 * index.subdim as u128;
    let n: usize = cells as usize;
    let ghost stored = index.codebooks();
    let mut values: Vec<u32> = Vec::new();
    let mut i: usize = 0;
    while i < n
        invariant
            i <= n,
            n == index.m * KS * index.subdim,
            size == index.bytes@.len(),
            HEADER_LEN + 2 * n <= size,
            stored == index.codebooks(),
            values@.len() == i,
            forall|k: int|
                0 <= k < i ==> embeddings::widens(stored[k], (#[trigger] values@[k]) as nat),
        decreases n - i,
    {
        proof {
            lemma2_to64();
        }
        let h: u64 = codec::read_le(index.bytes.as_slice(), HEADER_LEN + 2 * i, 2);
        assert(h == stored[i as int]);
        values.push(embeddings::f16_to_f32(h as u16));
        i += 1;
    }
    Some(
        Codebooks {
            m: index.m as usize,
            sub: index.subdim as usize,
            ks_used: index.ks_used as usize,
            values,
        },
    )
}

/// `k` brought into the range from 1 to 256.
pub open spec fn clamped(k: int) -> int {
    if k < 1 {
        1
    } else if k > KS {
        KS as int
    } else {
        k
    }
}

/// The file of `n` codes of `m` bytes, with their codebooks.
pub open spec fn code_file(
    codebooks: Seq<u32>,
    codes: Seq<u8>,
    n: int,
    m: int,
    sub: int,
    ks_used: int,
) -> Seq<u8> {
    table::framed(
        MAGIC as nat,
        seq![
            VERSION as nat,
            n as nat,
            m as nat,
            KS as nat,
            sub as nat,
            clamped(ks_used) as nat,
        ],
        table::table(embeddings::stored_row(codebooks), 2) + codes,
    )
}

/// The file of codes and codebooks that were computed elsewhere.
pub fn write_with_codebooks(
    codebooks: &[u32],
    codes: &[u8],
    n: usize,
    m: usize,
    sub: usize,
    ks_used: usize,
) -> (r: Result<Vec<u8>, PqError>)
    requires
        n <= u32::MAX,
        m <= u32::MAX,
        sub <= u32::MAX,
    ensures
        match r {
            Ok(b) => {
                &&& codes@.len() == n * m
                &&& codebooks@.len() == m * KS * sub
                &&& b@ == code_file(
                    codebooks@,
                    codes@,
                    n as int,
                    m as int,
                    sub as int,
                    ks_used as int,
                )
            },
            Err(PqError::CodesMismatch) => codes@.len() != n * m,
            Err(PqError::CodebooksMismatch) => codes@.len() == n * m && codebooks@.len() != m * KS
                * sub,
            Err(_) => false,
        },
{
    proof {
        let a = m * 256;
        assert(0 <= a * sub <= 0x100_0000_0000 * 0x1_0000_0000) by (nonlinear_arith)
            requires
                0 <= a <= 0x100_0000_0000,
                0 <= sub <= 0x1_0000_0000,
        ;
        assert(0 <= n * m <= 0x1_0000_0000 * 0x1_0000_0000) by (nonlinear_arith)
            requires
                0 <= n <= 0x1_0000_0000,
                0 <= m <= 0x1_0000_0000,
        ;
    }
    let have: usize = codes.len();
    if have as u128 != n as u128 * m as u128 {
        return Err(PqError::CodesMismatch);
    }
    let books: usize = codebooks.len();
    if books as u128 != m as u128 * 256 * sub as u128 {
        return Err(PqError::CodebooksMismatch);
    }
    let used: u32 = if ks_used < 1 { 1 } else if ks_used > KS { 256 } else { ks_used as u32 };
    let fields: [u32; 6] = [VERSION, n as u32, m as u32, 256, sub as u32, used];
    let mut out: Vec<u8> = table::new_frame(MAGIC, fields.as_slice());
    let ghost head = out@;
    let mut i: usize = 0;
    assert(out@ =~= head + table::table(embeddings::stored_row(codebooks@.take(0)), 2));
    while i < books
        invariant
            i <= books == codebooks@.len(),
            out@ == head + table::table(embeddings::stored_row(codebooks@.take(i as int)), 2),
        decreases books - i,
    {
        let h: u16 = embeddings::f32_to_f16(codebooks[i]);
        codec::push_le(&mut out, h as u64, 2);
        proof {
            let more = embeddings::stored_row(codebooks@.take(i + 1));
            assert(more.drop_last() =~= embeddings::stored_row(codebooks@.take(i as int)));
            assert(more.last() == h);
            assert(out@ =~= head + table::table(more, 2));
        }
        i += 1;
    }
    codec::append(&mut out, codes);
    proof {
        assert(codebooks@.take(books as int) =~= codebooks@);
        assert(table::nats_u32(fields@) =~= seq![
            VERSION as nat,
            n as nat,
            m as nat,
            KS as nat,
            sub as nat,
            clamped(ks_used as int) as nat,
        ]);
        assert(out@ =~= code_file(
            codebooks@,
            codes@,
            n as int,
            m as int,
            sub as int,
            ks_used as int,
        ));
    }
    Ok(out)
}

/// Written codes read back: the file opens, every document has the code it
/// was given, and the codebooks are those given, in half precision.
pub proof fn law_written_codes_read_back(
    codebooks: Seq<u32>,
    codes: Seq<u8>,
    n: u32,
    m: u32,
    sub: u32,
    ks_used: int,
    p: PqIndex,
)
    requires
        codes.len() == n * m,
        codebooks.len() == m * KS * sub,
        p.bytes@ == code_file(codebooks, codes, n as int, m as int, sub as int, ks_used),
    ensures
        header_of(p.bytes@) == Ok::<PqHeader, PqError>(
            PqHeader { num_docs: n, m, subdim: sub, ks_used: clamped(ks_used) as u32 },
        ),
        p.wf() ==> {
            &&& p.codebooks() == embeddings::stored_row(codebooks)
            &&& forall|d: int|
                0 <= d < n ==> #[trigger] p.code(d) == codes.subrange(d * m, d * m + m)
        },
{
    let b = p.bytes@;
    let fields = seq![
        VERSION as nat,
        n as nat,
        m as nat,
        KS as nat,
        sub as nat,
        clamped(ks_used) as nat,
    ];
    let lanes = embeddings::stored_row(codebooks);
    let book = table::table(lanes, 2);
    lemma2_to64();
    lemma2_to64_rest();
    table::lemma_framed(MAGIC as nat, fields, book + codes);
    table::lemma_table_len(lanes, 2);
    assert(fields[0] == VERSION && fields[1] == n && fields[2] == m && fields[3] == KS && fields[4]
        == sub && fields[5] == clamped(ks_used));
    assert(codec::le_at(b, 8, 4) == fields[0]);
    assert(codec::le_at(b, 12, 4) == fields[1]);
    assert(codec::le_at(b, 16, 4) == fields[2]);
    assert(codec::le_at(b, 20, 4) == fields[3]);
    assert(codec::le_at(b, 24, 4) == fields[4]);
    assert(codec::le_at(b, 28, 4) == fields[5]);
    let at = codes_at(m as int, sub as int);
    assert(at == 32 + book.len());
    if p.wf() {
        let head = b.take(32);
        assert(head + book + codes =~= b);
        assert(table::fits(lanes, 2)) by {
            assert forall|i: int| 0 <= i < lanes.len() implies (#[trigger] lanes[i]) < pow2(16) by {
                embeddings::lemma_half_bound(codebooks[i]);
            }
        }
        table::lemma_table(head, lanes, 2, codes);
        assert forall|d: int| 0 <= d < n implies #[trigger] p.code(d) == codes.subrange(
            d * m,
            d * m + m,
        ) by {
            let w = m as int;
            let k = n as int;
            assert(0 <= d * w && d * w + w <= k * w) by (nonlinear_arith)
                requires
                    0 <= d < k,
                    w >= 0,
            ;
            assert(p.code(d) =~= codes.subrange(d * w, d * w + w));
        }
    }
}

/// The candidates that opening some of the clusters gives are that share of
/// the documents, rounded down; no limit, and a limit that leaves no cluster
/// out, give them all.
pub proof fn law_candidates_are_a_share(num_docs: int, num_clusters: int, nprobe: int)
    requires
        0 <= num_docs,
        0 < num_clusters,
        0 <= nprobe,
        num_docs * num_clusters <= usize::MAX,
    ensures
        nprobe == 0 ==> candidates_spec(num_docs, num_clusters, nprobe) == num_docs,
        nprobe >= num_clusters ==> candidates_spec(num_docs, num_clusters, nprobe) == num_docs,
        0 < nprobe < num_clusters ==> {
            let c = candidates_spec(num_docs, num_clusters, nprobe);
            c * num_clusters <= num_docs * nprobe < (c + 1) * num_clusters
        },
{
    if nprobe >= num_clusters {
        assert((num_docs * num_clusters) / num_clusters == num_docs) by (nonlinear_arith)
            requires
                0 < num_clusters,
        ;
    } else if nprobe > 0 {
        assert(num_docs * nprobe <= num_docs * num_clusters) by (nonlinear_arith)
            requires
                0 <= num_docs,
                nprobe < num_clusters,
        ;
        let x = num_docs * nprobe;
        let c = x / num_clusters;
        assert(c * num_clusters <= x < (c + 1) * num_clusters) by (nonlinear_arith)
            requires
                c == x / num_clusters,
                0 < num_clusters,
        ;
    }
}

} // verus!
