//! Segmented, incrementally updatable indexes.
//!
//! A single index is immutable. Mutability is layered on top: adding
//! documents builds a new segment, deleting sets a bit in the tombstones of
//! the owning segment, updating is both, and merging compacts the segments
//! into one without the tombstoned documents.
//!
//! Every segment is scored under the statistics of the whole corpus: the
//! live documents, their average length, and document frequencies summed
//! over the segments. A frequency counts tombstoned documents until a merge.

use crate::block_max_wand;
use crate::block_max_wand::{SearchHit, SearchStats};
use crate::bm25;
use crate::codec;
use crate::indexer;
use crate::indexer::{
    DocMeta, DocSummary, DocTokens, Index, IndexBuilder, SearchableIndex, TokenModel,
};
use crate::interner;
use crate::interner::Interner;
use crate::maxscore;
use crate::order;
use crate::postings;
use crate::postings::{Posting, PostingList, TermPostings};
use crate::reorder::ReorderStrategy;
use crate::sums;
use crate::text;
use crate::work;
use crate::work::{Pruning, Query, Work};
use vstd::prelude::*;
use vstd::slice::slice_subrange;

verus! {

// ---------------------------------------------------------------------------
// Tombstones
// ---------------------------------------------------------------------------

/// The bit of document `d`. Documents beyond the bitmap are not set.
pub open spec fn bit(words: Seq<u64>, d: int) -> bool {
    d / 64 < words.len() && (words[d / 64] >> ((d % 64) as u64)) & 1 == 1
}

/// How many words hold the bits of `n` documents.
pub open spec fn words_for(n: int) -> int {
    (n + 63) / 64
}

/// Test the bit of a document.
pub fn bit_is_set(words: &[u64], doc: u32) -> (r: bool)
    ensures
        r == bit(words@, doc as int),
{
    let at: usize = (doc / 64) as usize;
    if at < words.len() {
        let shift: u64 = (doc % 64) as u64;
        (words[at] >> shift) & 1 == 1
    } else {
        false
    }
}

/// Set the bit of a document that the bitmap covers.
pub fn set_bit(words: &mut Vec<u64>, doc: u32)
    requires
        doc / 64 < old(words)@.len(),
    ensures
        final(words)@.len() == old(words)@.len(),
        forall|e: int| 0 <= e ==> #[trigger] bit(final(words)@, e) == (bit(old(words)@, e) || e == doc),
{
    let ghost before = words@;
    let at: usize = (doc / 64) as usize;
    let shift: u64 = (doc % 64) as u64;
    let w: u64 = words[at];
    words.set(at, w | (1u64 << shift));
    assert forall|e: int| 0 <= e implies #[trigger] bit(words@, e) == (bit(before, e) || e == doc) by {
        if e / 64 == at {
            let b = (e % 64) as u64;
            assert(((w | (1u64 << shift)) >> b) & 1 == 1 <==> (((w >> b) & 1 == 1) || b == shift))
                by (bit_vector)
                requires
                    b < 64,
                    shift < 64,
            ;
        }
    }
}

/// Tombstones as they are stored.
pub open spec fn bits_bytes(words: Seq<u64>) -> Seq<u8>
    decreases words.len(),
{
    if words.len() == 0 {
        Seq::empty()
    } else {
        bits_bytes(words.drop_last()) + codec::le_bytes(words.last() as nat, 8)
    }
}

/// Word `i` of stored tombstones; bytes that are missing are zero.
pub open spec fn stored_word(bytes: Seq<u8>, i: int) -> nat {
    if 8 * i + 8 <= bytes.len() {
        codec::le_at(bytes, 8 * i, 8)
    } else if 8 * i < bytes.len() {
        codec::le_nat(bytes.skip(8 * i))
    } else {
        0
    }
}

/// Store tombstones.
pub fn write_tombstones(words: &[u64]) -> (bytes: Vec<u8>)
    ensures
        bytes@ == bits_bytes(words@),
{
    let mut bytes: Vec<u8> = Vec::new();
    let mut i: usize = 0;
    assert(words@.take(0) =~= Seq::<u64>::empty());
    while i < words.len()
        invariant
            i <= words@.len(),
            bytes@ == bits_bytes(words@.take(i as int)),
        decreases words@.len() - i,
    {
        proof {
            assert(words@.take(i + 1).drop_last() =~= words@.take(i as int));
            assert(words@.take(i + 1).last() == words@[i as int]);
        }
        codec::push_le(&mut bytes, words[i], 8);
        i += 1;
    }
    assert(words@.take(i as int) =~= words@);
    bytes
}

/// Read stored tombstones of `num_docs` documents.
pub fn read_tombstones(bytes: &[u8], num_docs: u32) -> (words: Vec<u64>)
    ensures
        words@.len() == words_for(num_docs as int),
        forall|i: int| 0 <= i < words@.len() ==> #[trigger] words@[i] == stored_word(bytes@, i),
{
    let m: usize = ((num_docs as u64 + 63) / 64) as usize;
    let n: usize = bytes.len();
    let mut words: Vec<u64> = Vec::new();
    let mut i: usize = 0;
    while i < m
        invariant
            n == bytes@.len(),
            m == words_for(num_docs as int),
            i <= m,
            words@.len() == i,
            forall|j: int| 0 <= j < i ==> #[trigger] words@[j] == stored_word(bytes@, j),
        decreases m - i,
    {
        let at: usize = 8 * i;
        let w: u64 = if at < n && n - at >= 8 {
            codec::read_le(bytes, at, 8)
        } else if at < n {
            assert(bytes@.subrange(at as int, n as int) =~= bytes@.skip(at as int));
            codec::read_le(bytes, at, n - at)
        } else {
            0
        };
        words.push(w);
        i += 1;
    }
    words
}

/// Stored tombstones read back as they were.
pub proof fn law_tombstones_round_trip(words: Seq<u64>, i: int)
    requires
        0 <= i < words.len(),
    ensures
        bits_bytes(words).len() == 8 * words.len(),
        stored_word(bits_bytes(words), i) == words[i],
    decreases words.len(),
{
    vstd::arithmetic::power2::lemma2_to64();
    let init = words.drop_last();
    let a = bits_bytes(init);
    let b = codec::le_bytes(words.last() as nat, 8);
    lemma_bits_len(init);
    if i < init.len() {
        law_tombstones_round_trip(init, i);
        assert((a + b).subrange(8 * i, 8 * i + 8) =~= a.subrange(8 * i, 8 * i + 8));
    } else {
        codec::lemma_field(a, words.last() as nat, 8, Seq::empty());
        assert(a + b + Seq::<u8>::empty() =~= a + b);
    }
}

proof fn lemma_bits_len(words: Seq<u64>)
    ensures
        bits_bytes(words).len() == 8 * words.len(),
    decreases words.len(),
{
    if words.len() > 0 {
        lemma_bits_len(words.drop_last());
    }
}

/// How many of the first `n` documents are live.
pub open spec fn live_count(deleted: Seq<u64>, n: int) -> nat
    decreases n,
{
    if n <= 0 {
        0
    } else if bit(deleted, n - 1) {
        live_count(deleted, n - 1)
    } else {
        live_count(deleted, n - 1) + 1
    }
}

/// Tokens of the live documents among the first `n`.
pub open spec fn live_total(lens: Seq<u32>, deleted: Seq<u64>, n: int) -> nat
    decreases n,
{
    if n <= 0 {
        0
    } else if bit(deleted, n - 1) {
        live_total(lens, deleted, n - 1)
    } else {
        live_total(lens, deleted, n - 1) + lens[n - 1] as nat
    }
}

/// Count the live documents of a segment and their tokens. The bitmap is
/// the source of truth; counts recorded elsewhere may be stale.
pub fn recount_live(index: &Index, deleted: &[u64]) -> (r: (u32, u64))
    requires
        index.wf(),
    ensures
        r.0 == live_count(deleted@, index.docs@.len() as int),
        r.1 == live_total(index.lens(), deleted@, index.docs@.len() as int),
{
    let n: usize = index.docs.len();
    let mut docs: u32 = 0;
    let mut tokens: u64 = 0;
    let mut d: usize = 0;
    while d < n
        invariant
            index.wf(),
            n == index.docs@.len(),
            n <= u32::MAX,
            d <= n,
            docs == live_count(deleted@, d as int),
            docs <= d,
            tokens == live_total(index.lens(), deleted@, d as int),
            tokens <= d * 0xffff_ffff,
        decreases n - d,
    {
        assert((d + 1) * 0xffff_ffff == d * 0xffff_ffff + 0xffff_ffff);
        if !bit_is_set(deleted, d as u32) {
            docs += 1;
            tokens = tokens + index.docs[d].doc_len as u64;
        }
        d += 1;
    }
    (docs, tokens)
}

// ---------------------------------------------------------------------------
// Segments
// ---------------------------------------------------------------------------

/// One immutable segment and what is known of it.
pub struct Segment {
    pub name: String,
    pub index: Index,
    /// Tombstones, one bit per document; empty when nothing is deleted.
    pub deleted: Vec<u64>,
    /// Documents not tombstoned.
    pub live_docs: u32,
    /// Tokens of the live documents.
    pub live_len: u64,
    /// The tokens that the index was built from.
    pub tokens: Ghost<Seq<TokenModel>>,
}

impl Segment {
    pub open spec fn wf(&self, weight: nat) -> bool {
        let n = self.index.docs@.len() as int;
        &&& indexer::indexes(self.index, self.tokens@, weight, self.index.docs@)
        &&& self.tokens@.len() == n
        &&& self.live_docs == live_count(self.deleted@, n)
        &&& self.live_len == live_total(self.index.lens(), self.deleted@, n)
        &&& forall|d: int|
            0 <= d < n ==> #[trigger] self.index.docs@[d].doc_len == indexer::token_len(
                self.tokens@[d],
            )
        &&& forall|t: Seq<char>, d: int|
            0 <= d < n ==> #[trigger] indexer::folded_tf(self.tokens@[d], weight, t) <= u32::MAX
    }

    pub fn is_deleted(&self, doc_id: u32) -> (r: bool)
        ensures
            r == bit(self.deleted@, doc_id as int),
    {
        bit_is_set(self.deleted.as_slice(), doc_id)
    }
}

/// The index of all live segments.
pub struct SegmentedIndex {
    /// The number of the next segment.
    pub next_segment: u64,
    pub remove_stopwords: bool,
    pub title_weight: u32,
    /// Identifier-splitting tokenizer; the same for every segment.
    pub code_mode: bool,
    pub segments: Vec<Segment>,
}

pub open spec fn live_fn(segments: Seq<Segment>) -> spec_fn(int) -> nat {
    |i: int| segments[i].live_docs as nat
}

pub open spec fn live_len_fn(segments: Seq<Segment>) -> spec_fn(int) -> nat {
    |i: int| segments[i].live_len as nat
}

pub open spec fn df_fn(segments: Seq<Segment>, t: Seq<char>) -> spec_fn(int) -> nat {
    |i: int| segments[i].index.postings_of(t).len()
}

/// All live documents.
pub open spec fn live_docs(segments: Seq<Segment>) -> nat {
    sums::total(live_fn(segments), segments.len())
}

/// Tokens of all live documents.
pub open spec fn live_len(segments: Seq<Segment>) -> nat {
    sums::total(live_len_fn(segments), segments.len())
}

/// The document frequency of a term over all segments, tombstoned documents
/// among them.
pub open spec fn global_df(segments: Seq<Segment>, t: Seq<char>) -> nat {
    sums::total(df_fn(segments, t), segments.len())
}

/// The average length of the live documents; one token if there are none.
pub open spec fn global_avg(segments: Seq<Segment>) -> nat {
    indexer::average_len(live_len(segments), live_docs(segments))
}

impl SegmentedIndex {
    pub open spec fn wf(&self) -> bool {
        &&& self.title_weight > 0
        &&& self.segments@.len() <= u32::MAX
        &&& live_docs(self.segments@) <= u32::MAX
        &&& live_len(self.segments@) <= u64::MAX
        &&& forall|i: int|
            0 <= i < self.segments@.len() ==> (#[trigger] self.segments@[i]).wf(
                self.title_weight as nat,
            )
    }

    /// An index without segments.
    pub fn new(remove_stopwords: bool, title_weight: u32, code_mode: bool) -> (s: Self)
        ensures
            s.wf(),
            s.segments@.len() == 0,
            s.next_segment == 0,
            s.remove_stopwords == remove_stopwords,
            s.title_weight == (if title_weight == 0 {
                1
            } else {
                title_weight
            }),
            s.code_mode == code_mode,
    {
        let weight: u32 = if title_weight == 0 { 1 } else { title_weight };
        SegmentedIndex {
            next_segment: 0,
            remove_stopwords,
            title_weight: weight,
            code_mode,
            segments: Vec::new(),
        }
    }

    pub fn num_segments(&self) -> (n: usize)
        ensures
            n == self.segments@.len(),
    {
        self.segments.len()
    }

    pub fn remove_stopwords(&self) -> (r: bool)
        ensures
            r == self.remove_stopwords,
    {
        self.remove_stopwords
    }

    pub fn code_mode(&self) -> (r: bool)
        ensures
            r == self.code_mode,
    {
        self.code_mode
    }

    /// Documents that are not tombstoned.
    pub fn num_docs_live(&self) -> (n: u64)
        requires
            self.wf(),
        ensures
            n == live_docs(self.segments@),
    {
        let mut n: u64 = 0;
        let mut i: usize = 0;
        while i < self.segments.len()
            invariant
                self.wf(),
                i <= self.segments@.len(),
                n == sums::total(live_fn(self.segments@), i as nat),
                n <= u32::MAX,
            decreases self.segments@.len() - i,
        {
            proof {
                sums::lemma_total_monotone(
                    live_fn(self.segments@),
                    (i + 1) as nat,
                    self.segments@.len(),
                );
            }
            n = n + self.segments[i].live_docs as u64;
            i += 1;
        }
        n
    }

    /// Live documents and their average length.
    pub fn global_stats(&self) -> (r: (usize, u32))
        requires
            self.wf(),
        ensures
            r.0 == live_docs(self.segments@),
            r.1 == global_avg(self.segments@),
            r.1 > 0,
            r.0 <= u32::MAX,
    {
        let n: u64 = self.num_docs_live();
        let mut total: u64 = 0;
        let mut i: usize = 0;
        while i < self.segments.len()
            invariant
                self.wf(),
                i <= self.segments@.len(),
                total == sums::total(live_len_fn(self.segments@), i as nat),
            decreases self.segments@.len() - i,
        {
            proof {
                sums::lemma_total_monotone(
                    live_len_fn(self.segments@),
                    (i + 1) as nat,
                    self.segments@.len(),
                );
            }
            total = total + self.segments[i].live_len;
            i += 1;
        }
        if total == 0 {
            return (n as usize, bm25::AVG_UNIT);
        }
        if n == 0 {
            proof {
                self.lemma_no_docs_no_tokens();
            }
            return (0, bm25::AVG_UNIT);
        }
        let a: u128 = (total as u128 * bm25::AVG_UNIT as u128) / (n as u128);
        let avg: u32 = if a == 0 {
            1
        } else if a > 0xffff_ffff {
            u32::MAX
        } else {
            a as u32
        };
        (n as usize, avg)
    }

    proof fn lemma_no_docs_no_tokens(&self)
        requires
            self.wf(),
            live_docs(self.segments@) == 0,
        ensures
            live_len(self.segments@) == 0,
    {
        let segs = self.segments@;
        assert forall|i: int| 0 <= i < segs.len() implies #[trigger] live_len_fn(segs)(i) == (
        |i: int| 0nat)(i) by {
            sums::lemma_total_monotone(live_fn(segs), (i + 1) as nat, segs.len());
            assert(segs[i].live_docs == 0);
            lemma_none_live(segs[i].index.lens(), segs[i].deleted@, segs[i].index.docs@.len() as int);
        }
        sums::lemma_total_eq(live_len_fn(segs), |i: int| 0nat, segs.len());
        lemma_zero_total(segs.len());
    }

    /// Document frequency of a term over all segments.
    pub fn term_df(&self, term: &str) -> (df: u64)
        requires
            self.wf(),
        ensures
            df == global_df(self.segments@, term@),
    {
        let mut df: u64 = 0;
        let mut i: usize = 0;
        while i < self.segments.len()
            invariant
                self.wf(),
                i <= self.segments@.len(),
                df == sums::total(df_fn(self.segments@, term@), i as nat),
                df <= i * 0xffff_ffff,
            decreases self.segments@.len() - i,
        {
            assert((i + 1) * 0xffff_ffff == i * 0xffff_ffff + 0xffff_ffff);
            assert(self.segments@[i as int].wf(self.title_weight as nat));
            let here: u64 = match self.segments[i].index.posting_list_for(term) {
                Some(l) => l.postings.len() as u64,
                None => 0,
            };
            proof {
                let seg = self.segments@[i as int];
                if let Some(id) = interner::id_of(seg.index.terms@, term@) {
                    let at = seg.index.terms@.index_of(term@);
                    assert(seg.index.posting_lists@[at].postings@.len() <= u32::MAX);
                }
            }
            df = df + here;
            i += 1;
        }
        df
    }

    /// Live check of one document of a segment.
    pub fn is_live(&self, segment: usize, doc_id: u32) -> (r: bool)
        ensures
            r == (segment < self.segments@.len() && !bit(
                self.segments@[segment as int].deleted@,
                doc_id as int,
            )),
    {
        segment < self.segments.len() && !self.segments[segment].is_deleted(doc_id)
    }

    pub fn doc_summary_in(&self, segment: usize, doc_id: u32) -> (s: DocSummary)
        requires
            self.wf(),
            segment < self.segments@.len(),
            doc_id < self.segments@[segment as int].index.docs@.len(),
        ensures
            s.id@ == self.segments@[segment as int].index.docs@[doc_id as int].external_id@,
            s.title@ == self.segments@[segment as int].index.docs@[doc_id as int].title@,
    {
        assert(self.segments@[segment as int].wf(self.title_weight as nat));
        self.segments[segment].index.doc_summary(doc_id)
    }

    pub fn num_docs_in(&self, segment: usize) -> (n: usize)
        requires
            segment < self.segments@.len(),
        ensures
            n == self.segments@[segment as int].index.docs@.len(),
    {
        self.segments[segment].index.docs.len()
    }

    /// The names of the segments, in order.
    pub fn segment_names(&self) -> (names: Vec<String>)
        ensures
            names@.len() == self.segments@.len(),
            forall|i: int|
                0 <= i < names@.len() ==> (#[trigger] names@[i])@ == self.segments@[i].name@,
    {
        let mut names: Vec<String> = Vec::new();
        let mut i: usize = 0;
        while i < self.segments.len()
            invariant
                i <= self.segments@.len(),
                names@.len() == i,
                forall|j: int|
                    0 <= j < i ==> (#[trigger] names@[j])@ == self.segments@[j].name@,
            decreases self.segments@.len() - i,
        {
            names.push(self.segments[i].name.clone());
            i += 1;
        }
        names
    }
}

proof fn lemma_none_live(lens: Seq<u32>, deleted: Seq<u64>, n: int)
    requires
        live_count(deleted, n) == 0,
    ensures
        live_total(lens, deleted, n) == 0,
    decreases n,
{
    if n > 0 {
        lemma_none_live(lens, deleted, n - 1);
    }
}

proof fn lemma_zero_total(n: nat)
    ensures
        sums::total(|i: int| 0nat, n) == 0,
    decreases n,
{
    if n > 0 {
        lemma_zero_total((n - 1) as nat);
    }
}

// ---------------------------------------------------------------------------
// Search
// ---------------------------------------------------------------------------

/// The weight recorded for a term: the first entry of its text.
pub open spec fn weight_in(idfs: Seq<(Seq<char>, u32)>, t: Seq<char>) -> Option<u32>
    decreases idfs.len(),
{
    if idfs.len() == 0 {
        None
    } else if idfs[0].0 == t {
        Some(idfs[0].1)
    } else {
        weight_in(idfs.drop_first(), t)
    }
}

pub open spec fn idf_views(idfs: Seq<(String, u32)>) -> Seq<(Seq<char>, u32)> {
    Seq::new(idfs.len(), |i: int| (idfs[i].0@, idfs[i].1))
}

/// What a segment knows of a term, under statistics of the whole corpus.
pub open spec fn seen_term(
    segment: Segment,
    idfs: Seq<(Seq<char>, u32)>,
    avg_doc_len: u32,
    t: Seq<char>,
) -> Option<block_max_wand::TermModel> {
    match weight_in(idfs, t) {
        Some(idf) => match segment.index.model(t) {
            Some(m) => Some(
                block_max_wand::TermModel {
                    list: m.list,
                    idf: idf as nat,
                    avg_doc_len: avg_doc_len as nat,
                },
            ),
            None => None,
        },
        None => None,
    }
}

/// A segment scored under global statistics, its tombstones hidden.
pub struct SegmentView<'a> {
    pub segment: &'a Segment,
    pub avg_doc_len: u32,
    /// The global weight of each query term that occurs.
    pub idfs: &'a Vec<(String, u32)>,
}

impl<'a> SearchableIndex for SegmentView<'a> {
    open spec fn lens(&self) -> Seq<u32> {
        self.segment.index.lens()
    }

    open spec fn dead(&self, doc_id: u32) -> bool {
        bit(self.segment.deleted@, doc_id as int)
    }

    open spec fn model(&self, term: Seq<char>) -> Option<block_max_wand::TermModel> {
        seen_term(*self.segment, idf_views(self.idfs@), self.avg_doc_len, term)
    }

    open spec fn block_len(&self) -> int {
        self.segment.index.block_len()
    }

    open spec fn summary(&self, doc_id: u32) -> (Seq<char>, Seq<char>) {
        self.segment.index.summary(doc_id)
    }

    open spec fn wf(&self) -> bool {
        &&& self.segment.index.wf()
        &&& self.avg_doc_len > 0
        &&& forall|i: int| 0 <= i < self.idfs@.len() ==> (#[trigger] self.idfs@[i]).1 <= bm25::MAX_IDF
    }

    proof fn lemma_terms_bounded(&self, terms: Seq<Seq<char>>) {
        assert forall|i: int| 0 <= i < terms.len() implies self.segment.index.model(
            #[trigger] terms[i],
        ) is Some by {
            assert(self.model(terms[i]) is Some);
        }
        self.segment.index.lemma_terms_bounded(terms);
    }

    proof fn lemma_docs_exist(&self, term: Seq<char>) {
        self.segment.index.lemma_docs_exist(term);
    }

    fn num_docs(&self) -> (n: usize) {
        self.segment.index.num_docs()
    }

    fn doc_len(&self, doc_id: u32) -> (len: u32) {
        self.segment.index.doc_len(doc_id)
    }

    fn doc_summary(&self, doc_id: u32) -> (s: DocSummary) {
        self.segment.index.doc_summary(doc_id)
    }

    fn is_deleted(&self, doc_id: u32) -> (d: bool) {
        self.segment.is_deleted(doc_id)
    }

    fn term_postings(&self, term: &str) -> (t: Option<TermPostings<'_>>) {
        let chars = text::chars_of(term);
        let wanted = text::string_of(chars.as_slice());
        let ghost all = idf_views(self.idfs@);
        let mut i: usize = 0;
        assert(all.skip(0) =~= all);
        while i < self.idfs.len()
            invariant
                self.wf(),
                wanted@ == term@,
                all == idf_views(self.idfs@),
                i <= self.idfs@.len(),
                weight_in(all, term@) == weight_in(all.skip(i as int), term@),
            decreases self.idfs@.len() - i,
        {
            proof {
                assert(all.skip(i as int)[0] == all[i as int]);
                assert(all.skip(i as int).drop_first() =~= all.skip(i + 1));
            }
            if self.idfs[i].0 == wanted {
                let idf: u32 = self.idfs[i].1;
                return match self.segment.index.term_postings(term) {
                    Some(p) => {
                        let q = TermPostings {
                            idf,
                            avg_doc_len: self.avg_doc_len,
                            df: p.df,
                            block_size: p.block_size,
                            block_max_doc_ids: p.block_max_doc_ids,
                            block_max_tfs: p.block_max_tfs,
                            block_min_lens: p.block_min_lens,
                            term_max_tf: p.term_max_tf,
                            term_min_len: p.term_min_len,
                            source: p.source,
                        };
                        proof {
                            assert(q.list() =~= p.list());
                            lemma_reweighed(p, q, self.lens());
                        }
                        Some(q)
                    },
                    None => None,
                };
            }
            i += 1;
        }
        None
    }
}

/// A view stays well-formed under other statistics.
proof fn lemma_reweighed(p: TermPostings, q: TermPostings, lens: Seq<u32>)
    requires
        p.wf(lens),
        p.tight(lens),
        q.avg_doc_len > 0,
        q.idf <= bm25::MAX_IDF,
        q.df == p.df,
        q.block_size == p.block_size,
        q.block_max_doc_ids == p.block_max_doc_ids,
        q.block_max_tfs == p.block_max_tfs,
        q.block_min_lens == p.block_min_lens,
        q.term_max_tf == p.term_max_tf,
        q.term_min_len == p.term_min_len,
        q.source == p.source,
        q.list() == p.list(),
    ensures
        q.wf(lens),
        q.tight(lens),
{
    assert forall|b: int|
        #![trigger q.block_max_tfs@[b]]
        #![trigger q.block_min_lens@[b]]
        0 <= b < q.blocks() implies {
        &&& postings::is_max_tf(q.list(), q.lo(b), q.hi(b), q.block_max_tfs@[b])
        &&& postings::is_min_len(q.list(), lens, q.lo(b), q.hi(b), q.block_min_lens@[b])
    } by {
        assert(p.block_max_tfs@[b] == q.block_max_tfs@[b]);
    }
    assert(q.source_ok()) by {
        assert(p.source_ok());
        match q.source {
            postings::BlockSource::Memory(m) => {},
            postings::BlockSource::Compressed { bytes, block_offsets } => {
                assert forall|b: int| 0 <= b < block_offsets@.len() implies {
                    let at = #[trigger] block_offsets@[b];
                    let bb = q.block_bytes(b);
                    &&& at <= bytes@.len()
                    &&& crate::compress::docs_readable(bb)
                    &&& crate::compress::block_count(bb) == q.hi(b) - q.lo(b)
                    &&& forall|w: nat|
                        w < crate::compress::block_count(bb)
                            ==> #[trigger] crate::compress::block_tf_at(bb, w) <= u32::MAX
                } by {
                    assert(q.block_bytes(b) == p.block_bytes(b));
                }
            },
        }
    }
    let l = q.list();
    assert forall|b: int, i: int|
        #![trigger q.block_max_tfs@[b], l[i]]
        0 <= b < q.blocks() && q.lo(b) <= i < q.hi(b) implies {
        &&& l[i].tf <= q.block_max_tfs@[b]
        &&& q.block_min_lens@[b] <= lens[l[i].doc_id as int]
    } by {
        assert(p.block_max_tfs@[b] == q.block_max_tfs@[b]);
    }
}

/// A scored document of a segment.
#[derive(Debug, Clone, Copy, PartialEq, Eq, Structural)]
pub struct SegmentHit {
    pub segment: usize,
    pub doc_id: u32,
    pub score: u64,
}

/// `a` ranks before `b`: by score, then by segment, then by document.
pub open spec fn ranks_before(a: SegmentHit, b: SegmentHit) -> bool {
    a.score > b.score || (a.score == b.score && (a.segment < b.segment || (a.segment == b.segment
        && a.doc_id < b.doc_id)))
}

/// The weights under which a query is scored: of each of its terms that
/// occurs, in order.
pub open spec fn query_weights(segments: Seq<Segment>, terms: Seq<Seq<char>>) -> Seq<
    (Seq<char>, u32),
>
    decreases terms.len(),
{
    if terms.len() == 0 {
        Seq::empty()
    } else {
        let front = query_weights(segments, terms.drop_last());
        let t = terms.last();
        let df = global_df(segments, t);
        if df > 0 {
            front.push((t, bm25::idf_spec(live_docs(segments), df) as u32))
        } else {
            front
        }
    }
}

/// The models of a query in one segment.
pub open spec fn segment_models(
    segments: Seq<Segment>,
    si: int,
    terms: Seq<Seq<char>>,
) -> Seq<block_max_wand::TermModel> {
    seen_models(
        segments[si],
        query_weights(segments, terms),
        global_avg(segments) as u32,
        terms,
        block_max_wand::firsts(terms),
    )
}

pub open spec fn seen_models(
    segment: Segment,
    idfs: Seq<(Seq<char>, u32)>,
    avg: u32,
    terms: Seq<Seq<char>>,
    positions: Seq<int>,
) -> Seq<block_max_wand::TermModel>
    decreases positions.len(),
{
    if positions.len() == 0 {
        Seq::empty()
    } else {
        let front = seen_models(segment, idfs, avg, terms, positions.drop_last());
        match seen_term(segment, idfs, avg, terms[positions.last()]) {
            Some(m) => front.push(m),
            None => front,
        }
    }
}

/// Document `d` of segment `si` is alive and holds a term of the query.
pub open spec fn segment_match(
    segments: Seq<Segment>,
    terms: Seq<Seq<char>>,
    si: int,
    d: u32,
) -> bool {
    &&& 0 <= si < segments.len()
    &&& !bit(segments[si].deleted@, d as int)
    &&& exists|j: int|
        0 <= j < segment_models(segments, si, terms).len() && #[trigger] block_max_wand::holds(
            segment_models(segments, si, terms)[j],
            d,
        )
}

/// The score of document `d` of segment `si`.
pub open spec fn segment_score(
    segments: Seq<Segment>,
    terms: Seq<Seq<char>>,
    si: int,
    d: u32,
) -> nat {
    block_max_wand::score_of(
        segment_models(segments, si, terms),
        segments[si].index.lens(),
        d,
    )
}

/// The document is among the hits, or there are `k` hits that rank before it.
pub open spec fn hit_or_beaten(
    hits: Seq<SegmentHit>,
    k: nat,
    si: int,
    d: u32,
    score: nat,
) -> bool {
    ||| exists|i: int| 0 <= i < hits.len() && (#[trigger] hits[i]).segment == si && hits[i].doc_id == d
    ||| {
        &&& hits.len() == k
        &&& forall|i: int|
            0 <= i < hits.len() ==> ((#[trigger] hits[i]).score > score || (hits[i].score == score
                && (hits[i].segment < si || (hits[i].segment == si && hits[i].doc_id < d))))
    }
}

/// The hits are the best `k` matching documents over all segments.
pub open spec fn is_global_top_k(
    hits: Seq<SegmentHit>,
    segments: Seq<Segment>,
    terms: Seq<Seq<char>>,
    k: nat,
) -> bool {
    &&& hits.len() <= k
    &&& forall|i: int, j: int|
        0 <= i < j < hits.len() ==> ranks_before(#[trigger] hits[i], #[trigger] hits[j])
    &&& forall|i: int|
        0 <= i < hits.len() ==> {
            &&& segment_match(
                segments,
                terms,
                (#[trigger] hits[i]).segment as int,
                hits[i].doc_id,
            )
            &&& hits[i].score == segment_score(
                segments,
                terms,
                hits[i].segment as int,
                hits[i].doc_id,
            )
        }
    &&& forall|si: int, d: u32| #[trigger]
        segment_match(segments, terms, si, d) ==> hit_or_beaten(
            hits,
            k,
            si,
            d,
            segment_score(segments, terms, si, d),
        )
}

proof fn lemma_view_models(view: SegmentView, terms: Seq<Seq<char>>, positions: Seq<int>)
    ensures
        block_max_wand::models_at(&view, terms, positions) == seen_models(
            *view.segment,
            idf_views(view.idfs@),
            view.avg_doc_len,
            terms,
            positions,
        ),
    decreases positions.len(),
{
    if positions.len() > 0 {
        lemma_view_models(view, terms, positions.drop_last());
    }
}

/// Distinct numbers below `n` are at most `n`.
proof fn lemma_pigeonhole(s: Seq<int>, n: int)
    requires
        0 <= n,
        s.no_duplicates(),
        forall|i: int| 0 <= i < s.len() ==> 0 <= #[trigger] s[i] < n,
    ensures
        s.len() <= n,
    decreases n,
{
    if s.len() > 0 {
        if n > 0 {
            if s.contains(n - 1) {
                let at = s.index_of(n - 1);
                let t = s.remove(at);
                assert forall|i: int| 0 <= i < t.len() implies 0 <= #[trigger] t[i] < n - 1 by {
                    if i < at {
                        assert(t[i] == s[i]);
                        assert(s[i] != s[at]);
                    } else {
                        assert(t[i] == s[i + 1]);
                        assert(s[i + 1] != s[at]);
                    }
                }
                assert(t.no_duplicates()) by {
                    assert forall|i: int, j: int|
                        0 <= i < t.len() && 0 <= j < t.len() && i != j implies t[i] != t[j] by {
                        let a = if i < at {
                            i
                        } else {
                            i + 1
                        };
                        let b = if j < at {
                            j
                        } else {
                            j + 1
                        };
                        assert(s[a] != s[b]);
                    }
                }
                lemma_pigeonhole(t, n - 1);
            } else {
                assert forall|i: int| 0 <= i < s.len() implies 0 <= #[trigger] s[i] < n - 1 by {
                    if s[i] == n - 1 {
                        assert(s.contains(n - 1));
                    }
                }
                lemma_pigeonhole(s, n - 1);
            }
        } else {
            assert(s[0] < 0);
        }
    }
}

/// The hits of one segment, tagged with it.
spec fn tagged(hits: Seq<SearchHit>, si: usize) -> Seq<SegmentHit> {
    Seq::new(
        hits.len(),
        |i: int| SegmentHit { segment: si, doc_id: hits[i].doc_id, score: hits[i].score },
    )
}

/// `all` gathers, segment by segment, the best `k` of each of the first `n`.
spec fn gathered(
    all: Seq<SegmentHit>,
    segments: Seq<Segment>,
    terms: Seq<Seq<char>>,
    k: nat,
    n: int,
) -> bool {
    &&& forall|i: int|
        0 <= i < all.len() ==> {
            &&& (#[trigger] all[i]).segment < n
            &&& segment_match(segments, terms, all[i].segment as int, all[i].doc_id)
            &&& all[i].score == segment_score(
                segments,
                terms,
                all[i].segment as int,
                all[i].doc_id,
            )
        }
    &&& forall|i: int, j: int|
        0 <= i < j < all.len() ==> (#[trigger] all[i]).segment != (#[trigger] all[j]).segment
            || all[i].doc_id != all[j].doc_id
    &&& forall|si: int, d: u32|
        si < n && #[trigger] segment_match(segments, terms, si, d) ==> held_or_beaten(
            all,
            segments,
            terms,
            k,
            si,
            d,
        )
}

/// The document is in `all`, or `k` documents of its segment there rank
/// before it.
spec fn held_or_beaten(
    all: Seq<SegmentHit>,
    segments: Seq<Segment>,
    terms: Seq<Seq<char>>,
    k: nat,
    si: int,
    d: u32,
) -> bool {
    ||| exists|i: int| 0 <= i < all.len() && (#[trigger] all[i]).segment == si && all[i].doc_id == d
    ||| exists|at: int| #[trigger]
        block_beats(all, at, k, si, d, segment_score(segments, terms, si, d))
}

/// `k` hits of segment `si` stand from `at` on and rank before `d`.
spec fn block_beats(
    all: Seq<SegmentHit>,
    at: int,
    k: nat,
    si: int,
    d: u32,
    score: nat,
) -> bool {
    &&& 0 <= at
    &&& at + k <= all.len()
    &&& forall|i: int|
        at <= i < at + k ==> (#[trigger] all[i]).segment == si && (all[i].score > score || (
        all[i].score == score && all[i].doc_id < d))
}

proof fn lemma_gather_step(
    before: Seq<SegmentHit>,
    hits: Seq<SearchHit>,
    segments: Seq<Segment>,
    terms: Seq<Seq<char>>,
    k: nat,
    si: usize,
)
    requires
        si < segments.len(),
        gathered(before, segments, terms, k, si as int),
        block_max_wand::is_top_k(
            hits,
            segment_models(segments, si as int, terms),
            segments[si as int].index.lens(),
            |d: u32| bit(segments[si as int].deleted@, d as int),
            k,
        ),
    ensures
        gathered(before + tagged(hits, si), segments, terms, k, si + 1),
{
    let new = tagged(hits, si);
    let all = before + new;
    let models = segment_models(segments, si as int, terms);
    let lens = segments[si as int].index.lens();
    let dead = |d: u32| bit(segments[si as int].deleted@, d as int);
    assert forall|i: int| 0 <= i < all.len() implies {
        &&& (#[trigger] all[i]).segment < si + 1
        &&& segment_match(segments, terms, all[i].segment as int, all[i].doc_id)
        &&& all[i].score == segment_score(segments, terms, all[i].segment as int, all[i].doc_id)
    } by {
        if i < before.len() {
            assert(all[i] == before[i]);
        } else {
            let h = hits[i - before.len()];
            assert(block_max_wand::matches_query(models, dead, h.doc_id));
            let j = choose|j: int|
                0 <= j < models.len() && #[trigger] block_max_wand::holds(models[j], h.doc_id);
            assert(block_max_wand::holds(segment_models(segments, si as int, terms)[j], h.doc_id));
        }
    }
    assert forall|i: int, j: int| 0 <= i < j < all.len() implies (#[trigger] all[i]).segment != (
    #[trigger] all[j]).segment || all[i].doc_id != all[j].doc_id by {
        if j < before.len() {
            assert(before[i].segment != before[j].segment || before[i].doc_id != before[j].doc_id);
        } else if i < before.len() {
            assert(before[i].segment < si);
        } else {
            assert(block_max_wand::better(hits[i - before.len()], hits[j - before.len()]));
            if all[i].doc_id == all[j].doc_id {
                let a = hits[i - before.len()];
                let b = hits[j - before.len()];
                assert(a.score == b.score);
            }
        }
    }
    assert forall|s: int, d: u32|
        s < si + 1 && #[trigger] segment_match(segments, terms, s, d) implies held_or_beaten(
        all,
        segments,
        terms,
        k,
        s,
        d,
    ) by {
        if s < si {
            assert(held_or_beaten(before, segments, terms, k, s, d));
            if exists|i: int|
                0 <= i < before.len() && (#[trigger] before[i]).segment == s && before[i].doc_id
                    == d {
                let i = choose|i: int|
                    0 <= i < before.len() && (#[trigger] before[i]).segment == s
                        && before[i].doc_id == d;
                assert(all[i] == before[i]);
            } else {
                let sc = segment_score(segments, terms, s, d);
                let at = choose|at: int| #[trigger] block_beats(before, at, k, s, d, sc);
                assert forall|i: int| at <= i < at + k implies (#[trigger] all[i]).segment == s
                    && (all[i].score > sc || (all[i].score == sc && all[i].doc_id < d)) by {
                    assert(all[i] == before[i]);
                }
                assert(block_beats(all, at, k, s, d, sc));
            }
        } else {
            assert(block_max_wand::matches_query(models, dead, d));
            assert(block_max_wand::covered(hits, models, lens, k, d));
            if exists|i: int| 0 <= i < hits.len() && (#[trigger] hits[i]).doc_id == d {
                let i = choose|i: int| 0 <= i < hits.len() && (#[trigger] hits[i]).doc_id == d;
                assert(all[before.len() + i].doc_id == d);
            } else {
                let sc = segment_score(segments, terms, s, d);
                let at = before.len() as int;
                assert(block_max_wand::loses(hits, sc, k, d));
                assert forall|i: int| at <= i < at + k implies (#[trigger] all[i]).segment == s
                    && (all[i].score > sc || (all[i].score == sc && all[i].doc_id < d)) by {
                    assert(all[i] == new[i - at]);
                    assert(hits[i - at].score >= sc);
                }
                assert(block_beats(all, at, k, s, d, sc));
            }
        }
    }
}

/// Sorting what was gathered and keeping the first `k` leaves the best `k`.
proof fn lemma_best_of_gathered(
    all: Seq<SegmentHit>,
    by_rank: Seq<usize>,
    hits: Seq<SegmentHit>,
    segments: Seq<Segment>,
    terms: Seq<Seq<char>>,
    k: nat,
)
    requires
        gathered(all, segments, terms, k, segments.len() as int),
        order::covers(by_rank, 0, all.len() as int),
        all.len() <= usize::MAX,
        forall|i: int, j: int|
            0 <= i < j < by_rank.len() ==> ranks_before(
                all[#[trigger] by_rank[i] as int],
                all[#[trigger] by_rank[j] as int],
            ),
        hits.len() == if k < all.len() {
            k
        } else {
            all.len()
        },
        forall|i: int| 0 <= i < hits.len() ==> #[trigger] hits[i] == all[by_rank[i] as int],
    ensures
        is_global_top_k(hits, segments, terms, k),
{
    assert forall|si: int, d: u32| #[trigger] segment_match(
        segments,
        terms,
        si,
        d,
    ) implies hit_or_beaten(hits, k, si, d, segment_score(segments, terms, si, d)) by {
        let sc = segment_score(segments, terms, si, d);
        assert(held_or_beaten(all, segments, terms, k, si, d));
        if exists|i: int|
            0 <= i < all.len() && (#[trigger] all[i]).segment == si && all[i].doc_id == d {
            let i = choose|i: int|
                0 <= i < all.len() && (#[trigger] all[i]).segment == si && all[i].doc_id == d;
            assert(by_rank.contains(i as usize));
            let r = choose|r: int| 0 <= r < by_rank.len() && by_rank[r] == i as usize;
            if r < hits.len() {
                assert(hits[r] == all[i]);
            } else {
                assert forall|x: int| 0 <= x < hits.len() implies ((#[trigger] hits[x]).score > sc
                    || (hits[x].score == sc && (hits[x].segment < si || (hits[x].segment == si
                    && hits[x].doc_id < d)))) by {
                    assert(ranks_before(all[by_rank[x] as int], all[by_rank[r] as int]));
                }
            }
        } else {
            let at = choose|at: int| #[trigger] block_beats(all, at, k, si, d, sc);
            assert forall|x: int| 0 <= x < hits.len() implies ((#[trigger] hits[x]).score > sc || (
            hits[x].score == sc && (hits[x].segment < si || (hits[x].segment == si && hits[x].doc_id
                < d)))) by {
                lemma_ranked_within(all, by_rank, at, k, si, d, sc, x);
            }
        }
    }
}

/// A hit among the first `k` ranks before whatever `k` hits rank before.
proof fn lemma_ranked_within(
    all: Seq<SegmentHit>,
    by_rank: Seq<usize>,
    at: int,
    k: nat,
    si: int,
    d: u32,
    sc: nat,
    x: int,
)
    requires
        order::covers(by_rank, 0, all.len() as int),
        all.len() <= usize::MAX,
        forall|i: int, j: int|
            0 <= i < j < by_rank.len() ==> ranks_before(
                all[#[trigger] by_rank[i] as int],
                all[#[trigger] by_rank[j] as int],
            ),
        block_beats(all, at, k, si, d, sc),
        0 <= x < k,
        x < all.len(),
    ensures
        ({
            let h = all[by_rank[x] as int];
            h.score > sc || (h.score == sc && (h.segment < si || (h.segment == si && h.doc_id < d)))
        }),
{
    let h = all[by_rank[x] as int];
    if !(h.score > sc || (h.score == sc && (h.segment < si || (h.segment == si && h.doc_id < d)))) {
        // All `k` hits would have to stand before position `x`.
        let place = |i: int| choose|r: int| 0 <= r < by_rank.len() && by_rank[r] == i as usize;
        let ranks = Seq::new(k, |i: int| place(at + i));
        assert forall|i: int| 0 <= i < k implies 0 <= #[trigger] ranks[i] < x && by_rank[ranks[i]]
            == at + i by {
            let p = at + i;
            assert(by_rank.contains(p as usize));
            let r = ranks[i];
            assert(0 <= r < by_rank.len() && by_rank[r] == p as usize);
            assert(all[p].segment == si);
            if r > x {
                assert(ranks_before(all[by_rank[x] as int], all[by_rank[r] as int]));
            }
        }
        assert(ranks.no_duplicates()) by {
            assert forall|i: int, j: int|
                0 <= i < ranks.len() && 0 <= j < ranks.len() && i != j implies ranks[i]
                != ranks[j] by {
                assert(by_rank[ranks[i]] == at + i);
                assert(by_rank[ranks[j]] == at + j);
            }
        }
        lemma_pigeonhole(ranks, x);
    }
}

/// Queries with at least this many distinct terms are evaluated by MaxScore.
pub const MAXSCORE_MIN_TERMS: usize = 5;

/// How a query of `n` terms is evaluated.
pub open spec fn pruning_for(n: nat) -> Pruning {
    if n >= MAXSCORE_MIN_TERMS {
        Pruning::MaxScore
    } else {
        Pruning::Wand
    }
}

/// A query against one segment.
pub open spec fn segment_query(
    segments: Seq<Segment>,
    si: int,
    terms: Seq<Seq<char>>,
    k: nat,
) -> Query {
    Query {
        models: segment_models(segments, si, terms),
        lens: segments[si].index.lens(),
        dead: |d: u32| bit(segments[si].deleted@, d as int),
        block_size: segments[si].index.block_len(),
        k,
        pruning: pruning_for(terms.len()),
    }
}

/// The work of a query in the first `n` segments.
pub open spec fn segments_work(
    segments: Seq<Segment>,
    terms: Seq<Seq<char>>,
    k: nat,
    n: int,
) -> Work
    decreases n,
{
    if n <= 0 {
        work::idle()
    } else {
        let w = segments_work(segments, terms, k, n - 1);
        let v = work::work_of(segment_query(segments, n - 1, terms, k));
        Work {
            postings: w.postings + v.postings,
            blocks: w.blocks + v.blocks,
            skipped: w.skipped + v.skipped,
            scored: w.scored + v.scored,
        }
    }
}

fn saturating(a: usize, b: usize) -> (c: usize)
    ensures
        c == if a + b > usize::MAX {
            usize::MAX as int
        } else {
            a + b
        },
{
    a.saturating_add(b)
}

impl SegmentedIndex {
    /// The weight of each term that occurs in some segment.
    fn weigh(&self, terms: &Vec<String>, num_docs: usize) -> (idfs: Vec<(String, u32)>)
        requires
            self.wf(),
            num_docs == live_docs(self.segments@),
        ensures
            idf_views(idfs@) == query_weights(self.segments@, block_max_wand::texts(terms@)),
            forall|i: int| 0 <= i < idfs@.len() ==> (#[trigger] idfs@[i]).1 <= bm25::MAX_IDF,
    {
        let ghost all = block_max_wand::texts(terms@);
        let mut idfs: Vec<(String, u32)> = Vec::new();
        let mut i: usize = 0;
        assert(all.take(0) =~= Seq::<Seq<char>>::empty());
        assert(idf_views(idfs@) =~= Seq::<(Seq<char>, u32)>::empty());
        while i < terms.len()
            invariant
                self.wf(),
                num_docs == live_docs(self.segments@),
                all == block_max_wand::texts(terms@),
                i <= terms@.len(),
                idf_views(idfs@) == query_weights(self.segments@, all.take(i as int)),
                forall|i: int| 0 <= i < idfs@.len() ==> (#[trigger] idfs@[i]).1 <= bm25::MAX_IDF,
            decreases terms@.len() - i,
        {
            let ghost before = idf_views(idfs@);
            proof {
                assert(all.take(i + 1).drop_last() =~= all.take(i as int));
                assert(all.take(i + 1).last() == terms@[i as int]@);
            }
            let df: u64 = self.term_df(terms[i].as_str());
            if df > 0 {
                let w: u32 = if df <= num_docs as u64 {
                    bm25::idf(num_docs, df as usize)
                } else {
                    1
                };
                proof {
                    bm25::law_idf_bounded(num_docs as nat, df as nat);
                }
                idfs.push((terms[i].clone(), w));
                assert(idf_views(idfs@) =~= before.push((terms@[i as int]@, w)));
            }
            i += 1;
        }
        assert(all.take(i as int) =~= all);
        idfs
    }

    /// Exact top-k over all segments under global statistics. `terms` are
    /// the tokens of the query.
    pub fn search_core(&self, terms: &Vec<String>, k: usize) -> (r: (Vec<SegmentHit>, SearchStats))
        requires
            self.wf(),
        ensures
            is_global_top_k(
                r.0@,
                self.segments@,
                block_max_wand::texts(terms@),
                k as nat,
            ),
            r.1.num_docs_total == live_docs(self.segments@),
            r.1.num_query_terms == terms@.len(),
            work::counts(
                r.1,
                segments_work(
                    self.segments@,
                    block_max_wand::texts(terms@),
                    k as nat,
                    self.segments@.len() as int,
                ),
            ),
            block_max_wand::worked_for(r.1, r.0@.len()),
    {
        let (num_docs, avg) = self.global_stats();
        let idfs = self.weigh(terms, num_docs);
        let ghost texts = block_max_wand::texts(terms@);
        let mut stats = SearchStats::default();
        stats.num_docs_total = num_docs;
        stats.num_query_terms = terms.len();
        let mut all: Vec<SegmentHit> = Vec::new();
        let mut si: usize = 0;
        while si < self.segments.len()
            invariant
                self.wf(),
                texts == block_max_wand::texts(terms@),
                idf_views(idfs@) == query_weights(self.segments@, texts),
                forall|i: int| 0 <= i < idfs@.len() ==> (#[trigger] idfs@[i]).1 <= bm25::MAX_IDF,
                avg == global_avg(self.segments@),
                avg > 0,
                si <= self.segments@.len(),
                gathered(all@, self.segments@, texts, k as nat, si as int),
                stats.num_docs_total == live_docs(self.segments@),
                stats.num_query_terms == terms@.len(),
                work::counts(stats, segments_work(self.segments@, texts, k as nat, si as int)),
                block_max_wand::worked_for(stats, all@.len()),
            decreases self.segments@.len() - si,
        {
            assert(self.segments@[si as int].wf(self.title_weight as nat));
            let view = SegmentView { segment: &self.segments[si], avg_doc_len: avg, idfs: &idfs };
            let (hits, seg_stats) = if terms.len() >= MAXSCORE_MIN_TERMS {
                maxscore::search(&view, terms.as_slice(), k)
            } else {
                block_max_wand::search(&view, terms.as_slice(), k)
            };
            proof {
                lemma_view_models(view, texts, block_max_wand::firsts(texts));
                assert(block_max_wand::query_models(&view, texts) == segment_models(
                    self.segments@,
                    si as int,
                    texts,
                ));
                let dead = |d: u32| bit(self.segments@[si as int].deleted@, d as int);
                assert(block_max_wand::dead_of(&view) =~= dead);
                assert(block_max_wand::query_of(
                    &view,
                    texts,
                    k as nat,
                    pruning_for(texts.len()),
                ) == segment_query(self.segments@, si as int, texts, k as nat));
                lemma_gather_step(
                    all@,
                    hits@,
                    self.segments@,
                    texts,
                    k as nat,
                    si,
                );
            }
            let ghost before = all@;
            let mut i: usize = 0;
            assert(all@ =~= before + tagged(hits@, si).take(0));
            while i < hits.len()
                invariant
                    i <= hits@.len(),
                    all@ == before + tagged(hits@, si).take(i as int),
                decreases hits@.len() - i,
            {
                all.push(SegmentHit { segment: si, doc_id: hits[i].doc_id, score: hits[i].score });
                assert(all@ =~= before + tagged(hits@, si).take(i + 1));
                i += 1;
            }
            assert(tagged(hits@, si).take(i as int) =~= tagged(hits@, si));
            let _gathered: usize = all.len();
            assert(_gathered == before.len() + hits@.len());
            stats.num_postings_visited = saturating(
                stats.num_postings_visited,
                seg_stats.num_postings_visited,
            );
            stats.num_docs_scored = saturating(stats.num_docs_scored, seg_stats.num_docs_scored);
            stats.num_blocks_visited = saturating(
                stats.num_blocks_visited,
                seg_stats.num_blocks_visited,
            );
            stats.num_blocks_skipped = saturating(
                stats.num_blocks_skipped,
                seg_stats.num_blocks_skipped,
            );
            si += 1;
        }
        let n: usize = all.len();
        let ghost less = |a: int, b: int| ranks_before(all@[a], all@[b]);
        let before = |a: usize, b: usize| -> (r: bool)
            requires
                a < n && b < n,
                n == all@.len(),
            ensures
                r == ranks_before(all@[a as int], all@[b as int]),
            {
                let x: SegmentHit = all[a];
                let y: SegmentHit = all[b];
                x.score > y.score || (x.score == y.score && (x.segment < y.segment || (x.segment
                    == y.segment && x.doc_id < y.doc_id)))
            };
        proof {
            assert(order::strict_total(less, n as int)) by {
                assert forall|a: int, b: int| 0 <= a < n && 0 <= b < n && a != b implies (
                #[trigger] less(a, b) <==> !less(b, a)) by {
                    if a < b {
                        assert(all@[a].segment != all@[b].segment || all@[a].doc_id
                            != all@[b].doc_id);
                    } else {
                        assert(all@[b].segment != all@[a].segment || all@[b].doc_id
                            != all@[a].doc_id);
                    }
                }
            }
        }
        let by_rank = order::sort_indices(n, &before, Ghost(less));
        let m: usize = if k < n { k } else { n };
        let mut out: Vec<SegmentHit> = Vec::new();
        let mut i: usize = 0;
        while i < m
            invariant
                m <= n,
                n == all@.len(),
                by_rank@.len() == n,
                forall|j: int| 0 <= j < n ==> #[trigger] by_rank@[j] < n,
                i <= m,
                out@.len() == i,
                forall|j: int| 0 <= j < i ==> #[trigger] out@[j] == all@[by_rank@[j] as int],
            decreases m - i,
        {
            out.push(all[by_rank[i]]);
            i += 1;
        }
        proof {
            assert forall|i: int, j: int| 0 <= i < j < by_rank@.len() implies ranks_before(
                all@[#[trigger] by_rank@[i] as int],
                all@[#[trigger] by_rank@[j] as int],
            ) by {
                assert(less(by_rank@[i] as int, by_rank@[j] as int));
            }
            lemma_best_of_gathered(all@, by_rank@, out@, self.segments@, texts, k as nat);
        }
        (out, stats)
    }
}

// ---------------------------------------------------------------------------
// Adding
// ---------------------------------------------------------------------------

/// Why a change to the index is refused.
#[derive(Clone, Copy, PartialEq, Eq, Structural, Debug)]
pub enum SegmentError {
    /// There is nothing to add.
    NoDocuments,
}

/// `n` in decimal, filled up with zeros to `width` digits.
pub open spec fn padded(n: nat, width: nat) -> Seq<char> {
    let digits = text::decimal(n);
    if digits.len() < width {
        Seq::new((width - digits.len()) as nat, |i: int| '0') + digits
    } else {
        digits
    }
}

/// The name of the `n`-th segment.
pub open spec fn segment_text(n: nat) -> Seq<char> {
    "seg-"@ + padded(n, 6)
}

fn segment_name(n: u64) -> (name: String)
    ensures
        name@ == segment_text(n as nat),
{
    let mut digits: Vec<char> = Vec::new();
    text::push_decimal(&mut digits, n);
    assert(digits@ =~= text::decimal(n as nat));
    let mut out = text::chars_of("seg-");
    let ghost head = out@;
    let mut i: usize = digits.len();
    let ghost zeros = Seq::new(
        (if digits@.len() < 6 {
            6 - digits@.len()
        } else {
            0
        }) as nat,
        |i: int| '0',
    );
    assert(out@ =~= head + zeros.take(0));
    while i < 6
        invariant
            digits@.len() <= i,
            i <= 6 || i == digits@.len(),
            zeros == Seq::new(
                (if digits@.len() < 6 {
                    6 - digits@.len()
                } else {
                    0
                }) as nat,
                |i: int| '0',
            ),
            out@ == head + zeros.take(i - digits@.len()),
        decreases 6 - i,
    {
        out.push('0');
        i += 1;
        assert(out@ =~= head + zeros.take(i - digits@.len()));
    }
    assert(zeros.take(i - digits@.len()) =~= zeros);
    text::append(&mut out, digits.as_slice());
    assert(out@ =~= segment_text(n as nat));
    text::string_of(out.as_slice())
}

proof fn lemma_tf_fits(doc: TokenModel, weight: nat, t: Seq<char>)
    requires
        weight * doc.title.len() + doc.body.len() <= u32::MAX,
    ensures
        indexer::folded_tf(doc, weight, t) <= u32::MAX,
{
    indexer::lemma_occurrences_bound(doc.title, t);
    indexer::lemma_occurrences_bound(doc.body, t);
    let o = indexer::occurrences(doc.title, t);
    let n = doc.title.len();
    assert(weight * o <= weight * n) by (nonlinear_arith)
        requires
            o <= n,
    ;
}

/// Without tombstones every document is live.
proof fn lemma_all_live(lens: Seq<u32>, n: int)
    requires
        0 <= n <= lens.len(),
    ensures
        live_count(Seq::<u64>::empty(), n) == n,
        live_total(lens, Seq::<u64>::empty(), n) == sums::total(|d: int| lens[d] as nat, n as nat),
    decreases n,
{
    if n > 0 {
        lemma_all_live(lens, n - 1);
        assert(!bit(Seq::<u64>::empty(), n - 1));
    }
}

/// The documents at `positions`.
pub open spec fn picked(docs: Seq<DocTokens>, positions: Seq<usize>) -> Seq<TokenModel> {
    Seq::new(positions.len(), |i: int| docs[positions[i] as int]@)
}

/// A segment of the documents at `positions`.
pub open spec fn is_fresh(
    seg: Segment,
    docs: Seq<DocTokens>,
    positions: Seq<usize>,
    number: nat,
) -> bool {
    &&& seg.name@ == segment_text(number)
    &&& seg.tokens@ == picked(docs, positions)
    &&& seg.deleted@.len() == 0
    &&& seg.index.docs@.len() == positions.len()
    &&& forall|i: int|
        0 <= i < positions.len() ==> indexer::is_meta(
            #[trigger] seg.index.docs@[i],
            docs[positions[i] as int].doc,
            docs[positions[i] as int]@,
        )
}

impl SegmentedIndex {
    /// The documents fit beside those already there.
    pub open spec fn has_room(&self, docs: Seq<TokenModel>) -> bool {
        &&& self.next_segment < u64::MAX
        &&& self.segments@.len() < u32::MAX
        &&& live_docs(self.segments@) + docs.len() <= u32::MAX
        &&& live_len(self.segments@) + indexer::total_len(docs) <= u64::MAX
        &&& indexer::batch_fits(docs, 0, Seq::empty(), self.title_weight as nat)
    }

    /// Add the documents at `positions` as one new segment.
    fn add_selected(&mut self, docs: &[DocTokens], positions: &Vec<usize>) -> (name: String)
        requires
            old(self).wf(),
            forall|i: int| 0 <= i < positions@.len() ==> #[trigger] positions@[i] < docs@.len(),
            old(self).has_room(picked(docs@, positions@)),
        ensures
            final(self).wf(),
            name@ == segment_text(old(self).next_segment as nat),
            final(self).segments@.len() == old(self).segments@.len() + 1,
            final(self).segments@.drop_last() == old(self).segments@,
            is_fresh(
                final(self).segments@.last(),
                docs@,
                positions@,
                old(self).next_segment as nat,
            ),
            final(self).next_segment == old(self).next_segment + 1,
            final(self).remove_stopwords == old(self).remove_stopwords,
            final(self).title_weight == old(self).title_weight,
            final(self).code_mode == old(self).code_mode,
    {
        let ghost before = *self;
        let ghost w = self.title_weight as nat;
        let ghost all = picked(docs@, positions@);
        let name = segment_name(self.next_segment);
        let mut builder = IndexBuilder::new(
            self.remove_stopwords,
            self.title_weight,
            postings::DEFAULT_BLOCK_SIZE,
            ReorderStrategy::Keep,
        );
        let mut i: usize = 0;
        assert(builder.tokens@ =~= all.take(0));
        while i < positions.len()
            invariant
                all == picked(docs@, positions@),
                indexer::batch_fits(all, 0, Seq::empty(), w),
                forall|i: int| 0 <= i < positions@.len() ==> #[trigger] positions@[i] < docs@.len(),
                i <= positions@.len(),
                builder.wf(),
                builder.title_weight == w,
                builder.reorder == ReorderStrategy::Keep,
                builder.docs@.len() == i,
                builder.tokens@ == all.take(i as int),
                forall|j: int|
                    0 <= j < i ==> indexer::is_meta(
                        (#[trigger] builder.docs@[j]).meta,
                        docs@[positions@[j] as int].doc,
                        docs@[positions@[j] as int]@,
                    ),
            decreases positions@.len() - i,
        {
            let ghost b0 = builder;
            let at: usize = positions[i];
            assert(positions@[i as int] == at);
            proof {
                assert(all[i as int] == docs@[at as int]@);
                assert(all.take(i + 1).drop_last() =~= all.take(i as int));
                indexer::lemma_noted_all_grows(Seq::empty(), all, i + 1);
            }
            builder.add_document(&docs[at]);
            proof {
                assert(all.take(i + 1) =~= all.take(i as int).push(all[i as int]));
                assert forall|j: int| 0 <= j < i + 1 implies indexer::is_meta(
                    (#[trigger] builder.docs@[j]).meta,
                    docs@[positions@[j] as int].doc,
                    docs@[positions@[j] as int]@,
                ) by {
                    if j < i {
                        assert(builder.docs@.drop_last()[j] == b0.docs@[j]);
                    }
                }
            }
            i += 1;
        }
        assert(all.take(i as int) =~= all);
        let order = builder.arrange();
        let ghost made = builder.docs@;
        let index = builder.finish_ordered(order);
        proof {
            assert(order::arranged(all, order@) =~= all);
            assert(order::arranged(indexer::metas_of(made), order@) =~= indexer::metas_of(made));
        }
        let none: Vec<u64> = Vec::new();
        let (live_docs_here, live_len_here) = recount_live(&index, none.as_slice());
        let seg = Segment {
            name: text::string_of(text::chars_of(name.as_str()).as_slice()),
            index,
            deleted: none,
            live_docs: live_docs_here,
            live_len: live_len_here,
            tokens: Ghost(all),
        };
        proof {
            let n = all.len() as int;
            assert forall|d: int| 0 <= d < n implies #[trigger] seg.index.docs@[d].doc_len
                == indexer::token_len(all[d]) by {
                assert(seg.index.docs@[d] == made[d].meta);
                assert(indexer::is_meta(
                    made[d].meta,
                    docs@[positions@[d] as int].doc,
                    docs@[positions@[d] as int]@,
                ));
            }
            assert forall|t: Seq<char>, d: int| 0 <= d < n implies #[trigger] indexer::folded_tf(
                all[d],
                w,
                t,
            ) <= u32::MAX by {
                assert(w * all[d].title.len() + all[d].body.len() <= u32::MAX);
                lemma_tf_fits(all[d], w, t);
            }
            assert(none@ =~= Seq::<u64>::empty());
            lemma_all_live(seg.index.lens(), n);
            sums::lemma_total_eq(
                |d: int| seg.index.lens()[d] as nat,
                indexer::lens_fn(all),
                n as nat,
            );
            assert(seg.live_len == indexer::total_len(all));
            assert(seg.wf(w));
        }
        self.segments.push(seg);
        self.next_segment = self.next_segment + 1;
        proof {
            let old_segs = before.segments@;
            let new_segs = self.segments@;
            assert(new_segs.drop_last() =~= old_segs);
            sums::lemma_total_eq(live_fn(new_segs), live_fn(old_segs), old_segs.len());
            sums::lemma_total_eq(live_len_fn(new_segs), live_len_fn(old_segs), old_segs.len());
            assert(live_docs(new_segs) == live_docs(old_segs) + all.len());
            assert(live_len(new_segs) == live_len(old_segs) + indexer::total_len(all));
            assert forall|i: int| 0 <= i < new_segs.len() implies (#[trigger] new_segs[i]).wf(w) by {
                if i < old_segs.len() {
                    assert(new_segs[i] == old_segs[i]);
                }
            }
        }
        name
    }

    /// Add a batch of documents as one new segment.
    pub fn add_documents(&mut self, docs: &[DocTokens]) -> (r: Result<String, SegmentError>)
        requires
            old(self).wf(),
            old(self).has_room(indexer::doc_views(docs@)),
        ensures
            final(self).wf(),
            r is Err <==> docs@.len() == 0,
            r is Err ==> *final(self) == *old(self),
            r matches Ok(name) ==> {
                &&& name@ == segment_text(old(self).next_segment as nat)
                &&& final(self).segments@.len() == old(self).segments@.len() + 1
                &&& final(self).segments@.drop_last() == old(self).segments@
                &&& is_fresh(
                    final(self).segments@.last(),
                    docs@,
                    Seq::new(docs@.len(), |i: int| i as usize),
                    old(self).next_segment as nat,
                )
                &&& final(self).next_segment == old(self).next_segment + 1
            },
            final(self).remove_stopwords == old(self).remove_stopwords,
            final(self).title_weight == old(self).title_weight,
            final(self).code_mode == old(self).code_mode,
    {
        let n: usize = docs.len();
        if n == 0 {
            return Err(SegmentError::NoDocuments);
        }
        let mut positions: Vec<usize> = Vec::new();
        let mut i: usize = 0;
        while i < n
            invariant
                i <= n,
                positions@.len() == i,
                forall|j: int| 0 <= j < i ==> #[trigger] positions@[j] == j,
            decreases n - i,
        {
            positions.push(i);
            i += 1;
        }
        proof {
            assert(positions@ =~= Seq::new(docs@.len(), |i: int| i as usize));
            assert(picked(docs@, positions@) =~= indexer::doc_views(docs@));
        }
        Ok(self.add_selected(docs, &positions))
    }
}

// ---------------------------------------------------------------------------
// Deleting
// ---------------------------------------------------------------------------

/// The first document, from `d` on, with the external id `id`.
pub open spec fn doc_with_id(docs: Seq<indexer::DocMeta>, id: Seq<char>, d: int) -> Option<int>
    decreases docs.len() - d,
{
    if d >= docs.len() {
        None
    } else if docs[d].external_id@ == id {
        Some(d)
    } else {
        doc_with_id(docs, id, d + 1)
    }
}

proof fn lemma_doc_with_id(docs: Seq<indexer::DocMeta>, id: Seq<char>, d: int)
    requires
        0 <= d,
    ensures
        doc_with_id(docs, id, d) matches Some(x) ==> d <= x < docs.len() && docs[x].external_id@ == id,
    decreases docs.len() - d,
{
    if d < docs.len() && docs[d].external_id@ != id {
        lemma_doc_with_id(docs, id, d + 1);
    }
}

/// The document with an external id in an index.
pub fn find_by_external_id(index: &Index, id: &str) -> (r: Option<u32>)
    requires
        index.wf(),
    ensures
        r matches Some(d) ==> doc_with_id(index.docs@, id@, 0) == Some(d as int) && d
            < index.docs@.len(),
        r is None ==> doc_with_id(index.docs@, id@, 0) is None,
{
    let chars = text::chars_of(id);
    let wanted = text::string_of(chars.as_slice());
    let n: usize = index.docs.len();
    let mut d: usize = 0;
    while d < n
        invariant
            n == index.docs@.len(),
            n <= u32::MAX,
            wanted@ == id@,
            d <= n,
            doc_with_id(index.docs@, id@, 0) == doc_with_id(index.docs@, id@, d as int),
        decreases n - d,
    {
        if index.docs[d].external_id == wanted {
            return Some(d as u32);
        }
        d += 1;
    }
    None
}

/// The live document with an external id in one segment.
pub open spec fn live_in(seg: Segment, id: Seq<char>) -> Option<int> {
    match doc_with_id(seg.index.docs@, id, 0) {
        Some(d) => if bit(seg.deleted@, d) {
            None
        } else {
            Some(d)
        },
        None => None,
    }
}

/// The first segment, from `si` on, with a live document of this external
/// id, and the document.
pub open spec fn live_doc(segments: Seq<Segment>, id: Seq<char>, si: int) -> Option<(int, int)>
    decreases segments.len() - si,
{
    if si >= segments.len() {
        None
    } else {
        match live_in(segments[si], id) {
            Some(d) => Some((si, d)),
            None => live_doc(segments, id, si + 1),
        }
    }
}

proof fn lemma_live_doc(segments: Seq<Segment>, id: Seq<char>, si: int)
    requires
        0 <= si,
    ensures
        live_doc(segments, id, si) matches Some(p) ==> {
            &&& si <= p.0 < segments.len()
            &&& 0 <= p.1 < segments[p.0].index.docs@.len()
            &&& segments[p.0].index.docs@[p.1].external_id@ == id
            &&& !bit(segments[p.0].deleted@, p.1)
        },
    decreases segments.len() - si,
{
    if si < segments.len() {
        lemma_doc_with_id(segments[si].index.docs@, id, 0);
        if live_in(segments[si], id) is None {
            lemma_live_doc(segments, id, si + 1);
        }
    }
}

/// The segments differ in tombstones only, and have these.
pub open spec fn same_but_bits(a: Segment, b: Segment) -> bool {
    &&& b.name == a.name
    &&& b.index == a.index
    &&& b.tokens == a.tokens
}

/// Setting a live bit takes one document off.
proof fn lemma_live_after(lens: Seq<u32>, a: Seq<u64>, b: Seq<u64>, d: int, n: int)
    requires
        0 <= d,
        0 <= n <= lens.len(),
        !bit(a, d),
        forall|e: int| 0 <= e ==> #[trigger] bit(b, e) == (bit(a, e) || e == d),
    ensures
        d < n ==> live_count(b, n) + 1 == live_count(a, n),
        d < n ==> live_total(lens, b, n) + lens[d] == live_total(lens, a, n),
        d >= n ==> live_count(b, n) == live_count(a, n),
        d >= n ==> live_total(lens, b, n) == live_total(lens, a, n),
    decreases n,
{
    if n > 0 {
        lemma_live_after(lens, a, b, d, n - 1);
        assert(bit(b, n - 1) == (bit(a, n - 1) || n - 1 == d));
    }
}

impl Segment {
    /// Tombstone a live document.
    fn bury(&mut self, doc_id: u32, Ghost(weight): Ghost<nat>)
        requires
            old(self).wf(weight),
            doc_id < old(self).index.docs@.len(),
            !bit(old(self).deleted@, doc_id as int),
        ensures
            final(self).wf(weight),
            same_but_bits(*old(self), *final(self)),
            final(self).live_docs + 1 == old(self).live_docs,
            final(self).live_len <= old(self).live_len,
            forall|e: int|
                0 <= e ==> #[trigger] bit(final(self).deleted@, e) == (bit(old(self).deleted@, e) || e
                    == doc_id),
    {
        let ghost before = *self;
        let n: usize = self.index.docs.len();
        let need: usize = ((n as u64 + 63) / 64) as usize;
        while self.deleted.len() < need
            invariant
                before.wf(weight),
                same_but_bits(before, *self),
                self.live_docs == before.live_docs,
                self.live_len == before.live_len,
                need == words_for(n as int),
                forall|e: int|
                    0 <= e ==> #[trigger] bit(self.deleted@, e) == bit(before.deleted@, e),
            decreases need - self.deleted@.len(),
        {
            let ghost words = self.deleted@;
            self.deleted.push(0);
            assert forall|e: int| 0 <= e implies #[trigger] bit(self.deleted@, e) == bit(
                before.deleted@,
                e,
            ) by {
                assert(bit(words, e) == bit(before.deleted@, e));
                if e / 64 == words.len() {
                    let b = (e % 64) as u64;
                    assert((0u64 >> b) & 1 == 0) by (bit_vector);
                }
            }
        }
        set_bit(&mut self.deleted, doc_id);
        proof {
            lemma_live_after(
                self.index.lens(),
                before.deleted@,
                self.deleted@,
                doc_id as int,
                n as int,
            );
            assert(self.index.lens()[doc_id as int] == self.index.docs@[doc_id as int].doc_len);
        }
        self.live_docs = self.live_docs - 1;
        self.live_len = self.live_len - self.index.docs[doc_id as usize].doc_len as u64;
    }
}

/// Document `d` of segment `si` is tombstoned in `b` iff it was in `a` or
/// some of `ids` names it.
pub open spec fn buried(
    a: Seq<Segment>,
    b: Seq<Segment>,
    ids: Seq<Seq<char>>,
) -> bool {
    &&& a.len() == b.len()
    &&& forall|si: int| 0 <= si < a.len() ==> same_but_bits(#[trigger] a[si], b[si])
    &&& forall|si: int, d: int|
        #![trigger bit(b[si].deleted@, d)]
        0 <= si < a.len() && 0 <= d ==> bit(b[si].deleted@, d) == (bit(a[si].deleted@, d)
            || is_target(a, ids, si, d))
}

pub open spec fn is_target(a: Seq<Segment>, ids: Seq<Seq<char>>, si: int, d: int) -> bool {
    exists|j: int|
        0 <= j < ids.len() && live_doc(a, #[trigger] ids[j], 0) == Some((si, d))
}

/// How many distinct texts among `ids` name a live document.
pub open spec fn target_count(a: Seq<Segment>, ids: Seq<Seq<char>>) -> nat
    decreases ids.len(),
{
    if ids.len() == 0 {
        0
    } else {
        let front = ids.drop_last();
        if live_doc(a, ids.last(), 0) is Some && !front.contains(ids.last()) {
            target_count(a, front) + 1
        } else {
            target_count(a, front)
        }
    }
}

/// What burying the documents of other ids leaves of an id.
proof fn lemma_live_doc_after(
    a: Seq<Segment>,
    b: Seq<Segment>,
    ids: Seq<Seq<char>>,
    id: Seq<char>,
    si: int,
)
    requires
        buried(a, b, ids),
        !ids.contains(id),
        0 <= si,
    ensures
        live_doc(b, id, si) == live_doc(a, id, si),
    decreases a.len() - si,
{
    if si < a.len() {
        lemma_live_doc_after(a, b, ids, id, si + 1);
        assert(same_but_bits(a[si], b[si]));
        lemma_doc_with_id(a[si].index.docs@, id, 0);
        if let Some(d) = doc_with_id(a[si].index.docs@, id, 0) {
            assert(bit(b[si].deleted@, d) == bit(a[si].deleted@, d)) by {
                if is_target(a, ids, si, d) {
                    let j = choose|j: int|
                        0 <= j < ids.len() && live_doc(a, #[trigger] ids[j], 0) == Some((si, d));
                    lemma_live_doc(a, ids[j], 0);
                    assert(ids[j] == id);
                    assert(ids.contains(id));
                }
            }
        }
    }
}

impl SegmentedIndex {
    /// Tombstone the live document with an external id, in the first segment
    /// that has one. Returns whether there was one.
    pub fn delete_document(&mut self, external_id: &str) -> (found: bool)
        requires
            old(self).wf(),
        ensures
            final(self).wf(),
            found <==> live_doc(old(self).segments@, external_id@, 0) is Some,
            buried(old(self).segments@, final(self).segments@, seq![external_id@]),
            final(self).next_segment == old(self).next_segment,
            final(self).remove_stopwords == old(self).remove_stopwords,
            final(self).title_weight == old(self).title_weight,
            final(self).code_mode == old(self).code_mode,
    {
        let ghost before = *self;
        let ghost w = self.title_weight as nat;
        let n: usize = self.segments.len();
        let mut si: usize = 0;
        while si < n
            invariant
                n == self.segments@.len(),
                self.wf(),
                *self == before,
                before == *old(self),
                w == self.title_weight,
                si <= n,
                live_doc(before.segments@, external_id@, 0) == live_doc(
                    before.segments@,
                    external_id@,
                    si as int,
                ),
            decreases n - si,
        {
            assert(self.segments@[si as int].wf(w));
            if let Some(d) = find_by_external_id(&self.segments[si].index, external_id) {
                if !self.segments[si].is_deleted(d) {
                    self.segments[si].bury(d, Ghost(w));
                    proof {
                        let a = before.segments@;
                        let b = self.segments@;
                        assert forall|x: int| 0 <= x < a.len() implies same_but_bits(
                            #[trigger] a[x],
                            b[x],
                        ) by {}
                        assert forall|x: int, e: int|
                            #![trigger bit(b[x].deleted@, e)]
                            0 <= x < a.len() && 0 <= e implies bit(b[x].deleted@, e) == (bit(
                            a[x].deleted@,
                            e,
                        ) || is_target(a, seq![external_id@], x, e)) by {
                            let one = seq![external_id@];
                            assert(one[0] == external_id@);
                            if x == si && e == d {
                                assert(is_target(a, one, x, e));
                            } else {
                                assert(!is_target(a, one, x, e));
                            }
                        }
                        assert forall|x: int| 0 <= x < b.len() implies (#[trigger] b[x]).wf(w) by {
                            if x != si {
                                assert(b[x] == a[x]);
                            }
                        }
                        assert forall|x: int| 0 <= x < a.len() implies #[trigger] live_fn(b)(x)
                            <= live_fn(a)(x) by {}
                        assert forall|x: int| 0 <= x < a.len() implies #[trigger] live_len_fn(b)(x)
                            <= live_len_fn(a)(x) by {}
                        sums::lemma_total_le(live_fn(b), live_fn(a), a.len());
                        sums::lemma_total_le(live_len_fn(b), live_len_fn(a), a.len());
                    }
                    return true;
                }
            }
            si += 1;
        }
        proof {
            let a = before.segments@;
            let one = seq![external_id@];
            assert forall|x: int, e: int|
                #![trigger bit(a[x].deleted@, e)]
                0 <= x < a.len() && 0 <= e implies !is_target(a, one, x, e) by {}
        }
        false
    }

    /// Tombstone the documents with these external ids, one for each
    /// distinct id. Returns how many there were.
    pub fn delete_documents(&mut self, external_ids: &[String]) -> (deleted: usize)
        requires
            old(self).wf(),
        ensures
            final(self).wf(),
            deleted == target_count(
                old(self).segments@,
                block_max_wand::texts(external_ids@),
            ),
            buried(
                old(self).segments@,
                final(self).segments@,
                block_max_wand::texts(external_ids@),
            ),
            final(self).next_segment == old(self).next_segment,
            final(self).remove_stopwords == old(self).remove_stopwords,
            final(self).title_weight == old(self).title_weight,
            final(self).code_mode == old(self).code_mode,
    {
        let ghost start = self.segments@;
        let ghost all = block_max_wand::texts(external_ids@);
        let n: usize = external_ids.len();
        let mut deleted: usize = 0;
        let mut i: usize = 0;
        proof {
            assert(all.take(0) =~= Seq::<Seq<char>>::empty());
            assert(buried(start, self.segments@, all.take(0))) by {
                assert forall|si: int, d: int| !is_target(start, all.take(0), si, d) by {}
            }
        }
        while i < n
            invariant
                n == external_ids@.len(),
                all == block_max_wand::texts(external_ids@),
                self.wf(),
                i <= n,
                deleted <= i,
                deleted == target_count(start, all.take(i as int)),
                buried(start, self.segments@, all.take(i as int)),
                self.next_segment == old(self).next_segment,
                self.remove_stopwords == old(self).remove_stopwords,
                self.title_weight == old(self).title_weight,
                self.code_mode == old(self).code_mode,
            decreases n - i,
        {
            let ghost done = all.take(i as int);
            let ghost next = all.take(i + 1);
            let ghost id = all[i as int];
            let ghost mid = self.segments@;
            proof {
                assert(next.drop_last() =~= done);
                assert(next.last() == id);
                assert(next =~= done.push(id));
            }
            // An id that came before has had its document tombstoned.
            let mut repeated: bool = false;
            let mut j: usize = 0;
            while j < i && !repeated
                invariant
                    i < n,
                    n == external_ids@.len(),
                    all == block_max_wand::texts(external_ids@),
                    id == all[i as int],
                    done == all.take(i as int),
                    j <= i,
                    repeated ==> done.contains(id),
                    !repeated ==> forall|x: int| 0 <= x < j ==> #[trigger] all[x] != id,
                decreases i - j, !repeated as int,
            {
                assert(all[j as int] == external_ids@[j as int]@);
                assert(done[j as int] == all[j as int]);
                if external_ids[j] == external_ids[i] {
                    repeated = true;
                } else {
                    j += 1;
                }
            }
            if !repeated {
                proof {
                    assert(!done.contains(id)) by {
                        if done.contains(id) {
                            let x = choose|x: int| 0 <= x < done.len() && done[x] == id;
                            assert(all[x] != id);
                        }
                    }
                    lemma_live_doc_after(start, mid, done, id, 0);
                }
                if self.delete_document(external_ids[i].as_str()) {
                    deleted += 1;
                }
                proof {
                    lemma_buried_step(start, mid, self.segments@, done, id);
                }
            } else {
                proof {
                    lemma_buried_repeat(start, mid, done, id);
                }
            }
            i += 1;
        }
        assert(all.take(i as int) =~= all);
        deleted
    }
}

proof fn lemma_buried_step(
    a: Seq<Segment>,
    b: Seq<Segment>,
    c: Seq<Segment>,
    ids: Seq<Seq<char>>,
    id: Seq<char>,
)
    requires
        buried(a, b, ids),
        buried(b, c, seq![id]),
        live_doc(b, id, 0) == live_doc(a, id, 0),
    ensures
        buried(a, c, ids.push(id)),
{
    let more = ids.push(id);
    assert forall|si: int| 0 <= si < a.len() implies same_but_bits(#[trigger] a[si], c[si]) by {
        assert(same_but_bits(b[si], c[si]));
    }
    assert forall|si: int, d: int|
        #![trigger bit(c[si].deleted@, d)]
        0 <= si < a.len() && 0 <= d implies bit(c[si].deleted@, d) == (bit(a[si].deleted@, d)
        || is_target(a, more, si, d)) by {
        assert(bit(b[si].deleted@, d) == (bit(a[si].deleted@, d) || is_target(a, ids, si, d)));
        assert(bit(c[si].deleted@, d) == (bit(b[si].deleted@, d) || is_target(
            b,
            seq![id],
            si,
            d,
        )));
        if is_target(a, ids, si, d) {
            let j = choose|j: int|
                0 <= j < ids.len() && live_doc(a, #[trigger] ids[j], 0) == Some((si, d));
            assert(more[j] == ids[j]);
        }
        if is_target(b, seq![id], si, d) {
            assert(more[ids.len() as int] == id);
        }
        if is_target(a, more, si, d) {
            let j = choose|j: int|
                0 <= j < more.len() && live_doc(a, #[trigger] more[j], 0) == Some((si, d));
            if j < ids.len() {
                assert(ids[j] == more[j]);
            } else {
                assert(seq![id][0] == id);
            }
        }
    }
}

proof fn lemma_buried_repeat(a: Seq<Segment>, b: Seq<Segment>, ids: Seq<Seq<char>>, id: Seq<char>)
    requires
        buried(a, b, ids),
        ids.contains(id),
    ensures
        buried(a, b, ids.push(id)),
{
    let more = ids.push(id);
    let at = choose|j: int| 0 <= j < ids.len() && ids[j] == id;
    assert forall|si: int, d: int|
        #![trigger bit(b[si].deleted@, d)]
        0 <= si < a.len() && 0 <= d implies bit(b[si].deleted@, d) == (bit(a[si].deleted@, d)
        || is_target(a, more, si, d)) by {
        if is_target(a, ids, si, d) {
            let j = choose|j: int|
                0 <= j < ids.len() && live_doc(a, #[trigger] ids[j], 0) == Some((si, d));
            assert(more[j] == ids[j]);
        }
        if is_target(a, more, si, d) {
            let j = choose|j: int|
                0 <= j < more.len() && live_doc(a, #[trigger] more[j], 0) == Some((si, d));
            if j < ids.len() {
                assert(ids[j] == more[j]);
            } else {
                assert(ids[at] == id);
            }
        }
    }
}

// ---------------------------------------------------------------------------
// Upserting
// ---------------------------------------------------------------------------

/// The ids of documents.
pub open spec fn doc_ids(docs: Seq<DocTokens>) -> Seq<Seq<char>> {
    Seq::new(docs.len(), |i: int| docs[i].doc.id@)
}

/// No later document of the batch has the id of the `i`-th.
pub open spec fn is_last(ids: Seq<Seq<char>>, i: int) -> bool {
    forall|j: int| i < j < ids.len() ==> #[trigger] ids[j] != ids[i]
}

/// What is to be done with a document.
pub enum Change {
    /// A later document of the batch replaces it.
    Superseded,
    /// There is no live document with its id.
    Added,
    /// The live document with its id has other content.
    Updated,
    /// The live document with its id has the same content.
    Unchanged,
}

/// The content hash of a document.
pub open spec fn hash_of(doc: indexer::InputDoc) -> u64 {
    crate::hash::fnv1a_spec(indexer::content_bytes(doc.title@, doc.body@))
}

/// What is to be done with the `i`-th document of a batch.
pub open spec fn change_of(segments: Seq<Segment>, docs: Seq<DocTokens>, i: int) -> Change {
    if !is_last(doc_ids(docs), i) {
        Change::Superseded
    } else {
        match live_doc(segments, docs[i].doc.id@, 0) {
            None => Change::Added,
            Some(p) => if segments[p.0].index.docs@[p.1].content_hash == hash_of(docs[i].doc) {
                Change::Unchanged
            } else {
                Change::Updated
            },
        }
    }
}

/// The documents to be written: new and changed ones, in order.
pub open spec fn to_write(segments: Seq<Segment>, docs: Seq<DocTokens>, n: int) -> Seq<usize>
    decreases n,
{
    if n <= 0 {
        Seq::empty()
    } else {
        let front = to_write(segments, docs, n - 1);
        match change_of(segments, docs, n - 1) {
            Change::Added => front.push((n - 1) as usize),
            Change::Updated => front.push((n - 1) as usize),
            _ => front,
        }
    }
}

/// The ids whose documents are replaced.
pub open spec fn to_bury(segments: Seq<Segment>, docs: Seq<DocTokens>, n: int) -> Seq<Seq<char>>
    decreases n,
{
    if n <= 0 {
        Seq::empty()
    } else {
        let front = to_bury(segments, docs, n - 1);
        match change_of(segments, docs, n - 1) {
            Change::Updated => front.push(docs[n - 1].doc.id@),
            _ => front,
        }
    }
}

/// How many of the first `n` documents are added, updated and unchanged.
pub open spec fn tally(segments: Seq<Segment>, docs: Seq<DocTokens>, n: int) -> (nat, nat, nat)
    decreases n,
{
    if n <= 0 {
        (0, 0, 0)
    } else {
        let (a, u, s) = tally(segments, docs, n - 1);
        match change_of(segments, docs, n - 1) {
            Change::Added => (a + 1, u, s),
            Change::Updated => (a, u + 1, s),
            Change::Unchanged => (a, u, s + 1),
            Change::Superseded => (a, u, s),
        }
    }
}

/// Outcome of an upsert: counts, and the segment that the new and changed
/// documents went to, with their positions in the batch.
pub struct UpsertOutcome {
    pub added: usize,
    pub updated: usize,
    pub unchanged: usize,
    pub new_segment: Option<(String, Vec<usize>)>,
}

/// The batch was taken up: the replaced documents are tombstoned, and the
/// new and changed ones, if there are any, are one new segment.
pub open spec fn upserted(a: SegmentedIndex, b: SegmentedIndex, docs: Seq<DocTokens>) -> bool {
    let written = to_write(a.segments@, docs, docs.len() as int);
    let gone = to_bury(a.segments@, docs, docs.len() as int);
    if written.len() == 0 {
        &&& buried(a.segments@, b.segments@, gone)
        &&& b.next_segment == a.next_segment
    } else {
        &&& b.segments@.len() == a.segments@.len() + 1
        &&& buried(a.segments@, b.segments@.drop_last(), gone)
        &&& is_fresh(b.segments@.last(), docs, written, a.next_segment as nat)
        &&& b.next_segment == a.next_segment + 1
    }
}

proof fn lemma_to_write(segments: Seq<Segment>, docs: Seq<DocTokens>, n: int)
    requires
        0 <= n <= docs.len() <= usize::MAX,
    ensures
        to_write(segments, docs, n).len() <= n,
        forall|i: int|
            #![trigger to_write(segments, docs, n)[i]]
            0 <= i < to_write(segments, docs, n).len() ==> to_write(segments, docs, n)[i] < n,
    decreases n,
{
    if n > 0 {
        lemma_to_write(segments, docs, n - 1);
    }
}

impl SegmentedIndex {
    /// The content hash of the live document with an external id.
    fn live_hash(&self, id: &str) -> (h: Option<u64>)
        requires
            self.wf(),
        ensures
            match live_doc(self.segments@, id@, 0) {
                Some(p) => h == Some(self.segments@[p.0].index.docs@[p.1].content_hash),
                None => h is None,
            },
    {
        let n: usize = self.segments.len();
        let mut si: usize = 0;
        while si < n
            invariant
                n == self.segments@.len(),
                self.wf(),
                si <= n,
                live_doc(self.segments@, id@, 0) == live_doc(self.segments@, id@, si as int),
            decreases n - si,
        {
            assert(self.segments@[si as int].wf(self.title_weight as nat));
            if let Some(d) = find_by_external_id(&self.segments[si].index, id) {
                if !self.segments[si].is_deleted(d) {
                    return Some(self.segments[si].index.docs[d as usize].content_hash);
                }
            }
            si += 1;
        }
        None
    }

    /// Is there no later document with the same id?
    fn last_of_id(docs: &[DocTokens], i: usize) -> (r: bool)
        requires
            i < docs@.len(),
        ensures
            r == is_last(doc_ids(docs@), i as int),
    {
        let n: usize = docs.len();
        let mut j: usize = i + 1;
        while j < n
            invariant
                n == docs@.len(),
                i < j <= n,
                forall|x: int| i < x < j ==> #[trigger] doc_ids(docs@)[x] != doc_ids(docs@)[i as int],
            decreases n - j,
        {
            if docs[j].doc.id == docs[i].doc.id {
                assert(doc_ids(docs@)[j as int] == doc_ids(docs@)[i as int]);
                return false;
            }
            j += 1;
        }
        true
    }

    /// Upsert a batch with change detection. Documents whose live content is
    /// the same are left alone, changed ones replaced, new ones added.
    /// Within the batch the last document of an id counts.
    pub fn upsert_documents_full(&mut self, docs: &[DocTokens]) -> (out: UpsertOutcome)
        requires
            old(self).wf(),
            old(self).has_room(
                picked(
                    docs@,
                    to_write(old(self).segments@, docs@, docs@.len() as int),
                ),
            ),
        ensures
            final(self).wf(),
            (out.added as nat, out.updated as nat, out.unchanged as nat) == tally(
                old(self).segments@,
                docs@,
                docs@.len() as int,
            ),
            upserted(*old(self), *final(self), docs@),
            out.new_segment is Some <==> to_write(
                old(self).segments@,
                docs@,
                docs@.len() as int,
            ).len() > 0,
            out.new_segment matches Some(s) ==> s.0@ == segment_text(
                old(self).next_segment as nat,
            ) && s.1@ == to_write(old(self).segments@, docs@, docs@.len() as int),
            final(self).remove_stopwords == old(self).remove_stopwords,
            final(self).title_weight == old(self).title_weight,
            final(self).code_mode == old(self).code_mode,
    {
        let n: usize = docs.len();
        let ghost segs = self.segments@;
        let mut added: usize = 0;
        let mut updated: usize = 0;
        let mut unchanged: usize = 0;
        let mut write: Vec<usize> = Vec::new();
        let mut bury: Vec<String> = Vec::new();
        let mut i: usize = 0;
        assert(block_max_wand::texts(bury@) =~= Seq::<Seq<char>>::empty());
        while i < n
            invariant
                n == docs@.len(),
                self.wf(),
                *self == *old(self),
                segs == self.segments@,
                i <= n,
                added + updated + unchanged <= i,
                (added as nat, updated as nat, unchanged as nat) == tally(segs, docs@, i as int),
                write@ == to_write(segs, docs@, i as int),
                block_max_wand::texts(bury@) == to_bury(segs, docs@, i as int),
            decreases n - i,
        {
            let ghost bury0 = block_max_wand::texts(bury@);
            if Self::last_of_id(docs, i) {
                let new_hash: u64 = indexer::content_hash(
                    docs[i].doc.title.as_str(),
                    docs[i].doc.body.as_str(),
                );
                match self.live_hash(docs[i].doc.id.as_str()) {
                    Some(stored) => {
                        if stored == new_hash {
                            unchanged += 1;
                        } else {
                            bury.push(docs[i].doc.id.clone());
                            write.push(i);
                            updated += 1;
                            assert(block_max_wand::texts(bury@) =~= bury0.push(
                                docs@[i as int].doc.id@,
                            ));
                        }
                    },
                    None => {
                        write.push(i);
                        added += 1;
                    },
                }
            }
            i += 1;
        }
        proof {
            lemma_to_write(segs, docs@, n as int);
        }
        let gone: usize = self.delete_documents(bury.as_slice());
        let ghost mid = *self;
        if write.len() == 0 {
            return UpsertOutcome { added, updated, unchanged, new_segment: None };
        }
        proof {
            lemma_live_shrinks(segs, mid.segments@, self.title_weight as nat);
        }
        let name = self.add_selected(docs, &write);
        UpsertOutcome { added, updated, unchanged, new_segment: Some((name, write)) }
    }

    /// As [`Self::upsert_documents_full`], with the counts only.
    pub fn upsert_documents(&mut self, docs: &[DocTokens]) -> (r: (usize, usize, usize))
        requires
            old(self).wf(),
            old(self).has_room(
                picked(
                    docs@,
                    to_write(old(self).segments@, docs@, docs@.len() as int),
                ),
            ),
        ensures
            final(self).wf(),
            (r.0 as nat, r.1 as nat, r.2 as nat) == tally(
                old(self).segments@,
                docs@,
                docs@.len() as int,
            ),
            upserted(*old(self), *final(self), docs@),
    {
        let out = self.upsert_documents_full(docs);
        (out.added, out.updated, out.unchanged)
    }
}

/// Burying documents leaves no more of them alive.
proof fn lemma_live_shrinks(a: Seq<Segment>, b: Seq<Segment>, weight: nat)
    requires
        a.len() == b.len(),
        forall|i: int| 0 <= i < a.len() ==> (#[trigger] a[i]).wf(weight),
        forall|i: int| 0 <= i < b.len() ==> (#[trigger] b[i]).wf(weight),
        forall|i: int| 0 <= i < a.len() ==> same_but_bits(#[trigger] a[i], b[i]),
        forall|si: int, d: int|
            #![trigger bit(b[si].deleted@, d)]
            0 <= si < a.len() && 0 <= d && bit(a[si].deleted@, d) ==> bit(b[si].deleted@, d),
    ensures
        live_docs(b) <= live_docs(a),
        live_len(b) <= live_len(a),
{
    assert forall|i: int| 0 <= i < a.len() implies #[trigger] live_fn(b)(i) <= live_fn(a)(i)
        && live_len_fn(b)(i) <= live_len_fn(a)(i) by {
        assert(a[i].wf(weight) && b[i].wf(weight));
        assert(same_but_bits(a[i], b[i]));
        lemma_fewer_live(
            a[i].index.lens(),
            a[i].deleted@,
            b[i].deleted@,
            a[i].index.docs@.len() as int,
        );
    }
    assert forall|i: int| 0 <= i < a.len() implies #[trigger] live_len_fn(b)(i) <= live_len_fn(a)(
        i,
    ) by {
        assert(live_fn(b)(i) <= live_fn(a)(i));
    }
    sums::lemma_total_le(live_fn(b), live_fn(a), a.len());
    sums::lemma_total_le(live_len_fn(b), live_len_fn(a), a.len());
}

proof fn lemma_fewer_live(lens: Seq<u32>, a: Seq<u64>, b: Seq<u64>, n: int)
    requires
        forall|d: int| 0 <= d && bit(a, d) ==> #[trigger] bit(b, d),
    ensures
        live_count(b, n) <= live_count(a, n),
        live_total(lens, b, n) <= live_total(lens, a, n),
    decreases n,
{
    if n > 0 {
        lemma_fewer_live(lens, a, b, n - 1);
        if bit(a, n - 1) {
            assert(bit(b, n - 1));
        }
    }
}

/// The documents that are written are no longer together than the batch.
proof fn lemma_written_len(segments: Seq<Segment>, docs: Seq<DocTokens>, n: int)
    requires
        0 <= n <= docs.len() <= usize::MAX,
    ensures
        sums::total(
            indexer::lens_fn(picked(docs, to_write(segments, docs, n))),
            to_write(segments, docs, n).len(),
        ) <= sums::total(indexer::lens_fn(indexer::doc_views(docs)), n as nat),
    decreases n,
{
    if n > 0 {
        lemma_written_len(segments, docs, n - 1);
        lemma_to_write(segments, docs, n - 1);
        let front = to_write(segments, docs, n - 1);
        let all = to_write(segments, docs, n);
        let f = indexer::lens_fn(picked(docs, front));
        let g = indexer::lens_fn(picked(docs, all));
        assert forall|i: int| 0 <= i < front.len() implies #[trigger] f(i) == g(i) by {
            assert(all[i] == front[i]);
        }
        sums::lemma_total_eq(f, g, front.len());
        assert(indexer::lens_fn(indexer::doc_views(docs))(n - 1) == indexer::token_len(
            docs[n - 1]@,
        ));
        if all.len() > front.len() {
            assert(g(front.len() as int) == indexer::token_len(docs[n - 1]@));
        }
    }
}

/// Where there is room for a whole batch, there is room for what an upsert
/// writes of it once documents were tombstoned.
pub proof fn lemma_room_after_burying(
    a: SegmentedIndex,
    b: SegmentedIndex,
    ids: Seq<Seq<char>>,
    docs: Seq<DocTokens>,
)
    requires
        a.wf(),
        b.wf(),
        buried(a.segments@, b.segments@, ids),
        a.next_segment == b.next_segment,
        a.title_weight == b.title_weight,
        docs.len() <= usize::MAX,
        a.has_room(indexer::doc_views(docs)),
    ensures
        b.has_room(picked(docs, to_write(b.segments@, docs, docs.len() as int))),
{
    let n = docs.len() as int;
    let written = to_write(b.segments@, docs, n);
    lemma_live_shrinks(a.segments@, b.segments@, a.title_weight as nat);
    lemma_to_write(b.segments@, docs, n);
    lemma_written_len(b.segments@, docs, n);
    let views = indexer::doc_views(docs);
    assert forall|i: int| 0 <= i < picked(docs, written).len() implies views.contains(
        #[trigger] picked(docs, written)[i],
    ) by {
        assert(written[i] < n);
        assert(views[written[i] as int] == picked(docs, written)[i]);
    }
    indexer::lemma_fewer_words(picked(docs, written), views);
    assert forall|i: int| 0 <= i < picked(docs, written).len() implies a.title_weight as nat * (
    #[trigger] picked(docs, written)[i]).title.len() + picked(docs, written)[i].body.len()
        <= u32::MAX by {
        assert(written[i] < n);
        assert(indexer::doc_views(docs)[written[i] as int] == picked(docs, written)[i]);
    }
}

/// A batch that is already there is left alone: nothing is written and no
/// document is tombstoned.
pub proof fn law_unchanged_batch_is_a_no_op(
    segments: Seq<Segment>,
    docs: Seq<DocTokens>,
    after: Seq<Segment>,
)
    requires
        forall|i: int|
            0 <= i < docs.len() ==> #[trigger] change_of(segments, docs, i) is Unchanged
                || change_of(segments, docs, i) is Superseded,
        buried(segments, after, to_bury(segments, docs, docs.len() as int)),
    ensures
        to_write(segments, docs, docs.len() as int).len() == 0,
        forall|si: int, d: int|
            #![trigger bit(after[si].deleted@, d)]
            0 <= si < segments.len() && 0 <= d ==> bit(after[si].deleted@, d) == bit(
                segments[si].deleted@,
                d,
            ),
{
    lemma_nothing_to_do(segments, docs, docs.len() as int);
}

/// No document of the batch is alive under its id in two segments.
pub open spec fn once_alive(segments: Seq<Segment>, docs: Seq<DocTokens>) -> bool {
    forall|i: int|
        0 <= i < docs.len() ==> (live_doc(segments, (#[trigger] docs[i]).doc.id@, 0) matches Some(p)
            ==> live_doc(segments, docs[i].doc.id@, p.0 + 1) is None)
}

/// Right after an upsert every document of the batch is unchanged, or gave
/// way to a later one of the batch.
pub proof fn law_upserted_batch_is_unchanged(
    a: SegmentedIndex,
    b: SegmentedIndex,
    docs: Seq<DocTokens>,
    i: int,
)
    requires
        upserted(a, b, docs),
        once_alive(a.segments@, docs),
        0 <= i < docs.len() <= usize::MAX,
    ensures
        change_of(b.segments@, docs, i) is Unchanged || change_of(b.segments@, docs, i) is Superseded,
{
    let n = docs.len() as int;
    let (x, y) = (a.segments@, b.segments@);
    let written = to_write(x, docs, n);
    let gone = to_bury(x, docs, n);
    let ids = doc_ids(docs);
    let id = docs[i].doc.id@;
    assert(ids[i] == id);
    if is_last(ids, i) {
        lemma_written(x, docs, n, i);
        lemma_gone(x, docs, n, id);
        let mid = if written.len() == 0 {
            y
        } else {
            y.drop_last()
        };
        if change_of(x, docs, i) is Unchanged {
            assert(!gone.contains(id)) by {
                if gone.contains(id) {
                    let j = choose|j: int|
                        0 <= j < n && #[trigger] change_of(x, docs, j) is Updated
                            && docs[j].doc.id@ == id;
                    assert(ids[j] == id);
                    assert(j == i);
                }
            }
            lemma_live_doc_after(x, mid, gone, id, 0);
            lemma_live_doc(x, id, 0);
            if written.len() > 0 {
                assert(y =~= mid.push(y.last()));
                lemma_live_doc_push(mid, y.last(), id, 0);
            }
            let p = live_doc(x, id, 0).unwrap();
            assert(same_but_bits(x[p.0], mid[p.0]));
        } else {
            assert(written.contains(i as usize));
            assert(written.len() > 0);
            let f = y.last();
            assert(live_doc(mid, id, 0) is None) by {
                if change_of(x, docs, i) is Added {
                    assert(!gone.contains(id)) by {
                        if gone.contains(id) {
                            let j = choose|j: int|
                                0 <= j < n && #[trigger] change_of(x, docs, j) is Updated
                                    && docs[j].doc.id@ == id;
                            assert(ids[j] == id);
                            assert(j == i);
                        }
                    }
                    lemma_live_doc_after(x, mid, gone, id, 0);
                } else {
                    assert(change_of(x, docs, i) is Updated);
                    assert(gone.contains(id));
                    let p = live_doc(x, id, 0).unwrap();
                    lemma_live_doc(x, id, 0);
                    lemma_replaced(x, mid, gone, id, 0, p);
                }
            }
            assert(y =~= mid.push(f));
            lemma_live_doc_push(mid, f, id, 0);
            lemma_fresh_holds(x, f, docs, a.next_segment as nat, i);
        }
    }
}

/// Document `d` of segment `si` is alive and has the id `id`.
pub open spec fn alive(segments: Seq<Segment>, id: Seq<char>, si: int, d: int) -> bool {
    &&& 0 <= si < segments.len()
    &&& 0 <= d < segments[si].index.docs@.len()
    &&& segments[si].index.docs@[d].external_id@ == id
    &&& !bit(segments[si].deleted@, d)
}

/// Looking an id up finds every live document that has it: there is one at
/// most, and no dead one of its segment comes first.
pub open spec fn found_alive(segments: Seq<Segment>, id: Seq<char>) -> bool {
    forall|si: int, d: int| #[trigger]
        alive(segments, id, si, d) ==> live_doc(segments, id, 0) == Some((si, d))
}

/// The ids that an upsert counts: those of the documents that no later one of
/// the batch replaces.
spec fn counted_ids(ids: Seq<Seq<char>>, n: int) -> Seq<Seq<char>>
    decreases n,
{
    if n <= 0 {
        Seq::empty()
    } else if is_last(ids, n - 1) {
        counted_ids(ids, n - 1).push(ids[n - 1])
    } else {
        counted_ids(ids, n - 1)
    }
}

proof fn lemma_counted(segments: Seq<Segment>, docs: Seq<DocTokens>, n: int)
    requires
        0 <= n <= docs.len(),
    ensures
        ({
            let t = tally(segments, docs, n);
            t.0 + t.1 + t.2 == counted_ids(doc_ids(docs), n).len()
        }),
    decreases n,
{
    if n > 0 {
        lemma_counted(segments, docs, n - 1);
    }
}

proof fn lemma_counted_ids(ids: Seq<Seq<char>>, n: int)
    requires
        0 <= n <= ids.len(),
    ensures
        counted_ids(ids, n).no_duplicates(),
        forall|t: Seq<char>| #[trigger]
            counted_ids(ids, n).contains(t) <==> exists|i: int|
                0 <= i < n && #[trigger] ids[i] == t && is_last(ids, i),
    decreases n,
{
    if n > 0 {
        lemma_counted_ids(ids, n - 1);
        let front = counted_ids(ids, n - 1);
        let all = counted_ids(ids, n);
        let last = ids[n - 1];
        if is_last(ids, n - 1) {
            assert(!front.contains(last)) by {
                if front.contains(last) {
                    let i = choose|i: int|
                        0 <= i < n - 1 && #[trigger] ids[i] == last && is_last(ids, i);
                    assert(ids[n - 1] != ids[i]);
                }
            }
            assert forall|i: int, j: int|
                0 <= i < all.len() && 0 <= j < all.len() && i != j implies all[i] != all[j] by {
                if i == front.len() {
                    assert(front.contains(front[j]));
                } else if j == front.len() {
                    assert(front.contains(front[i]));
                }
            }
        }
        assert forall|t: Seq<char>| #[trigger] all.contains(t) <==> exists|i: int|
            0 <= i < n && #[trigger] ids[i] == t && is_last(ids, i) by {
            if all.contains(t) {
                let q = choose|q: int| 0 <= q < all.len() && all[q] == t;
                if q < front.len() {
                    assert(front.contains(front[q]));
                    let i = choose|i: int|
                        0 <= i < n - 1 && #[trigger] ids[i] == t && is_last(ids, i);
                    assert(ids[i] == t);
                } else {
                    assert(ids[n - 1] == t);
                }
            }
            if exists|i: int| 0 <= i < n && #[trigger] ids[i] == t && is_last(ids, i) {
                let i = choose|i: int| 0 <= i < n && #[trigger] ids[i] == t && is_last(ids, i);
                if i < n - 1 {
                    assert(front.contains(t));
                    let q = choose|q: int| 0 <= q < front.len() && front[q] == t;
                    assert(all[q] == t);
                } else {
                    assert(all[front.len() as int] == t);
                }
            }
        }
    }
}

/// Every id has a last document.
proof fn lemma_last_of_id(ids: Seq<Seq<char>>, i: int) -> (j: int)
    requires
        0 <= i < ids.len(),
    ensures
        i <= j < ids.len(),
        ids[j] == ids[i],
        is_last(ids, j),
    decreases ids.len() - i,
{
    if is_last(ids, i) {
        i
    } else {
        let j = choose|j: int| i < j < ids.len() && #[trigger] ids[j] == ids[i];
        lemma_last_of_id(ids, j)
    }
}

/// An upsert counts every distinct id of the batch once: as added, as updated
/// or as unchanged.
pub proof fn law_upsert_counts_every_id(segments: Seq<Segment>, docs: Seq<DocTokens>)
    ensures
        ({
            let t = tally(segments, docs, docs.len() as int);
            t.0 + t.1 + t.2 == doc_ids(docs).to_set().len()
        }),
{
    let n = docs.len() as int;
    let ids = doc_ids(docs);
    let all = counted_ids(ids, n);
    lemma_counted(segments, docs, n);
    lemma_counted_ids(ids, n);
    assert(all.to_set() =~= ids.to_set()) by {
        assert forall|t: Seq<char>| all.to_set().contains(t) <==> ids.to_set().contains(t) by {
            if all.contains(t) {
                let i = choose|i: int| 0 <= i < n && #[trigger] ids[i] == t && is_last(ids, i);
                assert(ids.contains(t));
            }
            if ids.contains(t) {
                let i = choose|i: int| 0 <= i < ids.len() && ids[i] == t;
                let j = lemma_last_of_id(ids, i);
                assert(ids[j] == t);
                assert(all.contains(t));
            }
        }
    }
    all.unique_seq_to_set();
}

/// What is written is written in order.
proof fn lemma_written_ascend(segments: Seq<Segment>, docs: Seq<DocTokens>, n: int)
    requires
        0 <= n <= docs.len() <= usize::MAX,
    ensures
        forall|p: int, q: int|
            0 <= p < q < to_write(segments, docs, n).len() ==> #[trigger] to_write(
                segments,
                docs,
                n,
            )[p] < #[trigger] to_write(segments, docs, n)[q],
    decreases n,
{
    if n > 0 {
        lemma_written_ascend(segments, docs, n - 1);
        lemma_to_write(segments, docs, n - 1);
        let front = to_write(segments, docs, n - 1);
        let all = to_write(segments, docs, n);
        assert forall|p: int, q: int| 0 <= p < q < all.len() implies #[trigger] all[p]
            < #[trigger] all[q] by {
            assert(all[p] == front[p]);
            if q < front.len() {
                assert(all[q] == front[q]);
            }
        }
    }
}

/// The document at position `d` of the new segment was written, and is new or
/// changed.
proof fn lemma_written_changes(segments: Seq<Segment>, docs: Seq<DocTokens>, n: int, q: int)
    requires
        0 <= n <= docs.len() <= usize::MAX,
        0 <= q < to_write(segments, docs, n).len(),
    ensures
        ({
            let w = to_write(segments, docs, n)[q] as int;
            &&& 0 <= w < n
            &&& change_of(segments, docs, w) is Added || change_of(segments, docs, w) is Updated
        }),
    decreases n,
{
    if n > 0 {
        let front = to_write(segments, docs, n - 1);
        if q < front.len() {
            lemma_written_changes(segments, docs, n - 1, q);
        }
    }
}

/// After an upsert each id of the batch is alive exactly once, with the
/// content of its last document in the batch; one that was new or changed is
/// stored as it was given.
pub proof fn law_upserted_ids_are_alive_once(
    a: SegmentedIndex,
    b: SegmentedIndex,
    docs: Seq<DocTokens>,
    i: int,
)
    requires
        upserted(a, b, docs),
        0 <= i < docs.len() <= usize::MAX,
        is_last(doc_ids(docs), i),
        forall|j: int|
            0 <= j < docs.len() ==> found_alive(a.segments@, (#[trigger] docs[j]).doc.id@),
    ensures
        found_alive(b.segments@, docs[i].doc.id@),
        live_doc(b.segments@, docs[i].doc.id@, 0) matches Some(p) && {
            let kept = b.segments@[p.0].index.docs@[p.1];
            &&& alive(b.segments@, docs[i].doc.id@, p.0, p.1)
            &&& kept.content_hash == hash_of(docs[i].doc)
            &&& !(change_of(a.segments@, docs, i) is Unchanged) ==> indexer::is_meta(
                kept,
                docs[i].doc,
                docs[i]@,
            )
        },
{
    let n = docs.len() as int;
    let (x, y) = (a.segments@, b.segments@);
    let written = to_write(x, docs, n);
    let gone = to_bury(x, docs, n);
    let ids = doc_ids(docs);
    let id = docs[i].doc.id@;
    assert(ids[i] == id);
    assert(once_alive(x, docs)) by {
        assert forall|j: int| 0 <= j < docs.len() implies (live_doc(
            x,
            (#[trigger] docs[j]).doc.id@,
            0,
        ) matches Some(p) ==> live_doc(x, docs[j].doc.id@, p.0 + 1) is None) by {
            let t = docs[j].doc.id@;
            assert(found_alive(x, t));
            lemma_live_doc(x, t, 0);
            if let Some(p) = live_doc(x, t, 0) {
                lemma_live_doc(x, t, p.0 + 1);
                if let Some(q) = live_doc(x, t, p.0 + 1) {
                    assert(alive(x, t, q.0, q.1));
                }
            }
        }
    }
    law_upserted_batch_is_unchanged(a, b, docs, i);
    lemma_live_doc(y, id, 0);
    let p = live_doc(y, id, 0).unwrap();
    assert(alive(y, id, p.0, p.1));
    let mid = if written.len() == 0 {
        y
    } else {
        y.drop_last()
    };
    assert(found_alive(x, docs[i].doc.id@));
    // What is alive among the old segments was there and did not change.
    assert forall|si: int, d: int| si < mid.len() && #[trigger] alive(y, id, si, d) implies live_doc(
        x,
        id,
        0,
    ) == Some((si, d)) && change_of(x, docs, i) is Unchanged by {
        assert(mid[si] == y[si]);
        assert(same_but_bits(x[si], mid[si]));
        assert(bit(mid[si].deleted@, d) == (bit(x[si].deleted@, d) || is_target(x, gone, si, d)));
        assert(alive(x, id, si, d));
        if change_of(x, docs, i) is Updated {
            lemma_gone(x, docs, n, id);
            assert(gone.contains(id));
            let j = choose|j: int| 0 <= j < gone.len() && gone[j] == id;
            assert(live_doc(x, gone[j], 0) == Some((si, d)));
        }
    }
    // What is alive in the new segment was written there.
    assert forall|si: int, d: int| si >= mid.len() && #[trigger] alive(y, id, si, d) implies
        written.len() > 0 && si == y.len() - 1 && 0 <= d < written.len() && written[d] == i
        && !(change_of(x, docs, i) is Unchanged) by {
        let f = y.last();
        assert(y[si] == f);
        lemma_written_changes(x, docs, n, d);
        lemma_written_last(x, docs, n, d);
        let w = written[d] as int;
        assert(indexer::is_meta(f.index.docs@[d], docs[w].doc, docs[w]@));
        assert(ids[w] == id);
        assert(w == i);
    }
    lemma_written_ascend(x, docs, n);
    assert forall|si: int, d: int| #[trigger] alive(y, id, si, d) implies live_doc(y, id, 0)
        == Some((si, d)) by {
        if si >= mid.len() {
            if p.1 < d {
                assert(written[p.1] < written[d]);
            } else if d < p.1 {
                assert(written[d] < written[p.1]);
            }
        }
    }
    if !(change_of(x, docs, i) is Unchanged) {
        assert(p.0 >= mid.len());
        let f = y.last();
        assert(indexer::is_meta(
            f.index.docs@[p.1],
            docs[written[p.1] as int].doc,
            docs[written[p.1] as int]@,
        ));
    }
}

/// An upserted batch, upserted again, is unchanged as a whole: nothing is
/// written and nothing tombstoned.
pub proof fn law_second_upsert_changes_nothing(
    a: SegmentedIndex,
    b: SegmentedIndex,
    c: SegmentedIndex,
    docs: Seq<DocTokens>,
)
    requires
        docs.len() <= usize::MAX,
        upserted(a, b, docs),
        upserted(b, c, docs),
        once_alive(a.segments@, docs),
    ensures
        tally(b.segments@, docs, docs.len() as int) == (
            0nat,
            0nat,
            doc_ids(docs).to_set().len(),
        ),
        c.segments@.len() == b.segments@.len(),
        c.next_segment == b.next_segment,
        forall|si: int, d: int|
            #![trigger bit(c.segments@[si].deleted@, d)]
            0 <= si < b.segments@.len() && 0 <= d ==> bit(c.segments@[si].deleted@, d) == bit(
                b.segments@[si].deleted@,
                d,
            ),
        forall|si: int|
            0 <= si < b.segments@.len() ==> same_but_bits(#[trigger] b.segments@[si], c.segments@[si]),
{
    let n = docs.len() as int;
    assert forall|i: int| 0 <= i < docs.len() implies #[trigger] change_of(b.segments@, docs, i)
        is Unchanged || change_of(b.segments@, docs, i) is Superseded by {
        law_upserted_batch_is_unchanged(a, b, docs, i);
    }
    lemma_nothing_to_do(b.segments@, docs, n);
    lemma_nothing_counted(b.segments@, docs, n);
    law_upsert_counts_every_id(b.segments@, docs);
}

proof fn lemma_nothing_counted(segments: Seq<Segment>, docs: Seq<DocTokens>, n: int)
    requires
        0 <= n <= docs.len(),
        forall|i: int|
            0 <= i < docs.len() ==> #[trigger] change_of(segments, docs, i) is Unchanged
                || change_of(segments, docs, i) is Superseded,
    ensures
        tally(segments, docs, n).0 == 0,
        tally(segments, docs, n).1 == 0,
    decreases n,
{
    if n > 0 {
        lemma_nothing_counted(segments, docs, n - 1);
        assert(change_of(segments, docs, n - 1) is Unchanged || change_of(
            segments,
            docs,
            n - 1,
        ) is Superseded);
    }
}

/// The new segment holds a written document, and none other of its id.
proof fn lemma_fresh_holds(
    segments: Seq<Segment>,
    f: Segment,
    docs: Seq<DocTokens>,
    number: nat,
    i: int,
)
    requires
        is_fresh(f, docs, to_write(segments, docs, docs.len() as int), number),
        0 <= i < docs.len() <= usize::MAX,
        to_write(segments, docs, docs.len() as int).contains(i as usize),
        is_last(doc_ids(docs), i),
    ensures
        live_in(f, docs[i].doc.id@) matches Some(d) && f.index.docs@[d].content_hash == hash_of(
            docs[i].doc,
        ),
{
    let n = docs.len() as int;
    let written = to_write(segments, docs, n);
    let id = docs[i].doc.id@;
    let ids = doc_ids(docs);
    let q = choose|q: int| 0 <= q < written.len() && written[q] == i as usize;
    assert(indexer::is_meta(f.index.docs@[q], docs[i].doc, docs[i]@));
    lemma_doc_found(f.index.docs@, id, 0, q);
    lemma_doc_with_id(f.index.docs@, id, 0);
    let d = doc_with_id(f.index.docs@, id, 0).unwrap();
    lemma_to_write(segments, docs, n);
    let w = written[d] as int;
    assert(indexer::is_meta(f.index.docs@[d], docs[w].doc, docs[w]@));
    lemma_written_last(segments, docs, n, d);
    assert(ids[w] == id && ids[i] == id);
    assert(w == i);
    assert(!bit(f.deleted@, d));
}

proof fn lemma_doc_found(docs: Seq<indexer::DocMeta>, id: Seq<char>, d: int, x: int)
    requires
        0 <= d <= x < docs.len(),
        docs[x].external_id@ == id,
    ensures
        doc_with_id(docs, id, d) is Some,
    decreases x - d,
{
    if docs[d].external_id@ != id {
        lemma_doc_found(docs, id, d + 1, x);
    }
}

proof fn lemma_live_doc_push(segments: Seq<Segment>, f: Segment, id: Seq<char>, si: int)
    requires
        0 <= si <= segments.len(),
    ensures
        live_doc(segments.push(f), id, si) == match live_doc(segments, id, si) {
            Some(p) => Some(p),
            None => match live_in(f, id) {
                Some(d) => Some((segments.len() as int, d)),
                None => None,
            },
        },
    decreases segments.len() - si,
{
    let all = segments.push(f);
    if si < segments.len() {
        lemma_live_doc_push(segments, f, id, si + 1);
        assert(all[si] == segments[si]);
    } else {
        assert(all[si] == f);
        assert(live_doc(all, id, si + 1) is None);
    }
}

/// A replaced document is gone.
proof fn lemma_replaced(
    a: Seq<Segment>,
    b: Seq<Segment>,
    ids: Seq<Seq<char>>,
    id: Seq<char>,
    si: int,
    p: (int, int),
)
    requires
        buried(a, b, ids),
        ids.contains(id),
        0 <= si,
        live_doc(a, id, 0) == Some(p),
        live_doc(a, id, p.0 + 1) is None,
        si <= p.0 ==> live_doc(a, id, si) == Some(p),
        si > p.0 ==> live_doc(a, id, si) is None,
    ensures
        live_doc(b, id, si) is None,
    decreases a.len() - si,
{
    if si < a.len() {
        assert(same_but_bits(a[si], b[si]));
        lemma_doc_with_id(a[si].index.docs@, id, 0);
        if let Some(d) = doc_with_id(a[si].index.docs@, id, 0) {
            if si == p.0 {
                let j = choose|j: int| 0 <= j < ids.len() && ids[j] == id;
                assert(live_doc(a, ids[j], 0) == Some((si, d)));
                assert(is_target(a, ids, si, d));
                assert(bit(b[si].deleted@, d));
            } else {
                assert(bit(a[si].deleted@, d));
                assert(bit(b[si].deleted@, d));
            }
        }
        lemma_replaced(a, b, ids, id, si + 1, p);
    }
}

/// New and changed documents are written.
proof fn lemma_written(segments: Seq<Segment>, docs: Seq<DocTokens>, n: int, i: int)
    requires
        0 <= i < n <= docs.len() <= usize::MAX,
    ensures
        change_of(segments, docs, i) is Added || change_of(segments, docs, i) is Updated
            ==> to_write(segments, docs, n).contains(i as usize),
    decreases n,
{
    let all = to_write(segments, docs, n);
    if i == n - 1 {
        if change_of(segments, docs, i) is Added || change_of(segments, docs, i) is Updated {
            assert(all[all.len() - 1] == i as usize);
        }
    } else {
        lemma_written(segments, docs, n - 1, i);
        let front = to_write(segments, docs, n - 1);
        if front.contains(i as usize) {
            let q = choose|q: int| 0 <= q < front.len() && front[q] == i as usize;
            assert(all[q] == i as usize);
        }
    }
}

/// What is written is the last of its id.
proof fn lemma_written_last(segments: Seq<Segment>, docs: Seq<DocTokens>, n: int, q: int)
    requires
        0 <= n <= docs.len() <= usize::MAX,
        0 <= q < to_write(segments, docs, n).len(),
    ensures
        is_last(doc_ids(docs), to_write(segments, docs, n)[q] as int),
    decreases n,
{
    let front = to_write(segments, docs, n - 1);
    if q < front.len() {
        lemma_written_last(segments, docs, n - 1, q);
    }
}

/// An id is buried if its document is updated.
proof fn lemma_gone(segments: Seq<Segment>, docs: Seq<DocTokens>, n: int, id: Seq<char>)
    requires
        0 <= n <= docs.len(),
    ensures
        to_bury(segments, docs, n).contains(id) <==> exists|j: int|
            0 <= j < n && #[trigger] change_of(segments, docs, j) is Updated && docs[j].doc.id@ == id,
    decreases n,
{
    if n > 0 {
        lemma_gone(segments, docs, n - 1, id);
        let front = to_bury(segments, docs, n - 1);
        let all = to_bury(segments, docs, n);
        if change_of(segments, docs, n - 1) is Updated {
            assert(all[front.len() as int] == docs[n - 1].doc.id@);
            if front.contains(id) {
                let q = choose|q: int| 0 <= q < front.len() && front[q] == id;
                assert(all[q] == id);
            }
            if all.contains(id) && docs[n - 1].doc.id@ != id {
                let q = choose|q: int| 0 <= q < all.len() && all[q] == id;
                assert(front[q] == id);
            }
        }
    }
}

proof fn lemma_nothing_to_do(segments: Seq<Segment>, docs: Seq<DocTokens>, n: int)
    requires
        0 <= n <= docs.len(),
        forall|i: int|
            0 <= i < docs.len() ==> #[trigger] change_of(segments, docs, i) is Unchanged
                || change_of(segments, docs, i) is Superseded,
    ensures
        to_write(segments, docs, n).len() == 0,
        to_bury(segments, docs, n).len() == 0,
    decreases n,
{
    if n > 0 {
        lemma_nothing_to_do(segments, docs, n - 1);
        assert(change_of(segments, docs, n - 1) is Unchanged || change_of(
            segments,
            docs,
            n - 1,
        ) is Superseded);
    }
}

// ---------------------------------------------------------------------------
// Merging
// ---------------------------------------------------------------------------

/// The items of the live documents among the first `n`.
pub open spec fn live_of<T>(items: Seq<T>, deleted: Seq<u64>, n: int) -> Seq<T>
    decreases n,
{
    if n <= 0 {
        Seq::empty()
    } else if bit(deleted, n - 1) {
        live_of(items, deleted, n - 1)
    } else {
        live_of(items, deleted, n - 1).push(items[n - 1])
    }
}

/// The tokens of the live documents of the first `n` segments.
pub open spec fn live_tokens(segments: Seq<Segment>, n: int) -> Seq<TokenModel>
    decreases n,
{
    if n <= 0 {
        Seq::empty()
    } else {
        let s = segments[n - 1];
        live_tokens(segments, n - 1) + live_of(s.tokens@, s.deleted@, s.tokens@.len() as int)
    }
}

/// The metadata of the live documents of the first `n` segments.
pub open spec fn live_metas(segments: Seq<Segment>, n: int) -> Seq<indexer::DocMeta>
    decreases n,
{
    if n <= 0 {
        Seq::empty()
    } else {
        let s = segments[n - 1];
        live_metas(segments, n - 1) + live_of(
            s.index.docs@,
            s.deleted@,
            s.index.docs@.len() as int,
        )
    }
}

/// Postings of a segment under new ids: those of tombstoned documents are
/// dropped, the others count from `base` over the live ones.
pub open spec fn renumbered(list: Seq<Posting>, deleted: Seq<u64>, base: nat) -> Seq<Posting>
    decreases list.len(),
{
    if list.len() == 0 {
        Seq::empty()
    } else {
        let front = renumbered(list.drop_last(), deleted, base);
        let p = list.last();
        if bit(deleted, p.doc_id as int) {
            front
        } else {
            front.push(
                Posting {
                    doc_id: (base + live_count(deleted, p.doc_id as int)) as u32,
                    tf: p.tf,
                },
            )
        }
    }
}

/// The postings of `t` in the live documents of the first `n` segments.
pub open spec fn live_list(segments: Seq<Segment>, t: Seq<char>, n: int) -> Seq<Posting>
    decreases n,
{
    if n <= 0 {
        Seq::empty()
    } else {
        let s = segments[n - 1];
        live_list(segments, t, n - 1) + renumbered(
            s.index.postings_of(t),
            s.deleted@,
            live_tokens(segments, n - 1).len(),
        )
    }
}

proof fn lemma_live_of_len<T>(items: Seq<T>, deleted: Seq<u64>, n: int)
    requires
        0 <= n,
    ensures
        live_of(items, deleted, n).len() == live_count(deleted, n),
    decreases n,
{
    if n > 0 {
        lemma_live_of_len(items, deleted, n - 1);
    }
}

/// Appending the live documents of a segment appends its renumbered
/// postings.
proof fn lemma_renumbered_list(
    a: Seq<TokenModel>,
    tokens: Seq<TokenModel>,
    deleted: Seq<u64>,
    weight: nat,
    t: Seq<char>,
    n: int,
)
    requires
        0 <= n <= tokens.len() <= u32::MAX,
    ensures
        indexer::term_list(
            a + live_of(tokens, deleted, n),
            weight,
            t,
            (a + live_of(tokens, deleted, n)).len() as int,
        ) == indexer::term_list(a, weight, t, a.len() as int) + renumbered(
            indexer::term_list(tokens, weight, t, n),
            deleted,
            a.len(),
        ),
    decreases n,
{
    let live = live_of(tokens, deleted, n);
    let list = indexer::term_list(tokens, weight, t, n);
    let la = indexer::term_list(a, weight, t, a.len() as int);
    lemma_live_of_len(tokens, deleted, n);
    if n == 0 {
        assert(a + live =~= a);
        assert(la + renumbered(list, deleted, a.len()) =~= la);
    } else {
        lemma_renumbered_list(a, tokens, deleted, weight, t, n - 1);
        lemma_live_of_len(tokens, deleted, n - 1);
        let live0 = live_of(tokens, deleted, n - 1);
        let list0 = indexer::term_list(tokens, weight, t, n - 1);
        let tf = indexer::folded_tf(tokens[n - 1], weight, t);
        let p = Posting { doc_id: (n - 1) as u32, tf: tf as u32 };
        if tf > 0 {
            assert(list == list0.push(p));
            assert(list.drop_last() =~= list0);
        }
        if bit(deleted, n - 1) {
            assert(live == live0);
        } else {
            let whole = a + live;
            let before = a + live0;
            assert(whole =~= before.push(tokens[n - 1]));
            indexer::lemma_term_list_prefix(whole, before, weight, t, before.len() as int);
            lemma_live_bounds_count(deleted, n - 1);
            if tf > 0 {
                let q = Posting { doc_id: before.len() as u32, tf: tf as u32 };
                let r0 = renumbered(list0, deleted, a.len());
                assert((la + r0).push(q) =~= la + r0.push(q));
            }
        }
    }
}

proof fn lemma_live_bounds_count(deleted: Seq<u64>, n: int)
    requires
        0 <= n,
    ensures
        live_count(deleted, n) <= n,
    decreases n,
{
    if n > 0 {
        lemma_live_bounds_count(deleted, n - 1);
    }
}

/// The merged list of a term is its list in the live documents.
proof fn lemma_live_list(segments: Seq<Segment>, weight: nat, t: Seq<char>, n: int)
    requires
        0 <= n <= segments.len(),
        forall|i: int| 0 <= i < segments.len() ==> (#[trigger] segments[i]).wf(weight),
    ensures
        live_list(segments, t, n) == indexer::term_list(
            live_tokens(segments, n),
            weight,
            t,
            live_tokens(segments, n).len() as int,
        ),
    decreases n,
{
    if n > 0 {
        lemma_live_list(segments, weight, t, n - 1);
        let s = segments[n - 1];
        assert(s.wf(weight));
        lemma_renumbered_list(
            live_tokens(segments, n - 1),
            s.tokens@,
            s.deleted@,
            weight,
            t,
            s.tokens@.len() as int,
        );
        assert(s.index.postings_of(t) == indexer::term_list(
            s.tokens@,
            weight,
            t,
            s.tokens@.len() as int,
        ));
    }
}

proof fn lemma_live_tokens_len(segments: Seq<Segment>, weight: nat, n: int)
    requires
        0 <= n <= segments.len(),
        forall|i: int| 0 <= i < segments.len() ==> (#[trigger] segments[i]).wf(weight),
    ensures
        live_tokens(segments, n).len() == sums::total(live_fn(segments), n as nat),
        live_metas(segments, n).len() == live_tokens(segments, n).len(),
        forall|d: int|
            0 <= d < live_tokens(segments, n).len() ==> (#[trigger] live_metas(segments, n)[d]).doc_len
                == indexer::token_len(live_tokens(segments, n)[d]),
        forall|t: Seq<char>, d: int|
            0 <= d < live_tokens(segments, n).len() ==> #[trigger] indexer::folded_tf(
                live_tokens(segments, n)[d],
                weight,
                t,
            ) <= u32::MAX,
    decreases n,
{
    if n > 0 {
        lemma_live_tokens_len(segments, weight, n - 1);
        let s = segments[n - 1];
        assert(s.wf(weight));
        let m = s.tokens@.len() as int;
        lemma_live_of_len(s.tokens@, s.deleted@, m);
        lemma_live_of_len(s.index.docs@, s.deleted@, m);
        lemma_live_of_each(s, weight, m);
        let a = live_tokens(segments, n - 1);
        let b = live_of(s.tokens@, s.deleted@, m);
        let ma = live_metas(segments, n - 1);
        let mb = live_of(s.index.docs@, s.deleted@, m);
        assert forall|d: int| 0 <= d < (a + b).len() implies (#[trigger] (ma + mb)[d]).doc_len
            == indexer::token_len((a + b)[d]) by {
            if d < a.len() {
                assert(ma[d].doc_len == indexer::token_len(a[d]));
            } else {
                assert(mb[d - a.len()].doc_len == indexer::token_len(b[d - a.len()]));
            }
        }
        assert forall|t: Seq<char>, d: int| 0 <= d < (a + b).len() implies #[trigger] indexer::folded_tf(
            (a + b)[d],
            weight,
            t,
        ) <= u32::MAX by {
            if d < a.len() {
                assert(indexer::folded_tf(a[d], weight, t) <= u32::MAX);
            } else {
                assert(indexer::folded_tf(b[d - a.len()], weight, t) <= u32::MAX);
            }
        }
    }
}

proof fn lemma_live_of_each(s: Segment, weight: nat, n: int)
    requires
        s.wf(weight),
        0 <= n <= s.tokens@.len(),
    ensures
        forall|d: int|
            0 <= d < live_of(s.tokens@, s.deleted@, n).len() ==> (#[trigger] live_of(
                s.index.docs@,
                s.deleted@,
                n,
            )[d]).doc_len == indexer::token_len(live_of(s.tokens@, s.deleted@, n)[d]),
        forall|t: Seq<char>, d: int|
            0 <= d < live_of(s.tokens@, s.deleted@, n).len() ==> #[trigger] indexer::folded_tf(
                live_of(s.tokens@, s.deleted@, n)[d],
                weight,
                t,
            ) <= u32::MAX,
    decreases n,
{
    if n > 0 {
        lemma_live_of_each(s, weight, n - 1);
        lemma_live_of_len(s.tokens@, s.deleted@, n - 1);
        lemma_live_of_len(s.index.docs@, s.deleted@, n - 1);
        assert(s.index.docs@[n - 1].doc_len == indexer::token_len(s.tokens@[n - 1]));
        assert forall|t: Seq<char>, d: int|
            0 <= d < live_of(s.tokens@, s.deleted@, n).len() implies #[trigger] indexer::folded_tf(
            live_of(s.tokens@, s.deleted@, n)[d],
            weight,
            t,
        ) <= u32::MAX by {
            let l0 = live_of(s.tokens@, s.deleted@, n - 1);
            if d < l0.len() {
                assert(indexer::folded_tf(l0[d], weight, t) <= u32::MAX);
            } else {
                assert(indexer::folded_tf(s.tokens@[n - 1], weight, t) <= u32::MAX);
            }
        }
    }
}

/// The same metadata.
pub open spec fn same_meta(a: indexer::DocMeta, b: indexer::DocMeta) -> bool {
    &&& a.external_id@ == b.external_id@
    &&& a.title@ == b.title@
    &&& a.snippet@ == b.snippet@
    &&& a.doc_len == b.doc_len
    &&& a.content_hash == b.content_hash
}

fn copy_meta(m: &DocMeta) -> (c: DocMeta)
    ensures
        same_meta(c, *m),
{
    DocMeta {
        external_id: m.external_id.clone(),
        title: m.title.clone(),
        snippet: m.snippet.clone(),
        doc_len: m.doc_len,
        content_hash: m.content_hash,
    }
}

/// New ids of the documents of each segment: the live ones, counted in
/// segment order. What is recorded for tombstoned documents does not matter.
spec fn is_remap(remap: Seq<Vec<u32>>, segments: Seq<Segment>, n: int) -> bool {
    &&& remap.len() == n
    &&& forall|si: int|
        0 <= si < n ==> (#[trigger] remap[si])@.len() == segments[si].index.docs@.len()
    &&& forall|si: int, d: int|
        #![trigger remap[si]@[d]]
        0 <= si < n && 0 <= d < remap[si]@.len() ==> remap[si]@[d] == live_tokens(
            segments,
            si,
        ).len() + live_count(segments[si].deleted@, d)
}

impl SegmentedIndex {
    /// Renumber the live documents, and copy their metadata.
    fn renumber(&self) -> (r: (Vec<Vec<u32>>, Vec<DocMeta>))
        requires
            self.wf(),
        ensures
            is_remap(r.0@, self.segments@, self.segments@.len() as int),
            r.1@.len() == live_metas(self.segments@, self.segments@.len() as int).len(),
            forall|d: int|
                0 <= d < r.1@.len() ==> same_meta(
                    #[trigger] r.1@[d],
                    live_metas(self.segments@, self.segments@.len() as int)[d],
                ),
    {
        let ghost segs = self.segments@;
        let ghost w = self.title_weight as nat;
        let mut remap: Vec<Vec<u32>> = Vec::new();
        let mut metas: Vec<DocMeta> = Vec::new();
        let mut si: usize = 0;
        let m: usize = self.segments.len();
        while si < m
            invariant
                self.wf(),
                m == self.segments@.len(),
                segs == self.segments@,
                w == self.title_weight,
                si <= m,
                is_remap(remap@, segs, si as int),
                metas@.len() == live_metas(segs, si as int).len(),
                forall|d: int|
                    0 <= d < metas@.len() ==> same_meta(
                        #[trigger] metas@[d],
                        live_metas(segs, si as int)[d],
                    ),
            decreases m - si,
        {
            let seg = &self.segments[si];
            assert(segs[si as int].wf(w));
            let n: usize = seg.index.docs.len();
            let ghost base_metas = metas@;
            proof {
                lemma_live_tokens_len(segs, w, si as int);
                sums::lemma_total_monotone(live_fn(segs), (si + 1) as nat, segs.len());
            }
            let base: u32 = metas.len() as u32;
            let ghost lm = live_metas(segs, si as int);
            let mut ids: Vec<u32> = Vec::new();
            let mut next: u32 = base;
            let mut d: usize = 0;
            while d < n
                invariant
                    n == seg.index.docs@.len(),
                    n <= u32::MAX,
                    *seg == segs[si as int],
                    seg.live_docs == live_count(seg.deleted@, n as int),
                    base + seg.live_docs <= u32::MAX,
                    base == lm.len(),
                    base_metas.len() == base,
                    d <= n,
                    ids@.len() == d,
                    next == base + live_count(seg.deleted@, d as int),
                    forall|e: int|
                        0 <= e < d ==> #[trigger] ids@[e] == base + live_count(seg.deleted@, e),
                    metas@.len() == next,
                    metas@.len() == (lm + live_of(seg.index.docs@, seg.deleted@, d as int)).len(),
                    forall|e: int|
                        0 <= e < base ==> same_meta(#[trigger] metas@[e], lm[e]),
                    forall|e: int|
                        base <= e < metas@.len() ==> same_meta(
                            #[trigger] metas@[e],
                            live_of(seg.index.docs@, seg.deleted@, d as int)[e - base],
                        ),
                decreases n - d,
            {
                proof {
                    lemma_live_of_len(seg.index.docs@, seg.deleted@, d as int);
                    lemma_count_monotone(seg.deleted@, d + 1, n as int);
                    lemma_count_monotone(seg.deleted@, d as int, n as int);
                }
                ids.push(next);
                if !bit_is_set(seg.deleted.as_slice(), d as u32) {
                    let ghost before = live_of(seg.index.docs@, seg.deleted@, d as int);
                    metas.push(copy_meta(&seg.index.docs[d]));
                    next += 1;
                    assert(live_of(seg.index.docs@, seg.deleted@, d + 1) == before.push(
                        seg.index.docs@[d as int],
                    ));
                }
                d += 1;
            }
            remap.push(ids);
            proof {
                assert forall|s: int, e: int|
                    #![trigger remap@[s]@[e]]
                    0 <= s < si + 1 && 0 <= e < remap@[s]@.len() implies remap@[s]@[e]
                    == live_tokens(segs, s).len() + live_count(segs[s].deleted@, e) by {
                    if s == si {
                        assert(ids@[e] == base + live_count(seg.deleted@, e));
                    }
                }
                assert forall|e: int| 0 <= e < metas@.len() implies same_meta(
                    #[trigger] metas@[e],
                    live_metas(segs, si + 1)[e],
                ) by {
                    if e >= base {
                        assert(same_meta(
                            metas@[e],
                            live_of(seg.index.docs@, seg.deleted@, n as int)[e - base],
                        ));
                    }
                }
            }
            si += 1;
        }
        (remap, metas)
    }

    /// All terms of all segments, sorted.
    pub(crate) fn all_terms(&self) -> (dict: Interner)
        requires
            self.wf(),
            all_names(self.segments@, self.segments@.len() as int).len() <= u32::MAX,
        ensures
            dict.wf(),
            dict@.len() == all_names(self.segments@, self.segments@.len() as int).len(),
            forall|i: int, j: int|
                0 <= i < j < dict@.len() ==> order::lex_less(#[trigger] dict@[i], #[trigger] dict@[j]),
            forall|si: int, t: Seq<char>|
                0 <= si < self.segments@.len() && #[trigger] self.segments@[si].index.terms@.contains(
                    t,
                ) ==> dict@.contains(t),
    {
        let ghost segs = self.segments@;
        let mut all = Interner::new();
        let mut si: usize = 0;
        assert(all@ =~= Seq::<Seq<char>>::empty());
        while si < self.segments.len()
            invariant
                segs == self.segments@,
                all_names(segs, segs.len() as int).len() <= u32::MAX,
                si <= segs.len(),
                all.wf(),
                all@ == all_names(segs, si as int),
            decreases segs.len() - si,
        {
            proof {
                lemma_names_grow(segs, si + 1, segs.len() as int);
            }
            let _ = indexer::note(&mut all, &self.segments[si].index.terms.names);
            si += 1;
        }
        let (dict, remap, by_name) = indexer::sort_names(&all.names);
        proof {
            assert forall|si: int, t: Seq<char>|
                0 <= si < segs.len() && #[trigger] segs[si].index.terms@.contains(t) implies dict@.contains(
                t,
            ) by {
                lemma_all_names(segs, segs.len() as int, si, t);
                let a = choose|a: int| 0 <= a < all@.len() && all@[a] == t;
                assert(dict@[remap@[a] as int] == t);
            }
        }
        dict
    }

    /// The postings of a term in the live documents, under their new ids.
    fn gather(&self, term: &String, remap: &Vec<Vec<u32>>) -> (list: Vec<Posting>)
        requires
            self.wf(),
            is_remap(remap@, self.segments@, self.segments@.len() as int),
        ensures
            list@ == live_list(self.segments@, term@, self.segments@.len() as int),
    {
        let ghost segs = self.segments@;
        let mut list: Vec<Posting> = Vec::new();
        let mut si: usize = 0;
        while si < self.segments.len()
            invariant
                self.wf(),
                segs == self.segments@,
                is_remap(remap@, segs, segs.len() as int),
                si <= segs.len(),
                list@ == live_list(segs, term@, si as int),
            decreases segs.len() - si,
        {
            let seg = &self.segments[si];
            assert(segs[si as int].wf(self.title_weight as nat));
            let ghost base = live_tokens(segs, si as int).len();
            let ghost start = list@;
            let ghost own = seg.index.postings_of(term@);
            if let Some(l) = seg.index.posting_list_for(term.as_str()) {
                let n: usize = l.postings.len();
                let mut i: usize = 0;
                proof {
                    assert(own.take(0) =~= Seq::<Posting>::empty());
                    assert(list@ =~= start + renumbered(own.take(0), seg.deleted@, base));
                    let at = seg.index.terms@.index_of(term@);
                    assert(indexer::ascending(
                        seg.index.posting_lists@[at].postings@,
                        seg.index.docs@.len() as int,
                    ));
                }
                while i < n
                    invariant
                        n == own.len(),
                        l.postings@ == own,
                        si < segs.len(),
                        *seg == segs[si as int],
                        base == live_tokens(segs, si as int).len(),
                        is_remap(remap@, segs, segs.len() as int),
                        indexer::ascending(own, seg.index.docs@.len() as int),
                        i <= n,
                        list@ == start + renumbered(own.take(i as int), seg.deleted@, base),
                    decreases n - i,
                {
                    let p: Posting = l.postings[i];
                    proof {
                        assert(own[i as int] == p);
                        assert(own.take(i + 1).drop_last() =~= own.take(i as int));
                        assert(own.take(i + 1).last() == p);
                        assert(remap@[si as int]@.len() == seg.index.docs@.len());
                    }
                    if !bit_is_set(seg.deleted.as_slice(), p.doc_id) {
                        let new_id: u32 = remap[si][p.doc_id as usize];
                        assert(remap@[si as int]@[p.doc_id as int] == new_id);
                        let q = Posting { doc_id: new_id, tf: p.tf };
                        list.push(q);
                        proof {
                            let r0 = renumbered(own.take(i as int), seg.deleted@, base);
                            assert((start + r0).push(q) =~= start + r0.push(q));
                        }
                    }
                    i += 1;
                }
                assert(own.take(i as int) =~= own);
            } else {
                assert(own =~= Seq::<Posting>::empty());
                assert(list@ =~= start + renumbered(own, seg.deleted@, base));
            }
            si += 1;
        }
        list
    }
}

/// The terms of the first `n` segments, each once.
pub open spec fn all_names(segments: Seq<Segment>, n: int) -> Seq<Seq<char>>
    decreases n,
{
    if n <= 0 {
        Seq::empty()
    } else {
        indexer::noted(all_names(segments, n - 1), segments[n - 1].index.terms@)
    }
}

proof fn lemma_names_grow(segments: Seq<Segment>, i: int, n: int)
    requires
        0 <= i <= n,
    ensures
        all_names(segments, i).len() <= all_names(segments, n).len(),
    decreases n,
{
    if i < n {
        lemma_names_grow(segments, i, n - 1);
        indexer::lemma_noted_prefix(all_names(segments, n - 1), segments[n - 1].index.terms@);
    }
}

proof fn lemma_all_names(segments: Seq<Segment>, n: int, si: int, t: Seq<char>)
    requires
        0 <= si < n <= segments.len(),
        segments[si].index.terms@.contains(t),
    ensures
        all_names(segments, n).contains(t),
    decreases n,
{
    let terms = segments[n - 1].index.terms@;
    indexer::lemma_noted(all_names(segments, n - 1), terms, t);
    if si < n - 1 {
        lemma_all_names(segments, n - 1, si, t);
    } else {
        indexer::lemma_occurs(terms, t);
    }
}

proof fn lemma_count_monotone(deleted: Seq<u64>, m: int, n: int)
    requires
        0 <= m <= n,
    ensures
        live_count(deleted, m) <= live_count(deleted, n),
    decreases n,
{
    if m < n {
        lemma_count_monotone(deleted, m, n - 1);
    }
}

/// Is there anything to compact?
pub open spec fn wants_merge(segments: Seq<Segment>) -> bool {
    segments.len() > 1 || (segments.len() == 1 && segments[0].live_docs
        != segments[0].index.docs@.len())
}

/// `seg` holds the live documents of `segments`, and nothing else.
pub open spec fn compacts(seg: Segment, segments: Seq<Segment>) -> bool {
    let n = segments.len() as int;
    &&& seg.deleted@.len() == 0
    &&& seg.tokens@ == live_tokens(segments, n)
    &&& seg.index.docs@.len() == live_metas(segments, n).len()
    &&& forall|d: int|
        0 <= d < seg.index.docs@.len() ==> same_meta(
            #[trigger] seg.index.docs@[d],
            live_metas(segments, n)[d],
        )
    &&& seg.index.block_size == postings::DEFAULT_BLOCK_SIZE
    &&& forall|t: Seq<char>| #[trigger]
        seg.index.terms@.contains(t) <==> live_list(segments, t, n).len() > 0
}

/// `b` is `a` with its segments merged. A single segment without tombstones is
/// left alone.
pub open spec fn is_merged(a: SegmentedIndex, b: SegmentedIndex) -> bool {
    if !wants_merge(a.segments@) {
        b == a
    } else {
        &&& b.segments@.len() == 1
        &&& compacts(b.segments@[0], a.segments@)
        &&& b.segments@[0].index.remove_stopwords == a.remove_stopwords
        &&& b.segments@[0].name@ == segment_text(a.next_segment as nat)
        &&& b.next_segment == a.next_segment + 1
        &&& b.remove_stopwords == a.remove_stopwords
        &&& b.title_weight == a.title_weight
        &&& b.code_mode == a.code_mode
    }
}

impl SegmentedIndex {
    /// The index of the live documents.
    #[verifier::rlimit(40)]
    fn compacted(&self) -> (index: Index)
        requires
            self.wf(),
            all_names(self.segments@, self.segments@.len() as int).len() <= u32::MAX,
        ensures
            index.block_size == postings::DEFAULT_BLOCK_SIZE,
            index.remove_stopwords == self.remove_stopwords,
            indexer::indexes(
                index,
                live_tokens(self.segments@, self.segments@.len() as int),
                self.title_weight as nat,
                index.docs@,
            ),
            index.docs@.len() == live_metas(self.segments@, self.segments@.len() as int).len(),
            forall|d: int|
                0 <= d < index.docs@.len() ==> same_meta(
                    #[trigger] index.docs@[d],
                    live_metas(self.segments@, self.segments@.len() as int)[d],
                ),
    {
        let ghost segs = self.segments@;
        let ghost m = segs.len() as int;
        let ghost w = self.title_weight as nat;
        let ghost tokens = live_tokens(segs, m);
        let (remap, metas) = self.renumber();
        let dict = self.all_terms();
        proof {
            lemma_live_tokens_len(segs, w, m);
        }
        let n: usize = metas.len();
        let mut doc_lens: Vec<u32> = Vec::new();
        let mut total: u64 = 0;
        let mut d: usize = 0;
        while d < n
            invariant
                n == metas@.len(),
                n == tokens.len(),
                n <= u32::MAX,
                forall|d: int|
                    0 <= d < metas@.len() ==> (#[trigger] metas@[d]).doc_len
                        == indexer::token_len(tokens[d]),
                d <= n,
                doc_lens@.len() == d,
                forall|j: int| 0 <= j < d ==> #[trigger] doc_lens@[j] == metas@[j].doc_len,
                total == sums::total(indexer::lens_fn(tokens), d as nat),
                total <= d * 0xffff_ffff,
            decreases n - d,
        {
            assert((d + 1) * 0xffff_ffff == d * 0xffff_ffff + 0xffff_ffff);
            doc_lens.push(metas[d].doc_len);
            total = total + metas[d].doc_len as u64;
            d += 1;
        }
        let avg: u32 = if total == 0 {
            bm25::AVG_UNIT
        } else {
            let a: u128 = (total as u128 * bm25::AVG_UNIT as u128) / (n as u128);
            if a == 0 {
                1
            } else if a > 0xffff_ffff {
                u32::MAX
            } else {
                a as u32
            }
        };
        assert(doc_lens@ =~= indexer::meta_lens(metas@));
        let num: usize = dict.len();
        let mut terms = Interner::new();
        let mut posting_lists: Vec<PostingList> = Vec::new();
        let mut i: usize = 0;
        while i < num
            invariant
                self.wf(),
                segs == self.segments@,
                m == segs.len(),
                w == self.title_weight,
                tokens == live_tokens(segs, m),
                is_remap(remap@, segs, m),
                dict.wf(),
                num == dict@.len(),
                forall|a: int, b: int|
                    0 <= a < b < dict@.len() ==> order::lex_less(
                        #[trigger] dict@[a],
                        #[trigger] dict@[b],
                    ),
                n == tokens.len(),
                n <= u32::MAX,
                doc_lens@.len() == n,
                i <= num,
                terms.wf(),
                terms@.len() <= i,
                posting_lists@.len() == terms@.len(),
                forall|a: int, b: int|
                    0 <= a < b < terms@.len() ==> order::lex_less(
                        #[trigger] terms@[a],
                        #[trigger] terms@[b],
                    ),
                forall|a: int|
                    0 <= a < terms@.len() ==> seen_before(dict@, #[trigger] terms@[a], i as int),
                forall|a: int|
                    0 <= a < i ==> terms@.contains(#[trigger] dict@[a]) || indexer::term_list(
                        tokens,
                        w,
                        dict@[a],
                        n as int,
                    ).len() == 0,
                forall|a: int|
                    0 <= a < posting_lists@.len() ==> {
                        &&& (#[trigger] posting_lists@[a]).wf(
                            doc_lens@,
                            postings::DEFAULT_BLOCK_SIZE as int,
                        )
                        &&& posting_lists@[a].postings@ == indexer::term_list(
                            tokens,
                            w,
                            terms@[a],
                            n as int,
                        )
                        &&& 0 < posting_lists@[a].postings@.len() <= n
                        &&& indexer::ascending(posting_lists@[a].postings@, n as int)
                        &&& posting_lists@[a].idf == bm25::idf_spec(
                            n as nat,
                            posting_lists@[a].postings@.len(),
                        )
                    },
            decreases num - i,
        {
            let ghost name = dict@[i as int];
            assert(dict.names@[i as int]@ == name);
            let list = self.gather(&dict.names[i], &remap);
            proof {
                lemma_live_list(segs, w, name, m);
                indexer::lemma_term_list(tokens, w, name, n as int);
            }
            if list.len() > 0 {
                let ghost terms0 = terms@;
                let ghost lists0 = posting_lists@;
                proof {
                    assert(!terms@.contains(name)) by {
                        if terms@.contains(name) {
                            let a = choose|a: int| 0 <= a < terms@.len() && terms@[a] == name;
                            assert(seen_before(dict@, terms@[a], i as int));
                            let b = choose|b: int| 0 <= b < i && #[trigger] dict@[b] == terms@[a];
                            assert(dict@[b] == dict@[i as int]);
                        }
                    }
                }
                let id: u32 = terms.get_or_insert(dict.names[i].as_str());
                let built = PostingList::build(
                    list,
                    n,
                    doc_lens.as_slice(),
                    postings::DEFAULT_BLOCK_SIZE,
                );
                posting_lists.push(built);
                proof {
                    assert(terms@ == terms0.push(name));
                    assert forall|a: int, b: int| 0 <= a < b < terms@.len() implies order::lex_less(
                        #[trigger] terms@[a],
                        #[trigger] terms@[b],
                    ) by {
                        if b == terms0.len() {
                            assert(seen_before(dict@, terms0[a], i as int));
                            let x = choose|x: int| 0 <= x < i && #[trigger] dict@[x] == terms0[a];
                            assert(order::lex_less(dict@[x], dict@[i as int]));
                        } else {
                            assert(order::lex_less(terms0[a], terms0[b]));
                        }
                    }
                    assert forall|a: int| 0 <= a < terms@.len() implies seen_before(
                        dict@,
                        #[trigger] terms@[a],
                        i + 1,
                    ) by {
                        if a < terms0.len() {
                            assert(seen_before(dict@, terms0[a], i as int));
                            let x = choose|x: int| 0 <= x < i && #[trigger] dict@[x] == terms0[a];
                            assert(dict@[x] == terms@[a]);
                        } else {
                            assert(dict@[i as int] == terms@[a]);
                        }
                    }
                    assert forall|a: int| 0 <= a < i + 1 implies terms@.contains(
                        #[trigger] dict@[a],
                    ) || indexer::term_list(tokens, w, dict@[a], n as int).len() == 0 by {
                        if a < i {
                            if terms0.contains(dict@[a]) {
                                let x = choose|x: int|
                                    0 <= x < terms0.len() && terms0[x] == dict@[a];
                                assert(terms@[x] == dict@[a]);
                            }
                        } else {
                            assert(terms@[terms0.len() as int] == dict@[a]);
                        }
                    }
                    assert forall|a: int| 0 <= a < posting_lists@.len() implies {
                        &&& (#[trigger] posting_lists@[a]).wf(
                            doc_lens@,
                            postings::DEFAULT_BLOCK_SIZE as int,
                        )
                        &&& posting_lists@[a].postings@ == indexer::term_list(
                            tokens,
                            w,
                            terms@[a],
                            n as int,
                        )
                        &&& 0 < posting_lists@[a].postings@.len() <= n
                        &&& indexer::ascending(posting_lists@[a].postings@, n as int)
                        &&& posting_lists@[a].idf == bm25::idf_spec(
                            n as nat,
                            posting_lists@[a].postings@.len(),
                        )
                    } by {
                        if a < lists0.len() {
                            assert(posting_lists@[a] == lists0[a]);
                            assert(terms@[a] == terms0[a]);
                        }
                    }
                }
            } else {
                proof {
                    assert forall|a: int| 0 <= a < terms@.len() implies seen_before(
                        dict@,
                        #[trigger] terms@[a],
                        i + 1,
                    ) by {
                        assert(seen_before(dict@, terms@[a], i as int));
                        let x = choose|x: int| 0 <= x < i && #[trigger] dict@[x] == terms@[a];
                        assert(dict@[x] == terms@[a]);
                    }
                }
            }
            i += 1;
        }
        let index = Index {
            docs: metas,
            avg_doc_len: avg,
            terms,
            posting_lists,
            remove_stopwords: self.remove_stopwords,
            block_size: postings::DEFAULT_BLOCK_SIZE,
        };
        proof {
            assert forall|i: int| 0 <= i < index.posting_lists@.len() implies (
            #[trigger] index.posting_lists@[i]).idf <= bm25::MAX_IDF by {
                bm25::law_idf_bounded(n as nat, index.posting_lists@[i].postings@.len());
            }
            assert(index.wf());
            assert forall|t: Seq<char>| !index.terms@.contains(t) implies (
            #[trigger] indexer::term_list(tokens, w, t, tokens.len() as int)).len() == 0 by {
                if dict@.contains(t) {
                    let a = choose|a: int| 0 <= a < dict@.len() && dict@[a] == t;
                    assert(index.terms@.contains(dict@[a]) || indexer::term_list(
                        tokens,
                        w,
                        dict@[a],
                        n as int,
                    ).len() == 0);
                } else {
                    lemma_live_list(segs, w, t, m);
                    lemma_unknown_term(segs, t, m);
                }
            }
            indexer::lemma_index_models(index, tokens, w);
            assert forall|t: Seq<char>| #[trigger] index.terms@.contains(t) implies indexer::term_list(
                tokens,
                w,
                t,
                tokens.len() as int,
            ).len() > 0 by {
                let a = choose|a: int| 0 <= a < index.terms@.len() && index.terms@[a] == t;
                assert(index.posting_lists@[a].postings@.len() > 0);
            }
        }
        index
    }

    /// Merge all segments into one without the tombstoned documents. The
    /// result is the index that a fresh build of the live documents gives.
    /// A single segment without tombstones is left alone.
    pub fn merge_all(&mut self)
        requires
            old(self).wf(),
            old(self).next_segment < u64::MAX,
            all_names(old(self).segments@, old(self).segments@.len() as int).len() <= u32::MAX,
        ensures
            final(self).wf(),
            is_merged(*old(self), *final(self)),
    {
        let m: usize = self.segments.len();
        let needs: bool = m > 1 || (m == 1 && self.segments[0].live_docs as usize
            != self.segments[0].index.docs.len());
        proof {
            if m == 1 {
                assert(self.segments@[0].wf(self.title_weight as nat));
            }
        }
        if !needs {
            return;
        }
        let ghost before = *self;
        let ghost segs = self.segments@;
        let ghost w = self.title_weight as nat;
        let ghost tokens = live_tokens(segs, m as int);
        let name = segment_name(self.next_segment);
        let index = self.compacted();
        let none: Vec<u64> = Vec::new();
        let (docs_here, len_here) = recount_live(&index, none.as_slice());
        let seg = Segment {
            name,
            index,
            deleted: none,
            live_docs: docs_here,
            live_len: len_here,
            tokens: Ghost(tokens),
        };
        let mut fresh: Vec<Segment> = Vec::new();
        fresh.push(seg);
        self.segments = fresh;
        self.next_segment = self.next_segment + 1;
        proof {
            lemma_live_tokens_len(segs, w, m as int);
            let n = tokens.len() as int;
            assert forall|d: int| 0 <= d < n implies #[trigger] seg.index.docs@[d].doc_len
                == indexer::token_len(tokens[d]) by {
                assert(same_meta(seg.index.docs@[d], live_metas(segs, m as int)[d]));
            }
            assert(none@ =~= Seq::<u64>::empty());
            lemma_all_live(seg.index.lens(), n);
            assert(seg.wf(w));
            assert forall|t: Seq<char>| #[trigger] seg.index.terms@.contains(t) <==> live_list(
                segs,
                t,
                m as int,
            ).len() > 0 by {
                lemma_live_list(segs, w, t, m as int);
            }
            let one = self.segments@;
            assert(one.len() == 1);
            assert(live_docs(one) == seg.live_docs) by {
                reveal_with_fuel(sums::total, 2);
            }
            assert(live_len(one) == seg.live_len) by {
                reveal_with_fuel(sums::total, 2);
            }
        }
    }
}

impl SegmentedIndex {
    /// Tokens of the documents that are not tombstoned.
    fn live_tokens_total(&self) -> (n: u64)
        requires
            self.wf(),
        ensures
            n == live_len(self.segments@),
    {
        let mut total: u64 = 0;
        let mut i: usize = 0;
        while i < self.segments.len()
            invariant
                self.wf(),
                i <= self.segments@.len(),
                total == sums::total(live_len_fn(self.segments@), i as nat),
            decreases self.segments@.len() - i,
        {
            proof {
                sums::lemma_total_monotone(
                    live_len_fn(self.segments@),
                    (i + 1) as nat,
                    self.segments@.len(),
                );
            }
            total = total + self.segments[i].live_len;
            i += 1;
        }
        total
    }

    /// Do the documents fit beside those already there?
    pub fn room_for(&self, docs: &[DocTokens]) -> (r: bool)
        requires
            self.wf(),
        ensures
            r == self.has_room(indexer::doc_views(docs@)),
    {
        let ghost all = indexer::doc_views(docs@);
        let ghost lens = indexer::lens_fn(all);
        let n: usize = docs.len();
        let live: u64 = self.num_docs_live();
        if self.next_segment == u64::MAX || self.segments.len() >= u32::MAX as usize || n
            > u32::MAX as usize || live + n as u64 > u32::MAX as u64 {
            return false;
        }
        let weight: u128 = self.title_weight as u128;
        let mut total: u128 = 0;
        let mut i: usize = 0;
        while i < n
            invariant
                i <= n,
                n == docs@.len(),
                n <= u32::MAX,
                all == indexer::doc_views(docs@),
                lens == indexer::lens_fn(all),
                weight == self.title_weight,
                total == sums::total(lens, i as nat),
                total <= i * (2 * u64::MAX),
                forall|j: int|
                    0 <= j < i ==> weight * (#[trigger] all[j]).title.len() + all[j].body.len()
                        <= u32::MAX,
            decreases n - i,
        {
            let title: usize = docs[i].title_tokens.len();
            let body: usize = docs[i].body_tokens.len();
            assert(all[i as int] == docs@[i as int]@);
            assert(lens(i as int) == title + body);
            assert(weight * title <= u32::MAX * u64::MAX) by (nonlinear_arith)
                requires
                    weight <= u32::MAX,
                    title <= u64::MAX,
            ;
            assert(i * (2 * u64::MAX) + 2 * u64::MAX <= u128::MAX && (i + 1) * (2 * u64::MAX) == i
                * (2 * u64::MAX) + 2 * u64::MAX) by (nonlinear_arith)
                requires
                    i <= u32::MAX,
            ;
            if weight * (title as u128) + body as u128 > u32::MAX as u128 {
                assert(weight * all[i as int].title.len() + all[i as int].body.len() > u32::MAX);
                return false;
            }
            total = total + title as u128 + body as u128;
            i += 1;
        }
        let held: u64 = self.live_tokens_total();
        held as u128 + total <= u64::MAX as u128 && indexer::terms_fit(docs)
    }

    /// May the segments be merged into one?
    pub fn can_merge(&self) -> (r: bool)
        requires
            self.wf(),
        ensures
            r == (self.next_segment < u64::MAX && all_names(
                self.segments@,
                self.segments@.len() as int,
            ).len() <= u32::MAX),
    {
        let n: usize = self.segments.len();
        let mut names = Interner::new();
        let mut i: usize = 0;
        assert(names@ =~= Seq::<Seq<char>>::empty());
        while i < n
            invariant
                i <= n,
                n == self.segments@.len(),
                names.wf(),
                names@ == all_names(self.segments@, i as int),
                names@.len() <= u32::MAX,
            decreases n - i,
        {
            proof {
                lemma_names_grow(self.segments@, i + 1, n as int);
            }
            if !indexer::note(&mut names, &self.segments[i].index.terms.names) {
                return false;
            }
            i += 1;
        }
        self.next_segment < u64::MAX
    }
}

/// The name stands among the first `n` of the dictionary.
spec fn seen_before(dict: Seq<Seq<char>>, t: Seq<char>, n: int) -> bool {
    exists|x: int| 0 <= x < n && #[trigger] dict[x] == t
}

/// A term that no segment has, has no live postings.
proof fn lemma_unknown_term(segments: Seq<Segment>, t: Seq<char>, n: int)
    requires
        0 <= n <= segments.len(),
        forall|si: int|
            0 <= si < segments.len() ==> !(#[trigger] segments[si]).index.terms@.contains(t),
    ensures
        live_list(segments, t, n).len() == 0,
    decreases n,
{
    if n > 0 {
        lemma_unknown_term(segments, t, n - 1);
        assert(!segments[n - 1].index.terms@.contains(t));
        assert(segments[n - 1].index.postings_of(t) =~= Seq::<Posting>::empty());
    }
}

/// A merge gives what a fresh build of the live documents gives: the same
/// terms under the same ids, the same postings, weights and block bounds.
pub proof fn law_merge_is_a_fresh_build(
    before: Seq<Segment>,
    merged: Segment,
    fresh: Index,
    weight: nat,
)
    requires
        merged.wf(weight),
        compacts(merged, before),
        indexer::indexes(
            fresh,
            live_tokens(before, before.len() as int),
            weight,
            fresh.docs@,
        ),
        indexer::meta_lens(fresh.docs@) == indexer::meta_lens(merged.index.docs@),
        fresh.block_size == postings::DEFAULT_BLOCK_SIZE,
    ensures
        indexer::same_index(merged.index, fresh),
        merged.live_docs == live_tokens(before, before.len() as int).len(),
{
    indexer::law_one_index_per_document_list(
        merged.index,
        fresh,
        live_tokens(before, before.len() as int),
        weight,
    );
    lemma_untouched_live(merged.deleted@, merged.index.docs@.len() as int);
}

/// Where as many documents are alive as there are, all are.
proof fn lemma_none_dead(lens: Seq<u32>, deleted: Seq<u64>, n: int)
    requires
        0 <= n <= lens.len(),
    ensures
        live_count(deleted, n) <= n,
        live_count(deleted, n) == n ==> {
            &&& live_total(lens, deleted, n) == sums::total(|d: int| lens[d] as nat, n as nat)
            &&& forall|d: int| 0 <= d < n ==> !#[trigger] bit(deleted, d)
        },
    decreases n,
{
    if n > 0 {
        lemma_none_dead(lens, deleted, n - 1);
    }
}

proof fn lemma_all_of<T>(items: Seq<T>, deleted: Seq<u64>, n: int)
    requires
        0 <= n <= items.len(),
        forall|d: int| 0 <= d < n ==> !#[trigger] bit(deleted, d),
    ensures
        live_of(items, deleted, n) == items.take(n),
    decreases n,
{
    if n > 0 {
        lemma_all_of(items, deleted, n - 1);
        assert(!bit(deleted, n - 1));
        assert(items.take(n - 1).push(items[n - 1]) =~= items.take(n));
    } else {
        assert(items.take(0) =~= Seq::<T>::empty());
    }
}

/// The ids of the documents with these metadata.
pub open spec fn meta_ids(metas: Seq<indexer::DocMeta>) -> Seq<Seq<char>> {
    Seq::new(metas.len(), |i: int| metas[i].external_id@)
}

/// A merge leaves one segment that holds the live documents in their order,
/// all of them alive, and a second merge changes nothing.
pub proof fn law_merge_keeps_the_live_documents(
    a: SegmentedIndex,
    b: SegmentedIndex,
    c: SegmentedIndex,
)
    requires
        a.wf(),
        b.wf(),
        a.segments@.len() >= 1,
        is_merged(a, b),
        is_merged(b, c),
    ensures
        b.segments@.len() == 1,
        b.segments@[0].index.docs@.len() == live_docs(b.segments@),
        live_docs(b.segments@) == live_docs(a.segments@),
        meta_ids(b.segments@[0].index.docs@) == meta_ids(
            live_metas(a.segments@, a.segments@.len() as int),
        ),
        b.segments@[0].tokens@ == live_tokens(a.segments@, a.segments@.len() as int),
        forall|t: Seq<char>| #[trigger]
            global_df(b.segments@, t) == indexer::term_list(
                live_tokens(a.segments@, a.segments@.len() as int),
                a.title_weight as nat,
                t,
                live_tokens(a.segments@, a.segments@.len() as int).len() as int,
            ).len(),
        c == b,
{
    let w = a.title_weight as nat;
    let (x, y) = (a.segments@, b.segments@);
    let m = x.len() as int;
    lemma_live_tokens_len(x, w, m);
    let seg = y[0];
    assert(seg.wf(b.title_weight as nat));
    let n = seg.index.docs@.len() as int;
    assert(live_docs(y) == sums::total(live_fn(y), 0) + live_fn(y)(0));
    assert(sums::total(live_fn(y), 0) == 0);
    if wants_merge(x) {
        lemma_untouched_live(seg.deleted@, n);
        assert(meta_ids(seg.index.docs@) =~= meta_ids(live_metas(x, m))) by {
            assert forall|d: int| 0 <= d < n implies seg.index.docs@[d].external_id@ == live_metas(
                x,
                m,
            )[d].external_id@ by {
                assert(same_meta(seg.index.docs@[d], live_metas(x, m)[d]));
            }
        }
    } else {
        assert(m == 1);
        lemma_none_dead(seg.index.lens(), seg.deleted@, n);
        lemma_all_of(seg.tokens@, seg.deleted@, n);
        lemma_all_of(seg.index.docs@, seg.deleted@, n);
        assert(live_tokens(x, 0) =~= Seq::<TokenModel>::empty());
        assert(live_metas(x, 0) =~= Seq::<indexer::DocMeta>::empty());
        assert(live_tokens(x, 1) =~= seg.tokens@);
        assert(live_metas(x, 1) =~= seg.index.docs@);
    }
    assert forall|t: Seq<char>| #[trigger] global_df(y, t) == indexer::term_list(
        live_tokens(x, m),
        w,
        t,
        live_tokens(x, m).len() as int,
    ).len() by {
        assert(sums::total(df_fn(y, t), 0) == 0);
        assert(global_df(y, t) == df_fn(y, t)(0));
        assert(seg.index.postings_of(t) == indexer::term_list(seg.tokens@, w, t, seg.tokens@.len() as int));
    }
}

/// Every entry of a term carries its weight, so the first does.
proof fn lemma_weight_found(segments: Seq<Segment>, idfs: Seq<(Seq<char>, u32)>, t: Seq<char>)
    requires
        forall|i: int|
            0 <= i < idfs.len() ==> (#[trigger] idfs[i]).1 == bm25::idf_spec(
                live_docs(segments),
                global_df(segments, idfs[i].0),
            ) as u32,
        exists|i: int| 0 <= i < idfs.len() && (#[trigger] idfs[i]).0 == t,
    ensures
        weight_in(idfs, t) == Some(
            bm25::idf_spec(live_docs(segments), global_df(segments, t)) as u32,
        ),
    decreases idfs.len(),
{
    if idfs[0].0 != t {
        let rest = idfs.drop_first();
        let i = choose|i: int| 0 <= i < idfs.len() && (#[trigger] idfs[i]).0 == t;
        assert(rest[i - 1].0 == t);
        assert forall|j: int| 0 <= j < rest.len() implies (#[trigger] rest[j]).1 == bm25::idf_spec(
            live_docs(segments),
            global_df(segments, rest[j].0),
        ) as u32 by {
            assert(idfs[j + 1] == rest[j]);
        }
        lemma_weight_found(segments, rest, t);
    }
}

proof fn lemma_query_weights(segments: Seq<Segment>, terms: Seq<Seq<char>>)
    ensures
        ({
            let w = query_weights(segments, terms);
            &&& forall|i: int|
                0 <= i < w.len() ==> (#[trigger] w[i]).1 == bm25::idf_spec(
                    live_docs(segments),
                    global_df(segments, w[i].0),
                ) as u32
            &&& forall|j: int|
                0 <= j < terms.len() && global_df(segments, #[trigger] terms[j]) > 0 ==> exists|i: int|
                    0 <= i < w.len() && (#[trigger] w[i]).0 == terms[j]
        }),
    decreases terms.len(),
{
    if terms.len() > 0 {
        let front = terms.drop_last();
        lemma_query_weights(segments, front);
        let v = query_weights(segments, front);
        let w = query_weights(segments, terms);
        assert forall|j: int|
            0 <= j < terms.len() && global_df(segments, #[trigger] terms[j]) > 0 implies exists|i: int|
            0 <= i < w.len() && (#[trigger] w[i]).0 == terms[j] by {
            if j < front.len() {
                assert(front[j] == terms[j]);
                let i = choose|i: int| 0 <= i < v.len() && (#[trigger] v[i]).0 == front[j];
                assert(w[i] == v[i]);
            } else {
                assert(w[v.len() as int].0 == terms[j]);
            }
        }
    }
}

/// On a single segment without tombstones, such as a merge leaves, every query
/// scores as on a fresh index of the same documents.
pub proof fn law_merged_queries_score_as_fresh(
    segments: Seq<Segment>,
    fresh: Index,
    weight: nat,
    terms: Seq<Seq<char>>,
)
    requires
        segments.len() == 1,
        segments[0].wf(weight),
        segments[0].live_docs == segments[0].index.docs@.len(),
        indexer::indexes(fresh, segments[0].tokens@, weight, fresh.docs@),
    ensures
        segment_models(segments, 0, terms) == block_max_wand::query_models(&fresh, terms),
{
    let seg = segments[0];
    let tokens = seg.tokens@;
    let n = tokens.len() as int;
    let f = |d: int| seg.index.lens()[d] as nat;
    lemma_none_dead(seg.index.lens(), seg.deleted@, n);
    assert forall|d: int| 0 <= d < n implies #[trigger] f(d) == indexer::lens_fn(tokens)(d) by {
        assert(seg.index.docs@[d].doc_len == indexer::token_len(tokens[d]));
    }
    sums::lemma_total_eq(f, indexer::lens_fn(tokens), n as nat);
    sums::lemma_total_eq(f, |d: int| seg.index.lens()[d] as nat, n as nat);
    assert(sums::total(live_fn(segments), 0) == 0 && sums::total(live_len_fn(segments), 0) == 0);
    assert(live_docs(segments) == live_fn(segments)(0) == n);
    assert(live_len(segments) == live_len_fn(segments)(0) == indexer::total_len(tokens));
    lemma_query_weights(segments, terms);
    let weights = query_weights(segments, terms);
    let avg = global_avg(segments) as u32;
    assert forall|j: int| 0 <= j < terms.len() implies seen_term(
        seg,
        weights,
        avg,
        #[trigger] terms[j],
    ) == fresh.model(terms[j]) by {
        let t = terms[j];
        let list = indexer::term_list(tokens, weight, t, n);
        assert(sums::total(df_fn(segments, t), 0) == 0);
        assert(global_df(segments, t) == df_fn(segments, t)(0));
        assert(seg.index.postings_of(t) == list);
        assert(fresh.model(t) == indexer::indexed_term(tokens, weight, t));
        assert(seg.index.model(t) == indexer::indexed_term(tokens, weight, t));
        if list.len() > 0 {
            lemma_weight_found(segments, weights, t);
            bm25::law_idf_bounded(n as nat, list.len());
        }
    }
    block_max_wand::lemma_firsts_below(terms);
    lemma_same_models(seg, weights, avg, &fresh, terms, block_max_wand::firsts(terms));
}

proof fn lemma_same_models(
    seg: Segment,
    weights: Seq<(Seq<char>, u32)>,
    avg: u32,
    fresh: &Index,
    terms: Seq<Seq<char>>,
    positions: Seq<int>,
)
    requires
        forall|j: int|
            0 <= j < terms.len() ==> seen_term(seg, weights, avg, #[trigger] terms[j])
                == fresh.model(terms[j]),
        forall|i: int| 0 <= i < positions.len() ==> 0 <= #[trigger] positions[i] < terms.len(),
    ensures
        seen_models(seg, weights, avg, terms, positions) == block_max_wand::models_at(
            fresh,
            terms,
            positions,
        ),
    decreases positions.len(),
{
    if positions.len() > 0 {
        let front = positions.drop_last();
        assert forall|i: int| 0 <= i < front.len() implies 0 <= #[trigger] front[i]
            < terms.len() by {
            assert(front[i] == positions[i]);
        }
        lemma_same_models(seg, weights, avg, fresh, terms, front);
        assert(0 <= positions[positions.len() - 1] < terms.len());
    }
}

proof fn lemma_untouched_live(deleted: Seq<u64>, n: int)
    requires
        deleted.len() == 0,
        0 <= n,
    ensures
        live_count(deleted, n) == n,
    decreases n,
{
    if n > 0 {
        lemma_untouched_live(deleted, n - 1);
        assert(!bit(deleted, n - 1));
    }
}

// ---------------------------------------------------------------------------
// Opening and recovery
// ---------------------------------------------------------------------------

/// A segment as it was stored: its name, its documents and its tombstones.
pub open spec fn is_stored(
    seg: Segment,
    name: Seq<char>,
    docs: Seq<DocTokens>,
    tombstones: Seq<u8>,
) -> bool {
    &&& seg.name@ == name
    &&& seg.tokens@ == indexer::doc_views(docs)
    &&& seg.index.docs@.len() == docs.len()
    &&& forall|i: int|
        0 <= i < docs.len() ==> indexer::is_meta(
            #[trigger] seg.index.docs@[i],
            docs[i].doc,
            docs[i]@,
        )
    &&& seg.deleted@.len() == words_for(docs.len() as int)
    &&& forall|i: int|
        0 <= i < seg.deleted@.len() ==> #[trigger] seg.deleted@[i] == stored_word(tombstones, i)
}

impl SegmentedIndex {
    /// Open a stored segment behind those already open. Its live documents
    /// are counted anew.
    pub fn open_segment(&mut self, name: String, docs: &[DocTokens], tombstones: &[u8]) -> (r: Result<
        (),
        SegmentError,
    >)
        requires
            old(self).wf(),
            old(self).has_room(indexer::doc_views(docs@)),
        ensures
            final(self).wf(),
            r is Err <==> docs@.len() == 0,
            r is Err ==> *final(self) == *old(self),
            r is Ok ==> {
                &&& final(self).segments@.len() == old(self).segments@.len() + 1
                &&& final(self).segments@.drop_last() == old(self).segments@
                &&& is_stored(final(self).segments@.last(), name@, docs@, tombstones@)
            },
            final(self).next_segment == old(self).next_segment,
            final(self).remove_stopwords == old(self).remove_stopwords,
            final(self).title_weight == old(self).title_weight,
            final(self).code_mode == old(self).code_mode,
    {
        let ghost before = *self;
        let ghost w = self.title_weight as nat;
        let next: u64 = self.next_segment;
        if let Err(e) = self.add_documents(docs) {
            return Err(e);
        }
        self.next_segment = next;
        let ghost mid = *self;
        let at: usize = self.segments.len() - 1;
        assert(self.segments@[at as int].wf(w));
        let n: usize = self.segments[at].index.docs.len();
        let words = read_tombstones(tombstones, n as u32);
        let (live, len) = recount_live(&self.segments[at].index, words.as_slice());
        match self.segments.pop() {
            Some(fresh) => {
                let ghost lens = fresh.index.lens();
                self.segments.push(
                    Segment {
                        name,
                        index: fresh.index,
                        deleted: words,
                        live_docs: live,
                        live_len: len,
                        tokens: fresh.tokens,
                    },
                );
                proof {
                    let a = mid.segments@;
                    let b = self.segments@;
                    let seg = b[at as int];
                    assert(b.drop_last() =~= before.segments@);
                    assert(fresh.tokens@ =~= indexer::doc_views(docs@));
                    lemma_live_shrink_to(lens, fresh.deleted@, words@, n as int);
                    assert(seg.wf(w));
                    assert forall|i: int| 0 <= i < b.len() implies (#[trigger] b[i]).wf(w)
                        && b[i].live_docs <= a[i].live_docs && b[i].live_len <= a[i].live_len by {
                        if i < at {
                            assert(b[i] == a[i]);
                            assert(a[i].wf(w));
                        }
                    }
                    sums::lemma_total_le(live_fn(b), live_fn(a), a.len());
                    sums::lemma_total_le(live_len_fn(b), live_len_fn(a), a.len());
                }
            },
            None => {},
        }
        Ok(())
    }

    /// Replace a document, or add it: the live document with its id is
    /// tombstoned, and the new one becomes a segment of its own.
    pub fn update_document(&mut self, doc: DocTokens) -> (name: String)
        requires
            old(self).wf(),
            old(self).has_room(seq![doc@]),
        ensures
            final(self).wf(),
            name@ == segment_text(old(self).next_segment as nat),
            final(self).segments@.len() == old(self).segments@.len() + 1,
            buried(
                old(self).segments@,
                final(self).segments@.drop_last(),
                seq![doc.doc.id@],
            ),
            is_fresh(
                final(self).segments@.last(),
                seq![doc],
                seq![0usize],
                old(self).next_segment as nat,
            ),
            final(self).next_segment == old(self).next_segment + 1,
            final(self).remove_stopwords == old(self).remove_stopwords,
            final(self).title_weight == old(self).title_weight,
            final(self).code_mode == old(self).code_mode,
    {
        let ghost before = *self;
        let mut docs: Vec<DocTokens> = Vec::new();
        docs.push(doc);
        self.delete_document(docs[0].doc.id.as_str());
        proof {
            lemma_live_shrinks(before.segments@, self.segments@, self.title_weight as nat);
            assert(indexer::doc_views(docs@) =~= seq![doc@]);
            assert(docs@ =~= seq![doc]);
            assert(Seq::new(1, |i: int| i as usize) =~= seq![0usize]);
        }
        self.add_documents(docs.as_slice()).unwrap()
    }

    /// The hits of a query as they are ranked, for callers that join their
    /// scores with others.
    pub fn search_hits_raw(&self, terms: &Vec<String>, k: usize) -> (hits: Vec<SegmentHit>)
        requires
            self.wf(),
        ensures
            is_global_top_k(hits@, self.segments@, block_max_wand::texts(terms@), k as nat),
    {
        self.search_core(terms, k).0
    }
}

/// Fewer documents, and fewer tokens, are live under some tombstones than
/// under none.
proof fn lemma_live_shrink_to(lens: Seq<u32>, none: Seq<u64>, some: Seq<u64>, n: int)
    requires
        none.len() == 0,
        0 <= n <= lens.len(),
    ensures
        live_count(some, n) <= live_count(none, n),
        live_total(lens, some, n) <= live_total(lens, none, n),
    decreases n,
{
    if n > 0 {
        lemma_live_shrink_to(lens, none, some, n - 1);
    }
}

/// What becomes of an entry of an index directory when a writer opens it.
#[derive(Clone, Copy, PartialEq, Eq, Debug, Structural)]
pub enum Leftover {
    Keep,
    /// Tombstones of a segment that is gone.
    RemoveFile,
    /// A segment that nothing refers to.
    RemoveDir,
}

/// An interrupted merge or addition leaves segments and tombstones behind
/// that the index does not list.
pub open spec fn leftover_of(name: Seq<char>, is_dir: bool, listed: Seq<Seq<char>>) -> Leftover {
    if text::ends(name, ".del"@) {
        if listed.contains(name.take(name.len() - ".del"@.len())) {
            Leftover::Keep
        } else {
            Leftover::RemoveFile
        }
    } else if text::begins(name, "seg-"@) && is_dir && !listed.contains(name) {
        Leftover::RemoveDir
    } else {
        Leftover::Keep
    }
}

fn is_listed(name: &[char], listed: &Vec<String>) -> (r: bool)
    ensures
        r == block_max_wand::texts(listed@).contains(name@),
{
    let ghost all = block_max_wand::texts(listed@);
    let mut i: usize = 0;
    while i < listed.len()
        invariant
            i <= listed@.len(),
            all == block_max_wand::texts(listed@),
            forall|j: int| 0 <= j < i ==> #[trigger] all[j] != name@,
        decreases listed@.len() - i,
    {
        if text::is(name, listed[i].as_str()) {
            assert(all[i as int] == name@);
            return true;
        }
        i += 1;
    }
    false
}

/// Decide on an entry of an index directory; `listed` are the segments of
/// the index.
pub fn leftover(name: &str, is_dir: bool, listed: &Vec<String>) -> (r: Leftover)
    ensures
        r == leftover_of(name@, is_dir, block_max_wand::texts(listed@)),
{
    proof {
        reveal_strlit(".del");
    }
    let chars = text::chars_of(name);
    if text::ends_with(chars.as_slice(), ".del") {
        let stem: &[char] = slice_subrange(chars.as_slice(), 0, chars.len() - 4);
        assert(stem@ =~= name@.take(name@.len() - 4));
        if is_listed(stem, listed) {
            Leftover::Keep
        } else {
            Leftover::RemoveFile
        }
    } else if text::starts_with(chars.as_slice(), "seg-") && is_dir && !is_listed(
        chars.as_slice(),
        listed,
    ) {
        Leftover::RemoveDir
    } else {
        Leftover::Keep
    }
}

/// Deleting an id tombstones the document that is found under it and no other:
/// every other document is as it was, and where the id was alive once it is
/// alive no more.
pub proof fn law_deleted_documents_are_gone(
    a: Seq<Segment>,
    b: Seq<Segment>,
    id: Seq<char>,
    si: int,
    d: int,
)
    requires
        buried(a, b, seq![id]),
    ensures
        0 <= si < a.len() && 0 <= d < a[si].index.docs@.len()
            && a[si].index.docs@[d].external_id@ != id ==> bit(b[si].deleted@, d) == bit(
            a[si].deleted@,
            d,
        ),
        found_alive(a, id) ==> !alive(b, id, si, d),
        alive(b, id, si, d) ==> alive(a, id, si, d),
        b.len() == a.len(),
        0 <= si < a.len() ==> b[si].index == a[si].index,
{
    let ids = seq![id];
    assert(ids[0] == id);
    lemma_live_doc(a, id, 0);
    if 0 <= si < a.len() && 0 <= d {
        assert(same_but_bits(a[si], b[si]));
        assert(bit(b[si].deleted@, d) == (bit(a[si].deleted@, d) || is_target(a, ids, si, d)));
        if is_target(a, ids, si, d) {
            let j = choose|j: int|
                0 <= j < ids.len() && live_doc(a, #[trigger] ids[j], 0) == Some((si, d));
            assert(ids[j] == id);
        }
        if alive(b, id, si, d) && found_alive(a, id) {
            assert(alive(a, id, si, d));
            assert(live_doc(a, ids[0], 0) == Some((si, d)));
        }
    }
}

/// A search over segments finds documents that are not tombstoned, with the
/// higher scores first, equal ones by segment and document; and a document that
/// is alive and holds a term of the query is found, or outranked by `k` others.
pub proof fn law_segmented_search(
    hits: Seq<SegmentHit>,
    segments: Seq<Segment>,
    terms: Seq<Seq<char>>,
    k: nat,
    si: int,
    d: u32,
)
    requires
        is_global_top_k(hits, segments, terms, k),
    ensures
        hits.len() <= k,
        forall|i: int|
            0 <= i < hits.len() ==> (#[trigger] hits[i]).segment < segments.len() && !bit(
                segments[hits[i].segment as int].deleted@,
                hits[i].doc_id as int,
            ),
        forall|i: int, j: int|
            0 <= i < j < hits.len() ==> (#[trigger] hits[i]).score >= (#[trigger] hits[j]).score,
        segment_match(segments, terms, si, d) ==> (exists|i: int|
            0 <= i < hits.len() && (#[trigger] hits[i]).segment == si && hits[i].doc_id == d) || (
        hits.len() == k && forall|i: int|
            0 <= i < hits.len() ==> (#[trigger] hits[i]).score >= segment_score(
                segments,
                terms,
                si,
                d,
            )),
{
    assert forall|i: int| 0 <= i < hits.len() implies (#[trigger] hits[i]).segment < segments.len()
        && !bit(segments[hits[i].segment as int].deleted@, hits[i].doc_id as int) by {
        assert(segment_match(segments, terms, hits[i].segment as int, hits[i].doc_id));
    }
    assert forall|i: int, j: int| 0 <= i < j < hits.len() implies (#[trigger] hits[i]).score >= (
    #[trigger] hits[j]).score by {
        assert(ranks_before(hits[i], hits[j]));
    }
    if segment_match(segments, terms, si, d) {
        assert(hit_or_beaten(hits, k, si, d, segment_score(segments, terms, si, d)));
    }
}

/// A term as a segment is searched for it: the postings are the segment's own,
/// the statistics those of the whole index.
pub open spec fn weighs_globally(
    segments: Seq<Segment>,
    si: int,
    t: Seq<char>,
    m: block_max_wand::TermModel,
) -> bool {
    &&& m.list == segments[si].index.postings_of(t)
    &&& m.list.len() > 0
    &&& m.idf == bm25::idf_spec(live_docs(segments), global_df(segments, t)) as u32
    &&& m.avg_doc_len == indexer::average_len(live_len(segments), live_docs(segments)) as u32
}

/// Every term of a query that a segment holds counts there, by the statistics of
/// the whole index.
pub proof fn law_terms_weigh_globally(
    segments: Seq<Segment>,
    si: int,
    terms: Seq<Seq<char>>,
    t: Seq<char>,
)
    requires
        0 <= si < segments.len(),
        terms.contains(t),
        segments[si].index.postings_of(t).len() > 0,
    ensures
        exists|j: int|
            0 <= j < segment_models(segments, si, terms).len() && weighs_globally(
                segments,
                si,
                t,
                #[trigger] segment_models(segments, si, terms)[j],
            ),
{
    let weights = query_weights(segments, terms);
    let avg = global_avg(segments) as u32;
    lemma_query_weights(segments, terms);
    lemma_part_of_total(df_fn(segments, t), segments.len(), si);
    let i = choose|i: int| 0 <= i < terms.len() && terms[i] == t;
    assert(global_df(segments, terms[i]) > 0);
    lemma_weight_found(segments, weights, t);
    let q = lemma_first_found(terms, t);
    let seen = seen_term(segments[si], weights, avg, t);
    assert(seen is Some);
    assert(weighs_globally(segments, si, t, seen->Some_0));
    lemma_seen_has(segments[si], weights, avg, terms, block_max_wand::firsts(terms), q);
    let models = segment_models(segments, si, terms);
    let j = choose|j: int| 0 <= j < models.len() && seen == Some(#[trigger] models[j]);
    assert(weighs_globally(segments, si, t, models[j]));
}

/// Nothing else counts: what a segment is searched for are terms of the query
/// that it holds.
pub proof fn law_only_query_terms_count(
    segments: Seq<Segment>,
    si: int,
    terms: Seq<Seq<char>>,
    j: int,
)
    requires
        0 <= si < segments.len(),
        0 <= j < segment_models(segments, si, terms).len(),
    ensures
        exists|t: Seq<char>|
            terms.contains(t) && #[trigger] weighs_globally(
                segments,
                si,
                t,
                segment_models(segments, si, terms)[j],
            ),
{
    let weights = query_weights(segments, terms);
    let avg = global_avg(segments) as u32;
    let f = block_max_wand::firsts(terms);
    lemma_query_weights(segments, terms);
    block_max_wand::lemma_firsts_below(terms);
    let q = lemma_seen_from(segments[si], weights, avg, terms, f, j);
    let t = terms[f[q]];
    lemma_weight_some(weights, t);
    let i = choose|i: int|
        0 <= i < weights.len() && (#[trigger] weights[i]).0 == t && Some(weights[i].1) == weight_in(
            weights,
            t,
        );
    assert(weights[i].1 == bm25::idf_spec(live_docs(segments), global_df(segments, t)) as u32);
    assert(weighs_globally(segments, si, t, segment_models(segments, si, terms)[j]));
}

proof fn lemma_part_of_total(f: spec_fn(int) -> nat, n: nat, i: int)
    requires
        0 <= i < n,
    ensures
        f(i) <= sums::total(f, n),
    decreases n,
{
    if i + 1 < n {
        lemma_part_of_total(f, (n - 1) as nat, i);
    }
}

proof fn lemma_weight_some(idfs: Seq<(Seq<char>, u32)>, t: Seq<char>)
    requires
        weight_in(idfs, t) is Some,
    ensures
        exists|i: int|
            0 <= i < idfs.len() && (#[trigger] idfs[i]).0 == t && Some(idfs[i].1) == weight_in(
                idfs,
                t,
            ),
    decreases idfs.len(),
{
    if idfs[0].0 != t {
        let rest = idfs.drop_first();
        lemma_weight_some(rest, t);
        let i = choose|i: int|
            0 <= i < rest.len() && (#[trigger] rest[i]).0 == t && Some(rest[i].1) == weight_in(
                rest,
                t,
            );
        assert(idfs[i + 1] == rest[i]);
    }
}

proof fn lemma_first_found(terms: Seq<Seq<char>>, t: Seq<char>) -> (q: int)
    requires
        terms.contains(t),
    ensures
        0 <= q < block_max_wand::firsts(terms).len(),
        0 <= block_max_wand::firsts(terms)[q] < terms.len(),
        terms[block_max_wand::firsts(terms)[q]] == t,
    decreases terms.len(),
{
    let front = terms.drop_last();
    let i = choose|i: int| 0 <= i < terms.len() && terms[i] == t;
    if front.contains(t) {
        let q = lemma_first_found(front, t);
        assert(terms[block_max_wand::firsts(front)[q]] == front[block_max_wand::firsts(front)[q]]);
        q
    } else {
        if i + 1 < terms.len() {
            assert(front[i] == t);
        }
        block_max_wand::firsts(terms).len() - 1
    }
}

proof fn lemma_seen_has(
    segment: Segment,
    idfs: Seq<(Seq<char>, u32)>,
    avg: u32,
    terms: Seq<Seq<char>>,
    positions: Seq<int>,
    q: int,
)
    requires
        0 <= q < positions.len(),
        seen_term(segment, idfs, avg, terms[positions[q]]) is Some,
    ensures
        exists|j: int|
            0 <= j < seen_models(segment, idfs, avg, terms, positions).len() && seen_term(
                segment,
                idfs,
                avg,
                terms[positions[q]],
            ) == Some(#[trigger] seen_models(segment, idfs, avg, terms, positions)[j]),
    decreases positions.len(),
{
    let all = seen_models(segment, idfs, avg, terms, positions);
    let front = seen_models(segment, idfs, avg, terms, positions.drop_last());
    if q + 1 < positions.len() {
        lemma_seen_has(segment, idfs, avg, terms, positions.drop_last(), q);
        let j = choose|j: int|
            0 <= j < front.len() && seen_term(segment, idfs, avg, terms[positions[q]]) == Some(
                #[trigger] front[j],
            );
        assert(all[j] == front[j]);
    } else {
        assert(all[front.len() as int] == all.last());
    }
}

proof fn lemma_seen_from(
    segment: Segment,
    idfs: Seq<(Seq<char>, u32)>,
    avg: u32,
    terms: Seq<Seq<char>>,
    positions: Seq<int>,
    j: int,
) -> (q: int)
    requires
        0 <= j < seen_models(segment, idfs, avg, terms, positions).len(),
    ensures
        0 <= q < positions.len(),
        seen_term(segment, idfs, avg, terms[positions[q]]) == Some(
            seen_models(segment, idfs, avg, terms, positions)[j],
        ),
    decreases positions.len(),
{
    let front = seen_models(segment, idfs, avg, terms, positions.drop_last());
    if j < front.len() {
        lemma_seen_from(segment, idfs, avg, terms, positions.drop_last(), j)
    } else {
        positions.len() - 1
    }
}

/// The documents of a segment that count are those without a tombstone, and so
/// are the tokens.
pub proof fn law_live_documents_count(seg: Segment, weight: nat)
    requires
        seg.wf(weight),
    ensures
        seg.live_docs == Seq::new(seg.index.docs@.len(), |d: int| d).filter(
            |d: int| !bit(seg.deleted@, d),
        ).len(),
        seg.live_len == sums::total(
            |d: int|
                if bit(seg.deleted@, d) {
                    0nat
                } else {
                    seg.index.lens()[d] as nat
                },
            seg.index.docs@.len(),
        ),
{
    lemma_live_filter(seg.deleted@, seg.index.docs@.len());
    lemma_live_sum(seg.index.lens(), seg.deleted@, seg.index.docs@.len());
}

proof fn lemma_live_filter(deleted: Seq<u64>, n: nat)
    ensures
        live_count(deleted, n as int) == Seq::new(n, |d: int| d).filter(
            |d: int| !bit(deleted, d),
        ).len(),
    decreases n,
{
    reveal(Seq::filter);
    if n > 0 {
        lemma_live_filter(deleted, (n - 1) as nat);
        assert(Seq::new(n, |d: int| d).drop_last() =~= Seq::new((n - 1) as nat, |d: int| d));
    }
}

proof fn lemma_live_sum(lens: Seq<u32>, deleted: Seq<u64>, n: nat)
    ensures
        live_total(lens, deleted, n as int) == sums::total(
            |d: int|
                if bit(deleted, d) {
                    0nat
                } else {
                    lens[d] as nat
                },
            n,
        ),
    decreases n,
{
    if n > 0 {
        lemma_live_sum(lens, deleted, (n - 1) as nat);
    }
}

/// Merging takes over, in order, what stands at the places without a tombstone.
pub proof fn law_merging_takes_the_living<T>(items: Seq<T>, deleted: Seq<u64>, n: nat)
    requires
        n <= items.len(),
    ensures
        live_of(items, deleted, n as int) == Seq::new(n, |d: int| d).filter(
            |d: int| !bit(deleted, d),
        ).map_values(|d: int| items[d]),
    decreases n,
{
    reveal(Seq::filter);
    let at = Seq::new(n, |d: int| d);
    let f = |d: int| !bit(deleted, d);
    let g = |d: int| items[d];
    if n > 0 {
        law_merging_takes_the_living(items, deleted, (n - 1) as nat);
        assert(at.drop_last() =~= Seq::new((n - 1) as nat, |d: int| d));
        let front = at.drop_last().filter(f);
        assert(front.push(n - 1).map_values(g) =~= front.map_values(g).push(items[n - 1]));
    } else {
        assert(at.filter(f).map_values(g) =~= Seq::<T>::empty());
    }
}

/// What an interrupted write leaves behind is removed: directories of segments
/// that the manifest does not list, and tombstones of such. Nothing else is.
pub proof fn law_leftovers(base: Seq<char>, is_dir: bool, listed: Seq<Seq<char>>)
    ensures
        listed.contains(base) ==> leftover_of(base + ".del"@, is_dir, listed) == Leftover::Keep,
        !listed.contains(base) ==> leftover_of(base + ".del"@, is_dir, listed)
            == Leftover::RemoveFile,
        !text::ends(base, ".del"@) ==> {
            &&& listed.contains(base) ==> leftover_of(base, is_dir, listed) == Leftover::Keep
            &&& !is_dir ==> leftover_of(base, is_dir, listed) == Leftover::Keep
            &&& !text::begins(base, "seg-"@) ==> leftover_of(base, is_dir, listed)
                == Leftover::Keep
            &&& text::begins(base, "seg-"@) && is_dir && !listed.contains(base) ==> leftover_of(
                base,
                is_dir,
                listed,
            ) == Leftover::RemoveDir
        },
{
    let name = base + ".del"@;
    assert(name.skip(name.len() - ".del"@.len()) =~= ".del"@);
    assert(name.take(name.len() - ".del"@.len()) =~= base);
}

/// Deleting several documents deletes those, and leaves every other as it is.
pub proof fn law_only_named_documents_are_deleted(
    a: Seq<Segment>,
    b: Seq<Segment>,
    ids: Seq<Seq<char>>,
    id: Seq<char>,
    si: int,
    d: int,
)
    requires
        buried(a, b, ids),
    ensures
        alive(b, id, si, d) ==> alive(a, id, si, d),
        !ids.contains(id) ==> (alive(b, id, si, d) <==> alive(a, id, si, d)),
        ids.contains(id) && found_alive(a, id) ==> !alive(b, id, si, d),
{
    if 0 <= si < a.len() && 0 <= d < a[si].index.docs@.len() {
        assert(same_but_bits(a[si], b[si]));
        assert(bit(b[si].deleted@, d) == (bit(a[si].deleted@, d) || is_target(a, ids, si, d)));
        if is_target(a, ids, si, d) && a[si].index.docs@[d].external_id@ == id {
            let j = choose|j: int|
                0 <= j < ids.len() && live_doc(a, #[trigger] ids[j], 0) == Some((si, d));
            lemma_live_doc(a, ids[j], 0);
            assert(ids.contains(id));
        }
        if ids.contains(id) && found_alive(a, id) && alive(a, id, si, d) {
            let j = choose|j: int| 0 <= j < ids.len() && ids[j] == id;
            assert(live_doc(a, ids[j], 0) == Some((si, d)));
            assert(is_target(a, ids, si, d));
        }
    } else if 0 <= si < a.len() {
        assert(same_but_bits(a[si], b[si]));
    }
}

/// An upsert leaves the documents with other ids as they are.
pub proof fn law_upsert_leaves_others_alone(
    a: SegmentedIndex,
    b: SegmentedIndex,
    docs: Seq<DocTokens>,
    id: Seq<char>,
    si: int,
    d: int,
)
    requires
        upserted(a, b, docs),
        docs.len() <= usize::MAX,
        !doc_ids(docs).contains(id),
    ensures
        alive(b.segments@, id, si, d) <==> alive(a.segments@, id, si, d),
{
    let n = docs.len() as int;
    let written = to_write(a.segments@, docs, n);
    let gone = to_bury(a.segments@, docs, n);
    let old_part = if written.len() == 0 {
        b.segments@
    } else {
        b.segments@.drop_last()
    };
    assert(!gone.contains(id)) by {
        if gone.contains(id) {
            lemma_gone(a.segments@, docs, n, id);
            let j = choose|j: int|
                0 <= j < n && #[trigger] change_of(a.segments@, docs, j) is Updated
                    && docs[j].doc.id@ == id;
            assert(doc_ids(docs)[j] == id);
        }
    }
    law_only_named_documents_are_deleted(a.segments@, old_part, gone, id, si, d);
    if 0 <= si < a.segments@.len() {
        assert(old_part[si] == b.segments@[si]);
    }
    if written.len() > 0 && si == a.segments@.len() && alive(b.segments@, id, si, d) {
        let seg = b.segments@.last();
        assert(seg == b.segments@[si]);
        lemma_written_in_range(a.segments@, docs, n);
        assert(indexer::is_meta(
            seg.index.docs@[d],
            docs[written[d] as int].doc,
            docs[written[d] as int]@,
        ));
        assert(doc_ids(docs)[written[d] as int] == id);
    }
}

proof fn lemma_written_in_range(segments: Seq<Segment>, docs: Seq<DocTokens>, n: int)
    requires
        0 <= n <= docs.len() <= usize::MAX,
    ensures
        forall|q: int|
            0 <= q < to_write(segments, docs, n).len() ==> (#[trigger] to_write(segments, docs, n)[q])
                < n,
    decreases n,
{
    if n > 0 {
        lemma_written_in_range(segments, docs, n - 1);
        let front = to_write(segments, docs, n - 1);
        let all = to_write(segments, docs, n);
        assert forall|q: int| 0 <= q < all.len() implies (#[trigger] all[q]) < n by {
            if q < front.len() {
                assert(all[q] == front[q]);
            }
        }
    }
}

/// The statistics of an index add up over its segments: documents and tokens
/// without those that are deleted, and how many documents each segment lists
/// under a term.
pub proof fn law_statistics_add_up(segments: Seq<Segment>, s: Segment, t: Seq<char>)
    ensures
        live_docs(Seq::empty()) == 0,
        live_len(Seq::empty()) == 0,
        global_df(Seq::empty(), t) == 0,
        live_docs(segments.push(s)) == live_docs(segments) + s.live_docs,
        live_len(segments.push(s)) == live_len(segments) + s.live_len,
        global_df(segments.push(s), t) == global_df(segments, t) + s.index.postings_of(t).len(),
{
    let all = segments.push(s);
    let n = segments.len();
    assert forall|i: int| 0 <= i < n implies #[trigger] live_fn(segments)(i) == live_fn(all)(i) by {
        assert(all[i] == segments[i]);
    }
    sums::lemma_total_eq(live_fn(segments), live_fn(all), n);
    assert forall|i: int| 0 <= i < n implies #[trigger] live_len_fn(segments)(i) == live_len_fn(
        all,
    )(i) by {
        assert(all[i] == segments[i]);
    }
    sums::lemma_total_eq(live_len_fn(segments), live_len_fn(all), n);
    assert forall|i: int| 0 <= i < n implies #[trigger] df_fn(segments, t)(i) == df_fn(all, t)(
        i,
    ) by {
        assert(all[i] == segments[i]);
    }
    sums::lemma_total_eq(df_fn(segments, t), df_fn(all, t), n);
    assert(all[n as int] == s);
}

/// A segment matches a query with the documents that are not deleted and hold a
/// term of the query.
pub proof fn law_matches_hold_a_term(
    segments: Seq<Segment>,
    terms: Seq<Seq<char>>,
    si: int,
    d: u32,
)
    requires
        0 <= si < segments.len(),
    ensures
        segment_match(segments, terms, si, d) <==> !bit(segments[si].deleted@, d as int) && exists|
            t: Seq<char>,
        | #[trigger] terms.contains(t) && lists_doc(segments[si].index.postings_of(t), d),
{
    let models = segment_models(segments, si, terms);
    if segment_match(segments, terms, si, d) {
        let j = choose|j: int| 0 <= j < models.len() && #[trigger] block_max_wand::holds(models[j], d);
        law_only_query_terms_count(segments, si, terms, j);
        let t = choose|t: Seq<char>|
            terms.contains(t) && #[trigger] weighs_globally(segments, si, t, models[j]);
        let i = choose|i: int| #[trigger] block_max_wand::stands_at(models[j], i, d);
        assert(models[j].list[i].doc_id == d);
        assert(lists_doc(segments[si].index.postings_of(t), d));
    }
    if !bit(segments[si].deleted@, d as int) && exists|t: Seq<char>| #[trigger]
        terms.contains(t) && lists_doc(segments[si].index.postings_of(t), d) {
        let t = choose|t: Seq<char>| #[trigger]
            terms.contains(t) && lists_doc(segments[si].index.postings_of(t), d);
        law_terms_weigh_globally(segments, si, terms, t);
        let j = choose|j: int|
            0 <= j < models.len() && weighs_globally(segments, si, t, #[trigger] models[j]);
        let list = segments[si].index.postings_of(t);
        let i = choose|i: int| 0 <= i < list.len() && (#[trigger] list[i]).doc_id == d;
        assert(block_max_wand::stands_at(models[j], i, d));
        assert(block_max_wand::holds(models[j], d));
    }
}

/// The postings list the document.
pub open spec fn lists_doc(list: Seq<Posting>, d: u32) -> bool {
    exists|i: int| 0 <= i < list.len() && (#[trigger] list[i]).doc_id == d
}

} // verus!
