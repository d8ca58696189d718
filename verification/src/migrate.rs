//! Migration of indexes with precomputed block scores to impact pairs.
//!
//! Only the metadata is rewritten. The impact pairs, the largest tf and the
//! smallest document length of each block, are recomputed by decoding every
//! posting block once.

use crate::codec;
use crate::compress;
use crate::postings;
use crate::postings::Posting;
use vstd::prelude::*;
use vstd::slice::slice_subrange;

verus! {

/// Bytes of the header: magic, six fields, twelve section entries.
pub const V3_HEADER_BYTES: usize = 248;

pub const V3_NUM_SECTIONS: usize = 12;

pub const V3_DOC_LENS: usize = 0;

pub const V3_DOC_OFFSETS: usize = 1;

pub const V3_TERM_DFS: usize = 2;

pub const V3_REGION_OFFSETS: usize = 3;

pub const V3_BLOCK_ROWS: usize = 4;

pub const V3_NAME_TO_SLOT: usize = 6;

pub const V3_BLOCK_MAX_DOC_IDS: usize = 7;

pub const V3_BLOCK_BYTE_OFFSETS: usize = 9;

pub const V3_DICT_GROUPS: usize = 10;

pub const V3_DICT_BYTES: usize = 11;

/// The bytes that old metadata begins with.
pub open spec fn v3_magic() -> Seq<u8> {
    seq![77u8, 86u8, 80u8, 83u8, 82u8, 67u8, 72u8, 51u8]
}

/// Why metadata is not migrated.
#[derive(Clone, Copy, PartialEq, Eq, Structural, Debug)]
pub enum MigrateError {
    /// Not an index of the old format, perhaps already migrated.
    NotOldFormat,
    /// The magic is right but the version field is not.
    UnexpectedVersion,
    /// The files contradict themselves or each other.
    Damaged,
}

/// The 64-bit field at `pos`.
pub open spec fn field_at(meta: Seq<u8>, pos: int) -> nat {
    codec::le_at(meta, pos, 8)
}

/// Where section `i` begins.
pub open spec fn section_off(meta: Seq<u8>, i: int) -> nat {
    field_at(meta, 56 + 16 * i)
}

/// How long section `i` is.
pub open spec fn section_len(meta: Seq<u8>, i: int) -> nat {
    field_at(meta, 64 + 16 * i)
}

/// The bytes of section `i`.
pub open spec fn section_of(meta: Seq<u8>, i: int) -> Seq<u8> {
    meta.subrange(
        section_off(meta, i) as int,
        (section_off(meta, i) + section_len(meta, i)) as int,
    )
}

/// The metadata is of the old format.
pub open spec fn is_v3(meta: Seq<u8>) -> bool {
    meta.len() > V3_HEADER_BYTES && meta.take(8) == v3_magic()
}

/// How wide the entries of section `i` are.
pub open spec fn entry_width(i: int) -> nat {
    if i == V3_DOC_OFFSETS || i == V3_REGION_OFFSETS {
        8
    } else if i == V3_DICT_BYTES {
        1
    } else {
        4
    }
}

/// Every section that is read lies within the file and holds whole entries.
pub open spec fn sections_fit(meta: Seq<u8>) -> bool {
    forall|i: int|
        0 <= i < V3_NUM_SECTIONS && is_read(i) ==> section_off(meta, i) + #[trigger] section_len(
            meta,
            i,
        ) <= meta.len() && section_len(meta, i) % entry_width(i) == 0
}

/// The sections that are looked at: all but the old scores.
pub open spec fn is_read(i: int) -> bool {
    i != 5 && i != 8
}

/// The 32-bit numbers spelled by `b`.
pub open spec fn words(b: Seq<u8>) -> Seq<u32> {
    Seq::new(b.len() / 4, |i: int| codec::le_at(b, 4 * i, 4) as u32)
}

/// The 64-bit numbers spelled by `b`.
pub open spec fn longs(b: Seq<u8>) -> Seq<u64> {
    Seq::new(b.len() / 8, |i: int| codec::le_at(b, 8 * i, 8) as u64)
}

fn read_words(b: &[u8]) -> (out: Vec<u32>)
    ensures
        out@ == words(b@),
{
    let total: usize = b.len();
    let n: usize = total / 4;
    let mut out: Vec<u32> = Vec::new();
    let mut i: usize = 0;
    while i < n
        invariant
            total == b@.len(),
            n == total / 4,
            i <= n,
            out@.len() == i,
            forall|j: int| 0 <= j < i ==> #[trigger] out@[j] == words(b@)[j],
        decreases n - i,
    {
        proof {
            vstd::arithmetic::power2::lemma2_to64();
        }
        out.push(codec::read_le(b, 4 * i, 4) as u32);
        i += 1;
    }
    assert(out@ =~= words(b@));
    out
}

fn read_longs(b: &[u8]) -> (out: Vec<u64>)
    ensures
        out@ == longs(b@),
{
    let total: usize = b.len();
    let n: usize = total / 8;
    let mut out: Vec<u64> = Vec::new();
    let mut i: usize = 0;
    while i < n
        invariant
            total == b@.len(),
            n == total / 8,
            i <= n,
            out@.len() == i,
            forall|j: int| 0 <= j < i ==> #[trigger] out@[j] == longs(b@)[j],
        decreases n - i,
    {
        out.push(codec::read_le(b, 8 * i, 8));
        i += 1;
    }
    assert(out@ =~= longs(b@));
    out
}

/// What the old metadata says and the new keeps.
pub struct OldMeta {
    pub block_size: u64,
    pub remove_stopwords: bool,
    /// The average document length as the bits of a float.
    pub avg_doc_len_bits: u32,
    pub doc_lens: Vec<u32>,
    pub doc_offsets: Vec<u64>,
    pub term_dfs: Vec<u32>,
    pub region_offsets: Vec<u64>,
    pub block_rows: Vec<u32>,
    pub name_to_slot: Vec<u32>,
    pub block_max_doc_ids: Vec<u32>,
    pub block_byte_offsets: Vec<u32>,
    pub dict_groups: Vec<u32>,
    pub dict_bytes: Vec<u8>,
}

/// `m` is what the bytes of the old metadata say.
pub open spec fn says(meta: Seq<u8>, m: OldMeta) -> bool {
    &&& m.block_size == field_at(meta, 32)
    &&& m.remove_stopwords == (field_at(meta, 40) != 0)
    &&& m.avg_doc_len_bits == field_at(meta, 48) % 0x1_0000_0000
    &&& m.doc_lens@ == words(section_of(meta, V3_DOC_LENS as int))
    &&& m.doc_offsets@ == longs(section_of(meta, V3_DOC_OFFSETS as int))
    &&& m.term_dfs@ == words(section_of(meta, V3_TERM_DFS as int))
    &&& m.region_offsets@ == longs(section_of(meta, V3_REGION_OFFSETS as int))
    &&& m.block_rows@ == words(section_of(meta, V3_BLOCK_ROWS as int))
    &&& m.name_to_slot@ == words(section_of(meta, V3_NAME_TO_SLOT as int))
    &&& m.block_max_doc_ids@ == words(section_of(meta, V3_BLOCK_MAX_DOC_IDS as int))
    &&& m.block_byte_offsets@ == words(section_of(meta, V3_BLOCK_BYTE_OFFSETS as int))
    &&& m.dict_groups@ == words(section_of(meta, V3_DICT_GROUPS as int))
    &&& m.dict_bytes@ == section_of(meta, V3_DICT_BYTES as int)
}

fn has_magic(meta: &[u8]) -> (r: bool)
    requires
        meta@.len() >= 8,
    ensures
        r == (meta@.take(8) == v3_magic()),
{
    let r: bool = meta[0] == 77 && meta[1] == 86 && meta[2] == 80 && meta[3] == 83 && meta[4] == 82
        && meta[5] == 67 && meta[6] == 72 && meta[7] == 51;
    proof {
        if r {
            assert(meta@.take(8) =~= v3_magic());
        } else if meta@.take(8) == v3_magic() {
            assert forall|i: int| 0 <= i < 8 implies meta@[i] == v3_magic()[i] by {
                assert(meta@.take(8)[i] == meta@[i]);
            }
        }
    }
    r
}

/// Does every section lie within the file?
fn sections_in_range(meta: &[u8]) -> (r: bool)
    requires
        is_v3(meta@),
    ensures
        r == sections_fit(meta@),
{
    let n: u64 = meta.len() as u64;
    let mut i: usize = 0;
    while i < V3_NUM_SECTIONS
        invariant
            n == meta@.len(),
            n > V3_HEADER_BYTES,
            i <= V3_NUM_SECTIONS,
            forall|j: int|
                0 <= j < i && is_read(j) ==> section_off(meta@, j) + #[trigger] section_len(
                    meta@,
                    j,
                ) <= meta@.len() && section_len(meta@, j) % entry_width(j) == 0,
        decreases V3_NUM_SECTIONS - i,
    {
        let off: u64 = codec::read_le(meta, 56 + 16 * i, 8);
        let len: u64 = codec::read_le(meta, 64 + 16 * i, 8);
        let width: u64 = if i == V3_DOC_OFFSETS || i == V3_REGION_OFFSETS {
            8
        } else if i == V3_DICT_BYTES {
            1
        } else {
            4
        };
        assert(section_len(meta@, i as int) == len);
        if i != 5 && i != 8 && (off > n || len > n - off || len % width != 0) {
            return false;
        }
        i += 1;
    }
    true
}

fn section(meta: &[u8], i: usize) -> (s: &[u8])
    requires
        is_v3(meta@),
        sections_fit(meta@),
        i < V3_NUM_SECTIONS,
        is_read(i as int),
    ensures
        s@ == section_of(meta@, i as int),
{
    let n: usize = meta.len();
    let off: u64 = codec::read_le(meta, 56 + 16 * i, 8);
    let len: u64 = codec::read_le(meta, 64 + 16 * i, 8);
    assert(section_len(meta@, i as int) == len);
    slice_subrange(meta, off as usize, (off + len) as usize)
}

/// Read the old metadata.
pub fn read_v3(meta: &[u8]) -> (r: Result<OldMeta, MigrateError>)
    ensures
        match r {
            Ok(m) => is_v3(meta@) && field_at(meta@, 8) == 3 && sections_fit(meta@) && says(
                meta@,
                m,
            ),
            Err(MigrateError::NotOldFormat) => !is_v3(meta@),
            Err(MigrateError::UnexpectedVersion) => is_v3(meta@) && field_at(meta@, 8) != 3,
            Err(MigrateError::Damaged) => is_v3(meta@) && field_at(meta@, 8) == 3
                && !sections_fit(meta@),
        },
{
    if meta.len() <= V3_HEADER_BYTES || !has_magic(meta) {
        return Err(MigrateError::NotOldFormat);
    }
    if codec::read_le(meta, 8, 8) != 3 {
        return Err(MigrateError::UnexpectedVersion);
    }
    if !sections_in_range(meta) {
        return Err(MigrateError::Damaged);
    }
    let block_size: u64 = codec::read_le(meta, 32, 8);
    let stop: u64 = codec::read_le(meta, 40, 8);
    let avg: u64 = codec::read_le(meta, 48, 8);
    let mut dict_bytes: Vec<u8> = Vec::new();
    codec::append(&mut dict_bytes, section(meta, V3_DICT_BYTES));
    assert(dict_bytes@ =~= section_of(meta@, V3_DICT_BYTES as int));
    Ok(
        OldMeta {
            block_size,
            remove_stopwords: stop != 0,
            avg_doc_len_bits: (avg % 0x1_0000_0000) as u32,
            doc_lens: read_words(section(meta, V3_DOC_LENS)),
            doc_offsets: read_longs(section(meta, V3_DOC_OFFSETS)),
            term_dfs: read_words(section(meta, V3_TERM_DFS)),
            region_offsets: read_longs(section(meta, V3_REGION_OFFSETS)),
            block_rows: read_words(section(meta, V3_BLOCK_ROWS)),
            name_to_slot: read_words(section(meta, V3_NAME_TO_SLOT)),
            block_max_doc_ids: read_words(section(meta, V3_BLOCK_MAX_DOC_IDS)),
            block_byte_offsets: read_words(section(meta, V3_BLOCK_BYTE_OFFSETS)),
            dict_groups: read_words(section(meta, V3_DICT_GROUPS)),
            dict_bytes,
        },
    )
}

/// The impact pairs of all blocks and terms.
pub struct ImpactPairs {
    pub block_max_tfs: Vec<u32>,
    pub block_min_lens: Vec<u32>,
    pub term_max_tfs: Vec<u32>,
    pub term_min_lens: Vec<u32>,
}

/// The packed block in row `row` of term `slot`.
pub open spec fn row_bytes(m: OldMeta, packed: Seq<u8>, slot: int, row: int) -> Seq<u8> {
    packed.subrange(
        m.region_offsets@[slot] as int,
        m.region_offsets@[slot + 1] as int,
    ).skip(m.block_byte_offsets@[row] as int)
}

/// The postings that a packed block holds.
pub open spec fn block_postings(b: Seq<u8>) -> Seq<Posting> {
    Seq::new(
        compress::block_count(b),
        |i: int|
            Posting {
                doc_id: compress::block_doc(b, i as nat) as u32,
                tf: compress::block_tf_at(b, i as nat) as u32,
            },
    )
}

/// `row` belongs to term `slot`.
pub open spec fn owns(m: OldMeta, slot: int, row: int) -> bool {
    m.block_rows@[slot] <= row < m.block_rows@[slot + 1]
}

/// The tables agree with each other and with the packed postings: blocks can
/// be decoded, and documents exist.
pub open spec fn consistent(m: OldMeta, packed: Seq<u8>) -> bool {
    &&& tables_agree(m, packed.len() as int)
    &&& forall|s: int, row: int|
        0 <= s < m.term_dfs@.len() && owns(m, s, row) ==> #[trigger] row_readable(
            m,
            packed,
            s,
            row,
        )
}

pub open spec fn row_readable(m: OldMeta, packed: Seq<u8>, s: int, row: int) -> bool {
    let b = row_bytes(m, packed, s, row);
    &&& m.block_byte_offsets@[row] <= m.region_offsets@[s + 1] - m.region_offsets@[s]
    &&& compress::block_readable(b)
    &&& forall|i: int|
        0 <= i < compress::block_count(b) ==> (#[trigger] block_postings(b)[i]).doc_id
            < m.doc_lens@.len()
}

/// May the block in row `row` of term `slot` be decoded?
fn check_row(m: &OldMeta, packed: &[u8], slot: usize, row: usize) -> (r: bool)
    requires
        slot + 1 < m.region_offsets@.len(),
        m.region_offsets@[slot as int] <= m.region_offsets@[slot + 1] <= packed@.len(),
        row < m.block_byte_offsets@.len(),
    ensures
        r == row_readable(*m, packed@, slot as int, row as int),
{
    let size: usize = packed.len();
    let offsets: usize = m.region_offsets.len();
    let from: usize = m.region_offsets[slot] as usize;
    let to: usize = m.region_offsets[slot + 1] as usize;
    let off: u32 = m.block_byte_offsets[row];
    if off as usize > to - from {
        return false;
    }
    let bytes: &[u8] = slice_subrange(packed, from + off as usize, to);
    let ghost b = row_bytes(*m, packed@, slot as int, row as int);
    assert(bytes@ =~= b);
    if !compress::check_block(bytes) {
        return false;
    }
    let mut decoded: Vec<Posting> = Vec::new();
    let used: usize = compress::decode_block(bytes, &mut decoded);
    let n: usize = decoded.len();
    let lens: usize = m.doc_lens.len();
    assert(decoded@ =~= block_postings(b));
    let mut i: usize = 0;
    while i < n
        invariant
            i <= n,
            n == decoded@.len(),
            lens == m.doc_lens@.len(),
            b == row_bytes(*m, packed@, slot as int, row as int),
            decoded@ == block_postings(b),
            forall|j: int| 0 <= j < i ==> (#[trigger] block_postings(b)[j]).doc_id < lens,
        decreases n - i,
    {
        assert(block_postings(b)[i as int] == decoded@[i as int]);
        if decoded[i].doc_id as usize >= lens {
            assert(!row_readable(*m, packed@, slot as int, row as int));
            return false;
        }
        i += 1;
    }
    true
}

/// The tables agree with each other as far as they are read: the blocks of
/// each term lie within the tables and within the packed postings, and no
/// block belongs to two terms.
pub open spec fn tables_agree(m: OldMeta, size: int) -> bool {
    let terms = m.term_dfs@.len() as int;
    &&& terms > 0 ==> m.region_offsets@.len() > terms && m.block_rows@.len() > terms
    &&& forall|s: int| 0 <= s < terms ==> #[trigger] slot_fits(m, s, size)
    &&& forall|s: int, t: int, row: int|
        0 <= s < t < terms && #[trigger] owns(m, s, row) ==> !#[trigger] owns(m, t, row)
}

/// The packed postings and the blocks of term `s` lie within the tables.
pub open spec fn slot_fits(m: OldMeta, s: int, size: int) -> bool {
    &&& m.region_offsets@[s] <= m.region_offsets@[s + 1] <= size
    &&& m.block_rows@[s] < m.block_rows@[s + 1] ==> {
        &&& m.block_rows@[s + 1] <= m.block_max_doc_ids@.len()
        &&& m.block_rows@[s + 1] <= m.block_byte_offsets@.len()
    }
}

/// A term before `n` has the block in `row`.
pub open spec fn taken(m: OldMeta, n: int, row: int) -> bool {
    exists|s: int| 0 <= s < n && #[trigger] owns(m, s, row)
}

fn check_tables(m: &OldMeta, size: usize) -> (r: bool)
    ensures
        r == tables_agree(*m, size as int),
{
    let terms: usize = m.term_dfs.len();
    if terms > 0 && (m.region_offsets.len() <= terms || m.block_rows.len() <= terms) {
        return false;
    }
    let blocks: usize = m.block_max_doc_ids.len();
    let mut marks = zeros(blocks);
    let mut s: usize = 0;
    while s < terms
        invariant
            s <= terms,
            terms == m.term_dfs@.len(),
            terms > 0 ==> m.region_offsets@.len() > terms && m.block_rows@.len() > terms,
            blocks == m.block_max_doc_ids@.len(),
            marks@.len() == blocks,
            forall|i: int| 0 <= i < s ==> #[trigger] slot_fits(*m, i, size as int),
            forall|i: int, j: int, row: int|
                0 <= i < j < s && #[trigger] owns(*m, i, row) ==> !#[trigger] owns(*m, j, row),
            forall|row: int|
                0 <= row < blocks ==> (#[trigger] marks@[row] != 0 <==> taken(*m, s as int, row)),
        decreases terms - s,
    {
        let lo: usize = m.block_rows[s] as usize;
        let hi: usize = m.block_rows[s + 1] as usize;
        if m.region_offsets[s] > m.region_offsets[s + 1] || m.region_offsets[s + 1] > size as u64
            || (lo < hi && (hi > blocks || hi > m.block_byte_offsets.len())) {
            assert(!slot_fits(*m, s as int, size as int));
            return false;
        }
        assert(slot_fits(*m, s as int, size as int));
        let ghost before = marks@;
        let mut row: usize = lo;
        while row < hi
            invariant
                s < terms,
                terms == m.term_dfs@.len(),
                lo == m.block_rows@[s as int],
                hi == m.block_rows@[s + 1],
                lo <= row,
                lo < hi ==> row <= hi <= blocks,
                lo >= hi ==> row == lo,
                blocks == marks@.len(),
                before.len() == blocks,
                forall|r: int| 0 <= r < blocks && !(lo <= r < row) ==> #[trigger] marks@[r] == before[r],
                forall|r: int| lo <= r < row ==> #[trigger] marks@[r] != 0 && before[r] == 0,
                forall|r: int|
                    0 <= r < blocks ==> (#[trigger] before[r] != 0 <==> taken(*m, s as int, r)),
            decreases hi - row,
        {
            if marks[row] != 0 {
                proof {
                    assert(before[row as int] != 0);
                    let i = choose|i: int| 0 <= i < s && #[trigger] owns(*m, i, row as int);
                    assert(owns(*m, s as int, row as int));
                }
                return false;
            }
            assert(before[row as int] == 0);
            marks.set(row, 1);
            row += 1;
        }
        proof {
            assert forall|i: int, j: int, r: int|
                0 <= i < j < s + 1 && #[trigger] owns(*m, i, r) implies !#[trigger] owns(*m, j, r) by {
                if j == s && owns(*m, s as int, r) {
                    assert(marks@[r] != 0);
                    assert(before[r] == 0);
                    assert(taken(*m, s as int, r));
                }
            }
            assert forall|r: int| 0 <= r < blocks implies (#[trigger] marks@[r] != 0 <==> taken(
                *m,
                s + 1,
                r,
            )) by {
                if taken(*m, s as int, r) {
                    let i = choose|i: int| 0 <= i < s && #[trigger] owns(*m, i, r);
                    assert(owns(*m, i, r));
                    assert(before[r] != 0);
                }
                if lo <= r < hi {
                    assert(owns(*m, s as int, r));
                }
                if taken(*m, s + 1, r) && !taken(*m, s as int, r) {
                    let i = choose|i: int| 0 <= i < s + 1 && #[trigger] owns(*m, i, r);
                    assert(i == s);
                }
                assert(before[r] != 0 <==> taken(*m, s as int, r));
            }
        }
        s += 1;
    }
    true
}

/// The blocks of term `slot` can be decoded.
pub open spec fn slot_readable(m: OldMeta, packed: Seq<u8>, slot: int) -> bool {
    forall|row: int| owns(m, slot, row) ==> #[trigger] row_readable(m, packed, slot, row)
}

fn check_slot(m: &OldMeta, packed: &[u8], slot: usize) -> (r: bool)
    requires
        tables_agree(*m, packed@.len() as int),
        slot < m.term_dfs@.len(),
    ensures
        r == slot_readable(*m, packed@, slot as int),
{
    let terms: usize = m.term_dfs.len();
    let lo: usize = m.block_rows[slot] as usize;
    let hi: usize = m.block_rows[slot + 1] as usize;
    assert(slot_fits(*m, slot as int, packed@.len() as int));
    let mut row: usize = lo;
    while row < hi
        invariant
            lo <= row,
            lo == m.block_rows@[slot as int],
            hi == m.block_rows@[slot + 1],
            lo < hi ==> hi <= m.block_byte_offsets@.len(),
            slot + 1 < m.region_offsets@.len(),
            m.region_offsets@[slot as int] <= m.region_offsets@[slot + 1] <= packed@.len(),
            forall|x: int|
                lo <= x < row ==> #[trigger] row_readable(*m, packed@, slot as int, x),
        decreases hi - row,
    {
        if !check_row(m, packed, slot, row) {
            assert(owns(*m, slot as int, row as int));
            return false;
        }
        row += 1;
    }
    true
}

/// Do the tables agree with each other and with the packed postings?
pub fn is_consistent(m: &OldMeta, packed: &[u8]) -> (r: bool)
    ensures
        r == consistent(*m, packed@),
{
    if !check_tables(m, packed.len()) {
        return false;
    }
    let terms: usize = m.term_dfs.len();
    let mut slot: usize = 0;
    while slot < terms
        invariant
            slot <= terms,
            terms == m.term_dfs@.len(),
            tables_agree(*m, packed@.len() as int),
            forall|i: int| 0 <= i < slot ==> #[trigger] slot_readable(*m, packed@, i),
        decreases terms - slot,
    {
        if !check_slot(m, packed, slot) {
            proof {
                let row = choose|row: int|
                    owns(*m, slot as int, row) && !#[trigger] row_readable(
                        *m,
                        packed@,
                        slot as int,
                        row,
                    );
                assert(!row_readable(*m, packed@, slot as int, row));
            }
            return false;
        }
        slot += 1;
    }
    proof {
        let tables = *m;
        let bytes = packed@;
        assert forall|s: int, row: int|
            0 <= s < tables.term_dfs@.len() && owns(tables, s, row) implies #[trigger] row_readable(
            tables,
            bytes,
            s,
            row,
        ) by {
            assert(slot_readable(tables, bytes, s));
        }
    }
    true
}

/// The impact pair of a block.
pub open spec fn is_pair(b: Seq<u8>, lens: Seq<u32>, max_tf: u32, min_len: u32) -> bool {
    let p = block_postings(b);
    &&& postings::is_max_tf(p, 0, p.len() as int, max_tf)
    &&& postings::is_min_len(p, lens, 0, p.len() as int, min_len)
}

/// The largest of the first `n` elements from `lo` on, at least `floor`.
pub open spec fn running_max(s: Seq<u32>, lo: int, n: int, floor: u32) -> u32
    decreases n,
{
    if n <= 0 {
        floor
    } else {
        let m = running_max(s, lo, n - 1, floor);
        if s[lo + n - 1] > m {
            s[lo + n - 1]
        } else {
            m
        }
    }
}

/// The smallest of the first `n` elements from `lo` on.
pub open spec fn running_min(s: Seq<u32>, lo: int, n: int) -> u32
    decreases n,
{
    if n <= 0 {
        u32::MAX
    } else {
        let m = running_min(s, lo, n - 1);
        if s[lo + n - 1] < m {
            s[lo + n - 1]
        } else {
            m
        }
    }
}

/// `v` kept between 1 and the second largest 32-bit number.
pub open spec fn clamped(v: u32) -> u32 {
    if v < 1 {
        1
    } else if v > 0xffff_fffe {
        0xffff_fffe
    } else {
        v
    }
}

/// The pairs of term `slot`.
pub open spec fn term_done(m: OldMeta, packed: Seq<u8>, p: ImpactPairs, slot: int) -> bool {
    let lo = m.block_rows@[slot] as int;
    let n = m.block_rows@[slot + 1] - lo;
    &&& forall|row: int|
        #![trigger row_bytes(m, packed, slot, row)]
        owns(m, slot, row) ==> is_pair(
            row_bytes(m, packed, slot, row),
            m.doc_lens@,
            p.block_max_tfs@[row],
            p.block_min_lens@[row],
        )
    &&& p.term_max_tfs@[slot] == running_max(p.block_max_tfs@, lo, n, 1)
    &&& p.term_min_lens@[slot] == clamped(running_min(p.block_min_lens@, lo, n))
}

/// The pairs of every term. The rows of no term have none.
pub open spec fn are_pairs(m: OldMeta, packed: Seq<u8>, p: ImpactPairs) -> bool {
    &&& p.block_max_tfs@.len() == m.block_max_doc_ids@.len()
    &&& p.block_min_lens@.len() == m.block_max_doc_ids@.len()
    &&& p.term_max_tfs@.len() == m.term_dfs@.len()
    &&& p.term_min_lens@.len() == m.term_dfs@.len()
    &&& forall|slot: int|
        0 <= slot < m.term_dfs@.len() ==> #[trigger] term_done(m, packed, p, slot)
    &&& forall|row: int|
        0 <= row < p.block_max_tfs@.len() && !taken(m, m.term_dfs@.len() as int, row) ==> (
        #[trigger] p.block_max_tfs@[row]) == 0 && p.block_min_lens@[row] == 0
}

/// The impact pair of a packed block.
fn pair_of(bytes: &[u8], doc_lens: &Vec<u32>, decoded: &mut Vec<Posting>) -> (r: (u32, u32))
    requires
        compress::block_readable(bytes@),
        forall|i: int|
            0 <= i < compress::block_count(bytes@) ==> (#[trigger] block_postings(bytes@)[i]).doc_id
                < doc_lens@.len(),
    ensures
        is_pair(bytes@, doc_lens@, r.0, r.1),
{
    let used: usize = compress::decode_block(bytes, decoded);
    let ghost p = block_postings(bytes@);
    let n: usize = decoded.len();
    assert(decoded@ =~= p);
    assert(p[0].doc_id < doc_lens@.len());
    let mut max_tf: u32 = decoded[0].tf;
    let mut min_len: u32 = doc_lens[decoded[0].doc_id as usize];
    let mut i: usize = 1;
    while i < n
        invariant
            p == decoded@,
            n == p.len(),
            1 <= i <= n,
            p == block_postings(bytes@),
            forall|i: int|
                0 <= i < compress::block_count(bytes@) ==> (#[trigger] block_postings(
                    bytes@,
                )[i]).doc_id < doc_lens@.len(),
            postings::is_max_tf(p, 0, i as int, max_tf),
            postings::is_min_len(p, doc_lens@, 0, i as int, min_len),
        decreases n - i,
    {
        let tf: u32 = decoded[i].tf;
        assert(p[i as int].tf == tf);
        assert(p[i as int].doc_id < doc_lens@.len());
        let len: u32 = doc_lens[decoded[i].doc_id as usize];
        if tf > max_tf {
            max_tf = tf;
        }
        if len < min_len {
            min_len = len;
        }
        i += 1;
    }
    (max_tf, min_len)
}

fn zeros(n: usize) -> (v: Vec<u32>)
    ensures
        v@.len() == n,
        forall|i: int| 0 <= i < n ==> #[trigger] v@[i] == 0,
{
    let mut v: Vec<u32> = Vec::new();
    let mut i: usize = 0;
    while i < n
        invariant
            i <= n,
            v@.len() == i,
            forall|j: int| 0 <= j < i ==> #[trigger] v@[j] == 0,
        decreases n - i,
    {
        v.push(0);
        i += 1;
    }
    v
}

proof fn lemma_running_same(a: Seq<u32>, b: Seq<u32>, lo: int, n: int, floor: u32)
    requires
        forall|i: int| lo <= i < lo + n ==> #[trigger] a[i] == b[i],
    ensures
        running_max(a, lo, n, floor) == running_max(b, lo, n, floor),
        running_min(a, lo, n) == running_min(b, lo, n),
    decreases n,
{
    if n > 0 {
        lemma_running_same(a, b, lo, n - 1, floor);
        assert(a[lo + n - 1] == b[lo + n - 1]);
    }
}

/// Recompute the impact pairs by decoding every block once.
pub fn impact_pairs(m: &OldMeta, packed: &[u8]) -> (p: ImpactPairs)
    requires
        consistent(*m, packed@),
    ensures
        are_pairs(*m, packed@, p),
{
    let terms: usize = m.term_dfs.len();
    let blocks: usize = m.block_max_doc_ids.len();
    let packed_len: usize = packed.len();
    let mut p = ImpactPairs {
        block_max_tfs: zeros(blocks),
        block_min_lens: zeros(blocks),
        term_max_tfs: zeros(terms),
        term_min_lens: zeros(terms),
    };
    let mut decoded: Vec<Posting> = Vec::new();
    let mut slot: usize = 0;
    while slot < terms
        invariant
            consistent(*m, packed@),
            terms == m.term_dfs@.len(),
            blocks == m.block_max_doc_ids@.len(),
            packed_len == packed@.len(),
            p.block_max_tfs@.len() == blocks,
            p.block_min_lens@.len() == blocks,
            p.term_max_tfs@.len() == terms,
            p.term_min_lens@.len() == terms,
            slot <= terms,
            forall|s: int| 0 <= s < slot ==> #[trigger] term_done(*m, packed@, p, s),
            forall|row: int|
                0 <= row < blocks && !taken(*m, slot as int, row) ==> (
                #[trigger] p.block_max_tfs@[row]) == 0 && p.block_min_lens@[row] == 0,
        decreases terms - slot,
    {
        let ghost before = p;
        assert(slot_fits(*m, slot as int, packed@.len() as int));
        let region: &[u8] = slice_subrange(
            packed,
            m.region_offsets[slot] as usize,
            m.region_offsets[slot + 1] as usize,
        );
        let lo: usize = m.block_rows[slot] as usize;
        let hi: usize = m.block_rows[slot + 1] as usize;
        let mut t_max_tf: u32 = 1;
        let mut t_min_len: u32 = u32::MAX;
        let mut row: usize = lo;
        while row < hi
            invariant
                consistent(*m, packed@),
                terms == m.term_dfs@.len(),
                blocks == m.block_max_doc_ids@.len(),
                slot < terms,
                lo == m.block_rows@[slot as int],
                hi == m.block_rows@[slot + 1],
                lo <= row,
                lo < hi ==> row <= hi <= blocks && hi <= m.block_byte_offsets@.len(),
                lo >= hi ==> row == lo,
                region@ == packed@.subrange(
                    m.region_offsets@[slot as int] as int,
                    m.region_offsets@[slot + 1] as int,
                ),
                p.block_max_tfs@.len() == blocks,
                p.block_min_lens@.len() == blocks,
                p.term_max_tfs == before.term_max_tfs,
                p.term_min_lens == before.term_min_lens,
                before.term_max_tfs@.len() == terms,
                before.term_min_lens@.len() == terms,
                before.block_max_tfs@.len() == blocks,
                before.block_min_lens@.len() == blocks,
                forall|r: int|
                    0 <= r < lo || row <= r < blocks ==> #[trigger] p.block_max_tfs@[r]
                        == before.block_max_tfs@[r],
                forall|r: int|
                    0 <= r < lo || row <= r < blocks ==> #[trigger] p.block_min_lens@[r]
                        == before.block_min_lens@[r],
                forall|r: int|
                    #![trigger row_bytes(*m, packed@, slot as int, r)]
                    lo <= r < row ==> is_pair(
                        row_bytes(*m, packed@, slot as int, r),
                        m.doc_lens@,
                        p.block_max_tfs@[r],
                        p.block_min_lens@[r],
                    ),
                t_max_tf == running_max(p.block_max_tfs@, lo as int, row - lo, 1),
                t_min_len == running_min(p.block_min_lens@, lo as int, row - lo),
            decreases hi - row,
        {
            let ghost mid = p;
            let ghost b = row_bytes(*m, packed@, slot as int, row as int);
            assert(owns(*m, slot as int, row as int));
            assert(slot_fits(*m, slot as int, packed@.len() as int));
            assert(row_readable(*m, packed@, slot as int, row as int));
            let at: usize = m.block_byte_offsets[row] as usize;
            let bytes: &[u8] = slice_subrange(region, at, region.len());
            assert(bytes@ =~= b);
            let (max_tf, min_len) = pair_of(bytes, &m.doc_lens, &mut decoded);
            p.block_max_tfs.set(row, max_tf);
            p.block_min_lens.set(row, min_len);
            if max_tf > t_max_tf {
                t_max_tf = max_tf;
            }
            if min_len < t_min_len {
                t_min_len = min_len;
            }
            proof {
                lemma_running_same(
                    mid.block_max_tfs@,
                    p.block_max_tfs@,
                    lo as int,
                    row - lo,
                    1,
                );
                lemma_running_same(
                    mid.block_min_lens@,
                    p.block_min_lens@,
                    lo as int,
                    row - lo,
                    1,
                );
            }
            row += 1;
        }
        let floor: u32 = if t_min_len < 1 {
            1
        } else if t_min_len > 0xffff_fffe {
            0xffff_fffe
        } else {
            t_min_len
        };
        p.term_max_tfs.set(slot, t_max_tf);
        p.term_min_lens.set(slot, floor);
        proof {
            assert forall|row: int| 0 <= row < blocks && !taken(*m, slot + 1, row) implies (
            #[trigger] p.block_max_tfs@[row]) == 0 && p.block_min_lens@[row] == 0 by {
                assert(!owns(*m, slot as int, row));
                assert(!taken(*m, slot as int, row)) by {
                    if taken(*m, slot as int, row) {
                        let i = choose|i: int| 0 <= i < slot && #[trigger] owns(*m, i, row);
                        assert(owns(*m, i, row));
                    }
                }
                assert(p.block_max_tfs@[row] == before.block_max_tfs@[row]);
                assert(p.block_min_lens@[row] == before.block_min_lens@[row]);
            }
            assert forall|s: int| 0 <= s < slot + 1 implies #[trigger] term_done(
                *m,
                packed@,
                p,
                s,
            ) by {
                if s < slot {
                    assert(term_done(*m, packed@, before, s));
                    let slo = m.block_rows@[s] as int;
                    let sn = m.block_rows@[s + 1] - slo;
                    assert(slot_fits(*m, s, packed@.len() as int));
                    assert forall|i: int| slo <= i < slo + sn implies #[trigger] p.block_max_tfs@[i]
                        == before.block_max_tfs@[i] && p.block_min_lens@[i]
                        == before.block_min_lens@[i] by {
                        assert(owns(*m, s, i));
                        assert(!owns(*m, slot as int, i));
                    }
                    assert forall|i: int| slo <= i < slo + sn implies #[trigger] p.block_min_lens@[i]
                        == before.block_min_lens@[i] by {
                        assert(p.block_max_tfs@[i] == before.block_max_tfs@[i]);
                    }
                    lemma_running_same(before.block_max_tfs@, p.block_max_tfs@, slo, sn, 1);
                    lemma_running_same(before.block_min_lens@, p.block_min_lens@, slo, sn, 1);
                    assert forall|row: int|
                        #![trigger row_bytes(*m, packed@, s, row)]
                        owns(*m, s, row) implies is_pair(
                        row_bytes(*m, packed@, s, row),
                        m.doc_lens@,
                        p.block_max_tfs@[row],
                        p.block_min_lens@[row],
                    ) by {
                        assert(p.block_max_tfs@[row] == before.block_max_tfs@[row]);
                        assert(p.block_min_lens@[row] == before.block_min_lens@[row]);
                    }
                } else {
                    assert(term_done(*m, packed@, p, slot as int));
                }
            }
        }
        slot += 1;
    }
    p
}

/// A document record lies at `pos`: a 16-bit length, then the id.
pub open spec fn has_id(docs: Seq<u8>, pos: int) -> bool {
    pos + 2 <= docs.len() && pos + 2 + codec::le_at(docs, pos, 2) <= docs.len()
}

/// The bytes of the external id of the document at `pos`.
pub open spec fn id_at(docs: Seq<u8>, pos: int) -> Seq<u8> {
    docs.subrange(pos + 2, pos + 2 + codec::le_at(docs, pos, 2))
}

pub fn id_bytes(docs: &[u8], pos: u64) -> (id: Option<&[u8]>)
    ensures
        id is Some <==> has_id(docs@, pos as int),
        id matches Some(b) ==> b@ == id_at(docs@, pos as int),
{
    proof {
        vstd::arithmetic::power2::lemma2_to64();
    }
    let n: usize = docs.len();
    if n < 2 || pos > (n - 2) as u64 {
        return None;
    }
    let at: usize = pos as usize;
    let len: usize = codec::read_le(docs, at, 2) as usize;
    if len > n - 2 - at {
        return None;
    }
    Some(slice_subrange(docs, at + 2, at + 2 + len))
}

/// How many documents have a record.
pub open spec fn num_records(m: OldMeta) -> int {
    if m.doc_offsets@.len() < m.doc_lens@.len() {
        m.doc_offsets@.len() as int
    } else {
        m.doc_lens@.len() as int
    }
}

/// Every document has an id.
pub open spec fn all_have_ids(m: OldMeta, docs: Seq<u8>) -> bool {
    forall|d: int| 0 <= d < num_records(m) ==> has_id(docs, (#[trigger] m.doc_offsets@[d]) as int)
}

/// `ids` are the external ids of the documents.
pub open spec fn are_ids(m: OldMeta, docs: Seq<u8>, ids: Seq<Vec<u8>>) -> bool {
    &&& ids.len() == num_records(m)
    &&& forall|d: int|
        0 <= d < ids.len() ==> (#[trigger] ids[d])@ == id_at(docs, m.doc_offsets@[d] as int)
}

fn read_ids(m: &OldMeta, docs: &[u8]) -> (r: Option<Vec<Vec<u8>>>)
    ensures
        r is Some <==> all_have_ids(*m, docs@),
        r matches Some(ids) ==> are_ids(*m, docs@, ids@),
{
    let n: usize = if m.doc_offsets.len() < m.doc_lens.len() {
        m.doc_offsets.len()
    } else {
        m.doc_lens.len()
    };
    let mut ids: Vec<Vec<u8>> = Vec::new();
    let mut d: usize = 0;
    while d < n
        invariant
            n == num_records(*m),
            n <= m.doc_offsets@.len(),
            d <= n,
            ids@.len() == d,
            forall|j: int|
                0 <= j < d ==> has_id(docs@, (#[trigger] m.doc_offsets@[j]) as int)
                    && ids@[j]@ == id_at(docs@, m.doc_offsets@[j] as int),
        decreases n - d,
    {
        match id_bytes(docs, m.doc_offsets[d]) {
            Some(id) => {
                let mut copy: Vec<u8> = Vec::new();
                codec::append(&mut copy, id);
                assert(copy@ =~= id@);
                ids.push(copy);
            },
            None => {
                assert(!has_id(docs@, m.doc_offsets@[d as int] as int));
                return None;
            },
        }
        d += 1;
    }
    assert forall|j: int| 0 <= j < ids@.len() implies (#[trigger] ids@[j])@ == id_at(
        docs@,
        m.doc_offsets@[j] as int,
    ) by {
        assert(has_id(docs@, m.doc_offsets@[j] as int));
    }
    Some(ids)
}

/// What a migrated index is written from.
pub struct Migrated {
    pub meta: OldMeta,
    pub pairs: ImpactPairs,
    /// The external ids of the documents.
    pub ids: Vec<Vec<u8>>,
}

/// Migrate an index: read its metadata, recompute the impact pairs from its
/// packed postings, and find the ids of its documents.
pub fn migrate_v3_to_v4(meta: &[u8], packed: &[u8], docs: &[u8]) -> (r: Result<
    Migrated,
    MigrateError,
>)
    ensures
        match r {
            Ok(x) => {
                &&& is_v3(meta@) && sections_fit(meta@) && field_at(meta@, 8) == 3
                &&& says(meta@, x.meta)
                &&& consistent(x.meta, packed@)
                &&& are_pairs(x.meta, packed@, x.pairs)
                &&& all_have_ids(x.meta, docs@)
                &&& are_ids(x.meta, docs@, x.ids@)
            },
            Err(MigrateError::NotOldFormat) => !is_v3(meta@),
            Err(MigrateError::UnexpectedVersion) => is_v3(meta@) && field_at(meta@, 8) != 3,
            Err(MigrateError::Damaged) => is_v3(meta@) && field_at(meta@, 8) == 3 && (
            !sections_fit(meta@) || exists|m: OldMeta| #[trigger]
                says(meta@, m) && !(consistent(m, packed@) && all_have_ids(m, docs@))),
        },
{
    let old = match read_v3(meta) {
        Ok(m) => m,
        Err(e) => {
            return Err(e);
        },
    };
    if !is_consistent(&old, packed) {
        return Err(MigrateError::Damaged);
    }
    match read_ids(&old, docs) {
        Some(ids) => {
            let pairs = impact_pairs(&old, packed);
            Ok(Migrated { meta: old, pairs, ids })
        },
        None => Err(MigrateError::Damaged),
    }
}

proof fn lemma_running_bounds(s: Seq<u32>, lo: int, n: int, i: int)
    requires
        lo <= i < lo + n,
    ensures
        s[i] <= running_max(s, lo, n, 1),
        running_min(s, lo, n) <= s[i],
    decreases n,
{
    if i < lo + n - 1 {
        lemma_running_bounds(s, lo, n - 1, i);
    }
}

/// The recomputed pairs bound every posting: no block of a term holds a
/// larger tf than the block's pair and the term's pair say.
pub proof fn law_pairs_bound_postings(
    m: OldMeta,
    packed: Seq<u8>,
    p: ImpactPairs,
    slot: int,
    row: int,
    i: int,
)
    requires
        0 <= slot < m.term_dfs@.len(),
        term_done(m, packed, p, slot),
        owns(m, slot, row),
        0 <= i < block_postings(row_bytes(m, packed, slot, row)).len(),
    ensures
        ({
            let x = block_postings(row_bytes(m, packed, slot, row))[i];
            &&& x.tf <= p.block_max_tfs@[row] <= p.term_max_tfs@[slot]
            &&& p.block_min_lens@[row] <= m.doc_lens@[x.doc_id as int]
        }),
{
    let lo = m.block_rows@[slot] as int;
    let n = m.block_rows@[slot + 1] - lo;
    lemma_running_bounds(p.block_max_tfs@, lo, n, row);
    assert(is_pair(
        row_bytes(m, packed, slot, row),
        m.doc_lens@,
        p.block_max_tfs@[row],
        p.block_min_lens@[row],
    ));
}

} // verus!
