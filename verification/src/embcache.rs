//! A cache of document vectors and their quantization, keyed by content.
//!
//! A rebuild pays only for chunks whose text changed. A vector depends on the
//! text alone. Its cluster and its code depend on the trained quantizer too,
//! so they are dropped when that changes.
//!
//! ```text
//! magic[8] = "HPSEMC02"
//! version u32 = 2
//! dim u32
//! count u32
//! m u32          subvectors per code (0 = no codes)
//! quantizer u64  id of the quantizer that the codes were built with
//! then count * (u64 key + dim * u16 vector + u32 cluster + m * u8 code)
//! ```

use crate::codec;
use crate::embeddings;
use crate::hash;
use crate::table;
use std::collections::{HashMap, HashSet};
use vstd::arithmetic::power2::*;
use vstd::prelude::*;
use vstd::slice::slice_subrange;
use vstd::utf8::encode_utf8;

verus! {

/// The bytes `HPSEMC02` as a number.
pub const MAGIC: u64 = 0x3230_434d_4553_5048;

pub const VERSION: u32 = 2;

pub const HEADER_LEN: usize = 32;

/// The cluster of an entry that has none.
pub const NO_CLUSTER: u32 = u32::MAX;

/// Multiplier that spreads a length over 64 bits.
pub const GOLDEN: u64 = 0x9e3779b97f4a7c15;

/// The key of the text with bytes `b`.
pub open spec fn key_of(b: Seq<u8>) -> u64 {
    hash::fnv1a_spec(b) ^ ((b.len() as u64) as int * GOLDEN as int % 0x1_0000_0000_0000_0000) as u64
}

/// The key of a chunk: a hash of its text, mixed with its length.
pub fn key_for(text: &str) -> (key: u64)
    ensures
        key == key_of(encode_utf8(text@)),
{
    let bytes = text.as_bytes();
    let n: usize = bytes.len();
    hash::fnv1a(bytes) ^ (n as u64).wrapping_mul(GOLDEN)
}

/// The bytes of `v` in half precision.
pub open spec fn half_bytes(v: Seq<u32>) -> Seq<u8> {
    table::table(embeddings::stored_row(v), 2)
}

/// The id of a quantizer: a hash of its parameters as they are stored, mixed
/// with their number.
pub open spec fn quantizer_of(centroids: Seq<u32>, codebooks: Seq<u32>) -> u64 {
    hash::fnv1a_spec(half_bytes(centroids) + half_bytes(codebooks)) ^ (((centroids.len() as u64)
        << 32) | codebooks.len() as u64)
}

/// The id of a trained quantizer.
pub fn quantizer_id(centroids: &[u32], codebooks: &[u32]) -> (id: u64)
    ensures
        id == quantizer_of(centroids@, codebooks@),
{
    let mut h = hash::Fnv1a::new();
    let mut bytes: Vec<u8> = Vec::new();
    let first = embeddings::to_halves(centroids);
    table::push_u16(&mut bytes, first.as_slice());
    let second = embeddings::to_halves(codebooks);
    table::push_u16(&mut bytes, second.as_slice());
    assert(bytes@ =~= half_bytes(centroids@) + half_bytes(codebooks@));
    h.write(bytes.as_slice());
    let a: usize = centroids.len();
    let b: usize = codebooks.len();
    h.finish() ^ (((a as u64) << 32) | b as u64)
}

/// A cached chunk.
pub struct Entry {
    pub key: u64,
    /// Its vector, in half precision.
    pub lanes: Vec<u16>,
    pub cluster: u32,
    pub codes: Vec<u8>,
}

/// What is known of a chunk: its vector, and its cluster and code if they
/// were computed.
#[verifier::ext_equal]
pub struct EntryModel {
    pub lanes: Seq<u16>,
    pub quant: Option<(u32, Seq<u8>)>,
}

impl Entry {
    /// The cluster and the code, if there are any.
    pub open spec fn quant(&self, m: int) -> Option<(u32, Seq<u8>)> {
        if self.cluster == NO_CLUSTER || self.codes@.len() != m {
            None
        } else {
            Some((self.cluster, self.codes@))
        }
    }

    pub open spec fn model(&self, m: int) -> EntryModel {
        EntryModel { lanes: self.lanes@, quant: self.quant(m) }
    }

    /// The vector has `dim` coordinates, and the code `m` bytes unless it is
    /// missing.
    pub open spec fn wf(&self, dim: int, m: int) -> bool {
        &&& self.lanes@.len() == dim
        &&& self.codes@.len() == m || (self.codes@.len() == 0 && self.cluster == NO_CLUSTER)
    }
}

/// Vectors, clusters and codes by the hash of the text.
pub struct EmbedCache {
    dim: usize,
    m: usize,
    quantizer: u64,
    entries: Vec<Entry>,
    slots: HashMap<u64, usize>,
}

/// The entries by key.
pub open spec fn by_key(entries: Seq<Entry>, m: int) -> Map<u64, EntryModel>
    decreases entries.len(),
{
    if entries.len() == 0 {
        Map::empty()
    } else {
        by_key(entries.drop_last(), m).insert(entries.last().key, entries.last().model(m))
    }
}

proof fn lemma_by_key(entries: Seq<Entry>, m: int, i: int)
    requires
        0 <= i < entries.len(),
        forall|a: int, b: int|
            0 <= a < b < entries.len() ==> (#[trigger] entries[a]).key != (
            #[trigger] entries[b]).key,
    ensures
        by_key(entries, m).contains_key(entries[i].key),
        by_key(entries, m)[entries[i].key] == entries[i].model(m),
    decreases entries.len(),
{
    if i < entries.len() - 1 {
        let front = entries.drop_last();
        assert(front[i] == entries[i]);
        lemma_by_key(front, m, i);
        assert(entries[i].key != entries[entries.len() - 1].key);
    }
}

proof fn lemma_by_key_dom(entries: Seq<Entry>, m: int, key: u64) -> (i: int)
    requires
        by_key(entries, m).contains_key(key),
    ensures
        0 <= i < entries.len(),
        entries[i].key == key,
    decreases entries.len(),
{
    if entries.last().key == key {
        entries.len() - 1
    } else {
        lemma_by_key_dom(entries.drop_last(), m, key)
    }
}

impl EmbedCache {
    pub closed spec fn dimension(&self) -> int {
        self.dim as int
    }

    /// Bytes per code.
    pub closed spec fn code_len(&self) -> int {
        self.m as int
    }

    pub closed spec fn quantizer_tag(&self) -> u64 {
        self.quantizer
    }

    /// What is cached under each key.
    pub closed spec fn contents(&self) -> Map<u64, EntryModel> {
        by_key(self.entries@, self.m as int)
    }

    /// The entries, in the order in which they are saved.
    pub closed spec fn records(&self) -> Seq<Entry> {
        self.entries@
    }

    pub closed spec fn wf(&self) -> bool {
        &&& forall|i: int|
            0 <= i < self.entries@.len() ==> {
                &&& (#[trigger] self.entries@[i]).wf(self.dim as int, self.m as int)
                &&& self.slots@.contains_key(self.entries@[i].key)
                &&& self.slots@[self.entries@[i].key] == i
            }
        &&& forall|k: u64|
            #[trigger] self.slots@.contains_key(k) ==> self.slots@[k] < self.entries@.len()
                && self.entries@[self.slots@[k] as int].key == k
    }

    proof fn lemma_distinct(&self)
        requires
            self.wf(),
        ensures
            forall|a: int, b: int|
                0 <= a < b < self.entries@.len() ==> (#[trigger] self.entries@[a]).key != (
                #[trigger] self.entries@[b]).key,
    {
    }

    /// A key has a slot exactly if it is cached, and the slot shows what is.
    proof fn lemma_slot(&self, key: u64)
        requires
            self.wf(),
        ensures
            self.slots@.contains_key(key) == self.contents().contains_key(key),
            self.slots@.contains_key(key) ==> self.contents()[key] == self.entries@[
                self.slots@[key] as int
            ].model(self.m as int),
    {
        self.lemma_distinct();
        if self.slots@.contains_key(key) {
            lemma_by_key(self.entries@, self.m as int, self.slots@[key] as int);
        }
        if self.contents().contains_key(key) {
            let i = lemma_by_key_dom(self.entries@, self.m as int, key);
        }
    }

    proof fn lemma_slots(&self)
        requires
            self.wf(),
        ensures
            forall|key: u64|
                #![trigger self.slots@.contains_key(key)]
                #![trigger self.contents().contains_key(key)]
                {
                    &&& self.slots@.contains_key(key) == self.contents().contains_key(key)
                    &&& self.slots@.contains_key(key) ==> self.contents()[key] == self.entries@[
                        self.slots@[key] as int
                    ].model(self.m as int)
                },
    {
        assert forall|key: u64|
            #![trigger self.slots@.contains_key(key)]
            #![trigger self.contents().contains_key(key)]
            {
                &&& self.slots@.contains_key(key) == self.contents().contains_key(key)
                &&& self.slots@.contains_key(key) ==> self.contents()[key] == self.entries@[
                    self.slots@[key] as int
                ].model(self.m as int)
            } by {
            self.lemma_slot(key);
        }
    }

    /// An empty cache of vectors with `dim` coordinates.
    pub fn new(dim: usize) -> (c: EmbedCache)
        ensures
            c.wf(),
            c.dimension() == dim,
            c.code_len() == 0,
            c.quantizer_tag() == 0,
            c.contents() == Map::<u64, EntryModel>::empty(),
    {
        broadcast use vstd::std_specs::hash::group_hash_axioms;

        EmbedCache { dim, m: 0, quantizer: 0, entries: Vec::new(), slots: HashMap::new() }
    }

    /// How many chunks are cached.
    pub fn len(&self) -> (n: usize)
        requires
            self.wf(),
        ensures
            n == self.contents().len(),
            self.contents().dom().finite(),
    {
        proof {
            self.lemma_distinct();
            lemma_by_key_len(self.entries@, self.m as int);
        }
        self.entries.len()
    }

    pub fn is_empty(&self) -> (r: bool)
        requires
            self.wf(),
        ensures
            r == (self.contents() =~= Map::<u64, EntryModel>::empty()),
    {
        let n: usize = self.entries.len();
        proof {
            if n > 0 {
                self.lemma_slot(self.entries@[0].key);
                assert(!Map::<u64, EntryModel>::empty().contains_key(self.entries@[0].key));
            }
        }
        n == 0
    }

    pub fn dim(&self) -> (n: usize)
        ensures
            n == self.dimension(),
    {
        self.dim
    }

    /// The quantizer that the cached clusters and codes belong to.
    pub fn quantizer(&self) -> (id: u64)
        ensures
            id == self.quantizer_tag(),
    {
        self.quantizer
    }

    pub fn contains(&self, key: u64) -> (r: bool)
        requires
            self.wf(),
        ensures
            r == self.contents().contains_key(key),
    {
        broadcast use vstd::std_specs::hash::group_hash_axioms;

        proof {
            self.lemma_slot(key);
        }
        self.slots.contains_key(&key)
    }

    /// The vector cached under `key`, in single precision.
    pub fn get(&self, key: u64) -> (r: Option<Vec<u32>>)
        requires
            self.wf(),
        ensures
            r is Some == self.contents().contains_key(key),
            r matches Some(v) ==> {
                &&& v@.len() == self.dimension()
                &&& v@.len() == self.contents()[key].lanes.len()
                &&& forall|i: int|
                    0 <= i < v@.len() ==> embeddings::widens(
                        self.contents()[key].lanes[i] as nat,
                        (#[trigger] v@[i]) as nat,
                    )
            },
    {
        broadcast use vstd::std_specs::hash::group_hash_axioms;

        proof {
            self.lemma_slot(key);
        }
        let slot: usize = match self.slots.get(&key) {
            Some(s) => *s,
            None => {
                return None;
            },
        };
        let ghost lanes = self.entries@[slot as int].lanes@;
        let mut v: Vec<u32> = Vec::new();
        let n: usize = self.entries[slot].lanes.len();
        let mut i: usize = 0;
        while i < n
            invariant
                i <= n == lanes.len(),
                slot < self.entries@.len(),
                lanes == self.entries@[slot as int].lanes@,
                v@.len() == i,
                forall|k: int|
                    0 <= k < i ==> embeddings::widens(lanes[k] as nat, (#[trigger] v@[k]) as nat),
            decreases n - i,
        {
            v.push(embeddings::f16_to_f32(self.entries[slot].lanes[i]));
            i += 1;
        }
        Some(v)
    }

    /// The cluster and the code cached under `key` for the current quantizer.
    pub fn get_quant(&self, key: u64) -> (r: Option<(u32, &[u8])>)
        requires
            self.wf(),
        ensures
            r is Some == (self.contents().contains_key(key) && self.contents()[key].quant is Some),
            r matches Some((cluster, codes)) ==> self.contents()[key].quant == Some(
                (cluster, codes@),
            ),
    {
        broadcast use vstd::std_specs::hash::group_hash_axioms;

        proof {
            self.lemma_slot(key);
        }
        let slot: usize = match self.slots.get(&key) {
            Some(s) => *s,
            None => {
                return None;
            },
        };
        let entry = &self.entries[slot];
        if entry.cluster == NO_CLUSTER || entry.codes.len() != self.m {
            return None;
        }
        Some((entry.cluster, entry.codes.as_slice()))
    }
}

/// The vector in half precision.
pub open spec fn halves_of(v: Seq<u32>) -> Seq<u16> {
    v.map_values(|b: u32| embeddings::stored_half(b as nat) as u16)
}

/// The vectors alone.
pub open spec fn without_quant(contents: Map<u64, EntryModel>) -> Map<u64, EntryModel> {
    contents.map_values(|e: EntryModel| EntryModel { lanes: e.lanes, quant: None })
}

impl EmbedCache {
    /// Adopt a quantizer. A different one drops every cluster and code and
    /// keeps the vectors.
    pub fn set_quantizer(&mut self, id: u64, m: usize)
        requires
            old(self).wf(),
        ensures
            final(self).wf(),
            final(self).dimension() == old(self).dimension(),
            final(self).quantizer_tag() == id,
            final(self).code_len() == m,
            final(self).contents() == if old(self).quantizer_tag() == id && old(self).code_len()
                == m {
                old(self).contents()
            } else {
                without_quant(old(self).contents())
            },
    {
        if self.quantizer == id && self.m == m {
            return;
        }
        let ghost before = *self;
        let n: usize = self.entries.len();
        let mut i: usize = 0;
        while i < n
            invariant
                i <= n == self.entries@.len(),
                self.entries@.len() == before.entries@.len(),
                self.slots == before.slots,
                self.dim == before.dim,
                forall|j: int|
                    0 <= j < n ==> {
                        &&& (#[trigger] self.entries@[j]).key == before.entries@[j].key
                        &&& self.entries@[j].lanes == before.entries@[j].lanes
                        &&& j < i ==> self.entries@[j].cluster == NO_CLUSTER
                            && self.entries@[j].codes@.len() == 0
                    },
            decreases n - i,
        {
            self.entries[i].cluster = NO_CLUSTER;
            self.entries[i].codes = Vec::new();
            i += 1;
        }
        self.quantizer = id;
        self.m = m;
        proof {
            assert forall|j: int| 0 <= j < n implies {
                &&& (#[trigger] self.entries@[j]).wf(self.dim as int, self.m as int)
                &&& self.slots@.contains_key(self.entries@[j].key)
                &&& self.slots@[self.entries@[j].key] == j
            } by {
                assert(before.entries@[j].wf(before.dim as int, before.m as int));
            }
            assert forall|k: u64| #[trigger] self.slots@.contains_key(k) implies self.slots@[k]
                < self.entries@.len() && self.entries@[self.slots@[k] as int].key == k by {
                assert(before.slots@.contains_key(k));
            }
            before.lemma_slots();
            self.lemma_slots();
            let want = without_quant(before.contents());
            assert forall|k: u64| #[trigger] self.contents().contains_key(k) implies want[k]
                == self.contents()[k] by {
                assert(self.slots@.contains_key(k));
                assert(before.slots@.contains_key(k));
            }
            assert forall|k: u64| #[trigger] want.contains_key(k) implies self.contents().contains_key(
                k,
            ) by {
                assert(before.slots@.contains_key(k));
                assert(self.slots@.contains_key(k));
            }
            assert(self.contents() =~= want);
        }
    }

    /// Record the cluster and the code of a chunk under the current
    /// quantizer. Nothing happens if the chunk is not cached, or the code
    /// does not have the length of the quantizer's.
    pub fn set_quant(&mut self, key: u64, cluster: u32, codes: &[u8])
        requires
            old(self).wf(),
        ensures
            final(self).wf(),
            final(self).dimension() == old(self).dimension(),
            final(self).quantizer_tag() == old(self).quantizer_tag(),
            final(self).code_len() == old(self).code_len(),
            final(self).contents() == if codes@.len() == old(self).code_len()
                && old(self).contents().contains_key(key) {
                old(self).contents().insert(
                    key,
                    EntryModel {
                        lanes: old(self).contents()[key].lanes,
                        quant: if cluster == NO_CLUSTER {
                            None
                        } else {
                            Some((cluster, codes@))
                        },
                    },
                )
            } else {
                old(self).contents()
            },
    {
        broadcast use vstd::std_specs::hash::group_hash_axioms;

        proof {
            self.lemma_slots();
        }
        if codes.len() != self.m {
            return;
        }
        let slot: usize = match self.slots.get(&key) {
            Some(s) => *s,
            None => {
                return;
            },
        };
        let ghost before = *self;
        let mut copy: Vec<u8> = Vec::new();
        codec::append(&mut copy, codes);
        self.entries[slot].cluster = cluster;
        self.entries[slot].codes = copy;
        proof {
            assert(copy@ =~= codes@);
            self.lemma_changed(before, slot as int);
            assert(self.contents() =~= before.contents().insert(
                key,
                self.entries@[slot as int].model(self.m as int),
            ));
        }
    }

    /// Changing one entry, under the same key, changes what is cached under
    /// that key.
    proof fn lemma_changed(&self, before: EmbedCache, slot: int)
        requires
            before.wf(),
            0 <= slot < before.entries@.len() == self.entries@.len(),
            self.dim == before.dim,
            self.m == before.m,
            self.slots@ == before.slots@,
            self.entries@[slot].key == before.entries@[slot].key,
            self.entries@[slot].wf(self.dim as int, self.m as int),
            forall|j: int|
                0 <= j < self.entries@.len() && j != slot ==> #[trigger] self.entries@[j]
                    == before.entries@[j],
        ensures
            self.wf(),
            self.contents() =~= before.contents().insert(
                before.entries@[slot].key,
                self.entries@[slot].model(self.m as int),
            ),
    {
        assert forall|j: int| 0 <= j < self.entries@.len() implies {
            &&& (#[trigger] self.entries@[j]).wf(self.dim as int, self.m as int)
            &&& self.slots@.contains_key(self.entries@[j].key)
            &&& self.slots@[self.entries@[j].key] == j
        } by {
            assert(before.entries@[j].wf(before.dim as int, before.m as int));
        }
        assert forall|k: u64| #[trigger] self.slots@.contains_key(k) implies self.slots@[k]
            < self.entries@.len() && self.entries@[self.slots@[k] as int].key == k by {
            assert(before.slots@.contains_key(k));
        }
        before.lemma_slots();
        self.lemma_slots();
        let key = before.entries@[slot].key;
        let want = before.contents().insert(key, self.entries@[slot].model(self.m as int));
        assert(before.entries@[slot].wf(before.dim as int, before.m as int));
        assert forall|k: u64|
            #![trigger self.contents().contains_key(k)]
            #![trigger want.contains_key(k)]
            {
                &&& self.contents().contains_key(k) == want.contains_key(k)
                &&& want.contains_key(k) ==> self.contents()[k] == want[k]
            } by {
            assert(self.slots@.contains_key(k) == before.slots@.contains_key(k));
            assert(self.slots@.contains_key(key));
        }
    }

    /// Cache a vector. Nothing happens if it has the wrong dimension.
    pub fn insert(&mut self, key: u64, vector: &[u32])
        requires
            old(self).wf(),
        ensures
            final(self).wf(),
            final(self).dimension() == old(self).dimension(),
            final(self).quantizer_tag() == old(self).quantizer_tag(),
            final(self).code_len() == old(self).code_len(),
            final(self).contents() == if vector@.len() == old(self).dimension() {
                old(self).contents().insert(
                    key,
                    EntryModel { lanes: halves_of(vector@), quant: None },
                )
            } else {
                old(self).contents()
            },
    {
        if vector.len() != self.dim {
            return;
        }
        let lanes = embeddings::to_halves(vector);
        let entry = Entry { key, lanes, cluster: NO_CLUSTER, codes: Vec::new() };
        proof {
            assert(lanes@ =~= halves_of(vector@)) by {
                assert forall|i: int| 0 <= i < lanes@.len() implies lanes@[i] == halves_of(
                    vector@,
                )[i] by {
                    assert(table::nats_u16(lanes@)[i] == embeddings::stored_row(vector@)[i]);
                }
            }
            assert(entry.model(self.m as int) == EntryModel {
                lanes: halves_of(vector@),
                quant: None,
            });
        }
        self.put(entry);
    }

    /// Forget every chunk that is not in `live`.
    pub fn retain_keys(&mut self, live: &HashSet<u64>)
        requires
            old(self).wf(),
        ensures
            final(self).wf(),
            final(self).dimension() == old(self).dimension(),
            final(self).quantizer_tag() == old(self).quantizer_tag(),
            final(self).code_len() == old(self).code_len(),
            final(self).contents() == old(self).contents().restrict(live@),
    {
        broadcast use vstd::std_specs::hash::group_hash_axioms;

        let ghost before = *self;
        let mut rest: Vec<Entry> = Vec::new();
        std::mem::swap(&mut rest, &mut self.entries);
        let mut kept = EmbedCache {
            dim: self.dim,
            m: self.m,
            quantizer: self.quantizer,
            entries: Vec::new(),
            slots: HashMap::new(),
        };
        let ghost mut i: int = rest@.len() as int;
        let ghost m = self.m as int;
        proof {
            assert(kept.contents() =~= before.contents().restrict(
                live@.intersect(suffix_keys(before.entries@, i)),
            ));
        }
        while rest.len() > 0
            invariant
                before.wf(),
                m == before.m,
                0 <= i <= before.entries@.len(),
                rest@ == before.entries@.take(i),
                kept.wf(),
                kept.dim == before.dim,
                kept.m == before.m,
                kept.quantizer == before.quantizer,
                kept.contents() == before.contents().restrict(
                    live@.intersect(suffix_keys(before.entries@, i)),
                ),
            decreases rest@.len(),
        {
            broadcast use vstd::std_specs::hash::group_hash_axioms;

            if let Some(entry) = rest.pop() {
                let ghost e = before.entries@[i - 1];
                assert(entry == e);
                assert(e.wf(before.dim as int, before.m as int));
                proof {
                    before.lemma_slot(e.key);
                }
                if live.contains(&entry.key) {
                    kept.put(entry);
                }
                proof {
                    i = i - 1;
                    let keys = live@.intersect(suffix_keys(before.entries@, i));
                    let had = live@.intersect(suffix_keys(before.entries@, i + 1));
                    assert forall|k: u64| #[trigger] keys.contains(k) == (had.contains(k) || (k
                        == e.key && live@.contains(k))) by {
                        if suffix_keys(before.entries@, i).contains(k) {
                            let j = choose|j: int|
                                i <= j < before.entries@.len() && before.entries@[j].key == k;
                            assert(before.entries@[j].key == k);
                            if j > i {
                                assert(i + 1 <= j);
                            }
                        }
                        if suffix_keys(before.entries@, i + 1).contains(k) {
                            let j = choose|j: int|
                                i + 1 <= j < before.entries@.len() && before.entries@[j].key == k;
                            assert(before.entries@[j].key == k);
                        }
                        assert(before.entries@[i].key == e.key);
                    }
                    assert(kept.contents() =~= before.contents().restrict(keys));
                }
            }
        }
        proof {
            assert(i == 0) by {
                assert(rest@.len() == i);
            }
            before.lemma_slots();
            assert forall|k: u64| before.contents().contains_key(k) implies #[trigger] suffix_keys(
                before.entries@,
                0,
            ).contains(k) by {
                assert(before.slots@.contains_key(k));
                assert(before.entries@[before.slots@[k] as int].key == k);
            }
            assert(kept.contents() =~= before.contents().restrict(live@));
        }
        *self = kept;
    }

    /// Add an entry, in place of the one with its key if there is one.
    fn put(&mut self, entry: Entry)
        requires
            old(self).wf(),
            entry.wf(old(self).dim as int, old(self).m as int),
        ensures
            final(self).wf(),
            final(self).dim == old(self).dim,
            final(self).m == old(self).m,
            final(self).quantizer == old(self).quantizer,
            final(self).contents() == old(self).contents().insert(
                entry.key,
                entry.model(old(self).m as int),
            ),
    {
        broadcast use vstd::std_specs::hash::group_hash_axioms;

        let ghost before = *self;
        let key: u64 = entry.key;
        proof {
            self.lemma_slots();
        }
        let found: Option<usize> = match self.slots.get(&key) {
            Some(s) => Some(*s),
            None => None,
        };
        match found {
            Some(slot) => {
                self.entries.set(slot, entry);
                proof {
                    self.lemma_changed(before, slot as int);
                }
            },
            None => {
                let at: usize = self.entries.len();
                self.slots.insert(key, at);
                self.entries.push(entry);
                proof {
                    assert forall|j: int| 0 <= j < self.entries@.len() implies {
                        &&& (#[trigger] self.entries@[j]).wf(self.dim as int, self.m as int)
                        &&& self.slots@.contains_key(self.entries@[j].key)
                        &&& self.slots@[self.entries@[j].key] == j
                    } by {
                        if j < at {
                            assert(before.entries@[j].wf(before.dim as int, before.m as int));
                        }
                    }
                    assert forall|k: u64| #[trigger] self.slots@.contains_key(k) implies
                        self.slots@[k] < self.entries@.len()
                        && self.entries@[self.slots@[k] as int].key == k by {
                        if k != key {
                            assert(before.slots@.contains_key(k));
                        }
                    }
                    assert(self.entries@.drop_last() =~= before.entries@);
                }
            },
        }
    }
}

/// The keys of the entries from `i` on.
spec fn suffix_keys(entries: Seq<Entry>, i: int) -> Set<u64> {
    Set::new(|k: u64| exists|j: int| i <= j < entries.len() && (#[trigger] entries[j]).key == k)
}

proof fn lemma_by_key_len(entries: Seq<Entry>, m: int)
    requires
        forall|a: int, b: int|
            0 <= a < b < entries.len() ==> (#[trigger] entries[a]).key != (
            #[trigger] entries[b]).key,
    ensures
        by_key(entries, m).dom().finite(),
        by_key(entries, m).len() == entries.len(),
    decreases entries.len(),
{
    if entries.len() > 0 {
        let front = entries.drop_last();
        assert forall|a: int, b: int| 0 <= a < b < front.len() implies (#[trigger] front[a]).key
            != (#[trigger] front[b]).key by {
            assert(front[a] == entries[a] && front[b] == entries[b]);
        }
        lemma_by_key_len(front, m);
        if by_key(front, m).contains_key(entries.last().key) {
            let i = lemma_by_key_dom(front, m, entries.last().key);
            assert(front[i] == entries[i]);
            assert(entries[i].key != entries[entries.len() - 1].key);
        }
    }
}

// ---------------------------------------------------------------------------
// The cache file
// ---------------------------------------------------------------------------

/// The code of an entry in the file: zeros if it has none.
pub open spec fn code_bytes(e: Entry, m: int) -> Seq<u8> {
    if e.codes@.len() == m {
        e.codes@
    } else {
        Seq::new(m as nat, |i: int| 0u8)
    }
}

/// One entry in the file.
pub open spec fn record(e: Entry, m: int) -> Seq<u8> {
    codec::le_bytes(e.key as nat, 8) + table::table(table::nats_u16(e.lanes@), 2)
        + codec::le_bytes(e.cluster as nat, 4) + code_bytes(e, m)
}

/// The entries in the file.
pub open spec fn record_bytes(entries: Seq<Entry>, m: int) -> Seq<u8>
    decreases entries.len(),
{
    if entries.len() == 0 {
        Seq::empty()
    } else {
        record_bytes(entries.drop_last(), m) + record(entries.last(), m)
    }
}

/// The file of a cache.
pub open spec fn cache_file(dim: int, m: int, quantizer: u64, entries: Seq<Entry>) -> Seq<u8> {
    table::framed(
        MAGIC as nat,
        seq![VERSION as nat, dim as nat, entries.len(), m as nat],
        codec::le_bytes(quantizer as nat, 8) + record_bytes(entries, m),
    )
}

/// The bytes per entry.
pub open spec fn stride(dim: int, m: int) -> int {
    12 + 2 * dim + m
}

/// The bytes are a complete cache file for vectors with `dim` coordinates.
pub open spec fn loadable(b: Seq<u8>, dim: int) -> bool {
    &&& b.len() >= HEADER_LEN
    &&& codec::le_at(b, 0, 8) == MAGIC
    &&& codec::le_at(b, 8, 4) == VERSION
    &&& codec::le_at(b, 12, 4) == dim
    &&& b.len() >= HEADER_LEN + codec::le_at(b, 16, 4) * stride(
        dim,
        codec::le_at(b, 20, 4) as int,
    )
}

/// The key of the record at `at`.
pub open spec fn key_at(b: Seq<u8>, at: int) -> u64 {
    codec::le_at(b, at, 8) as u64
}

/// What the record at `at` says.
pub open spec fn model_at(b: Seq<u8>, at: int, dim: int, m: int) -> EntryModel {
    let cluster = codec::le_at(b, at + 8 + 2 * dim, 4) as u32;
    EntryModel {
        lanes: Seq::new(dim as nat, |j: int| codec::le_at(b, at + 8 + j * 2, 2) as u16),
        quant: if cluster == NO_CLUSTER {
            None
        } else {
            Some((cluster, b.subrange(at + 12 + 2 * dim, at + 12 + 2 * dim + m)))
        },
    }
}

/// What the first `count` records say. A later record wins.
pub open spec fn loaded(b: Seq<u8>, dim: int, m: int, count: int) -> Map<u64, EntryModel>
    decreases count,
{
    if count <= 0 {
        Map::empty()
    } else {
        let at = HEADER_LEN + (count - 1) * stride(dim, m);
        loaded(b, dim, m, count - 1).insert(key_at(b, at), model_at(b, at, dim, m))
    }
}

impl EmbedCache {
    /// A cache from its file: `None` if the bytes are something else, were
    /// cut short, or hold vectors of another dimension.
    pub fn try_load(bytes: &[u8], dim: usize) -> (r: Option<EmbedCache>)
        ensures
            r is Some == loadable(bytes@, dim as int),
            r matches Some(c) ==> {
                let m = codec::le_at(bytes@, 20, 4) as int;
                &&& c.wf()
                &&& c.dimension() == dim
                &&& c.code_len() == m
                &&& c.quantizer_tag() == codec::le_at(bytes@, 24, 8)
                &&& c.contents() == loaded(
                    bytes@,
                    dim as int,
                    m,
                    codec::le_at(bytes@, 16, 4) as int,
                )
            },
    {
        broadcast use vstd::std_specs::hash::group_hash_axioms;

        let size: usize = bytes.len();
        if size < HEADER_LEN || codec::read_le(bytes, 0, 8) != MAGIC {
            return None;
        }
        if table::field(bytes, 0) != VERSION {
            return None;
        }
        if table::field(bytes, 1) as u64 != dim as u64 {
            return None;
        }
        let count: u32 = table::field(bytes, 2);
        let width: u32 = table::field(bytes, 3);
        let quantizer: u64 = codec::read_le(bytes, 24, 8);
        let long: u128 = 12 + 2 * (dim as u128) + width as u128;
        let ghost step = stride(dim as int, width as int);
        proof {
            assert(0 <= count * step <= 0x1_0000_0000 * 0x4_0000_0000) by (nonlinear_arith)
                requires
                    0 <= count <= 0x1_0000_0000,
                    0 <= step <= 0x4_0000_0000,
            ;
        }
        let need: u128 = HEADER_LEN as u128 + count as u128 * long;
        if (size as u128) < need {
            return None;
        }
        let m: usize = width as usize;
        let mut c = EmbedCache {
            dim,
            m,
            quantizer,
            entries: Vec::new(),
            slots: HashMap::new(),
        };
        let mut i: u32 = 0;
        let mut at: usize = HEADER_LEN;
        assert(0 * step == 0);
        while i < count
            invariant
                i <= count,
                size == bytes@.len(),
                step == stride(dim as int, m as int),
                m == width,
                size >= HEADER_LEN + count * step,
                at == HEADER_LEN + i * step,
                c.wf(),
                c.dim == dim,
                c.m == m,
                c.quantizer == quantizer,
                c.contents() == loaded(bytes@, dim as int, m as int, i as int),
            decreases count - i,
        {
            proof {
                assert(i * step + step <= count * step) by (nonlinear_arith)
                    requires
                        i + 1 <= count,
                        step >= 0,
                ;
                assert((i + 1) * step == i * step + step) by (nonlinear_arith);
                lemma2_to64();
            }
            let key: u64 = codec::read_le(bytes, at, 8);
            let lanes = table::read_u16(bytes, at + 8, dim);
            let rest: usize = at + 8 + 2 * dim;
            let cluster: u32 = codec::read_le(bytes, rest, 4) as u32;
            let mut codes: Vec<u8> = Vec::new();
            codec::append(&mut codes, slice_subrange(bytes, rest + 4, rest + 4 + m));
            let entry = Entry { key, lanes, cluster, codes };
            proof {
                let want = model_at(bytes@, at as int, dim as int, m as int);
                assert(entry.lanes@ =~= want.lanes) by {
                    assert forall|j: int| 0 <= j < dim implies entry.lanes@[j] == want.lanes[j] by {
                        assert(table::nats_u16(lanes@)[j] == table::entries(
                            bytes@,
                            at + 8,
                            dim as int,
                            2,
                        )[j]);
                    }
                }
                assert(codes@ =~= bytes@.subrange(rest + 4, rest + 4 + m));
                assert(entry.model(m as int) == want);
            }
            c.put(entry);
            at = rest + 4 + m;
            i += 1;
        }
        Some(c)
    }

    /// A cache from its file, or an empty one.
    pub fn load(bytes: &[u8], dim: usize) -> (c: EmbedCache)
        ensures
            c.wf(),
            c.dimension() == dim,
            if loadable(bytes@, dim as int) {
                let m = codec::le_at(bytes@, 20, 4) as int;
                &&& c.code_len() == m
                &&& c.quantizer_tag() == codec::le_at(bytes@, 24, 8)
                &&& c.contents() == loaded(
                    bytes@,
                    dim as int,
                    m,
                    codec::le_at(bytes@, 16, 4) as int,
                )
            } else {
                &&& c.code_len() == 0
                &&& c.quantizer_tag() == 0
                &&& c.contents() == Map::<u64, EntryModel>::empty()
            },
    {
        match EmbedCache::try_load(bytes, dim) {
            Some(c) => c,
            None => EmbedCache::new(dim),
        }
    }

    /// The file of this cache.
    pub fn save(&self) -> (b: Vec<u8>)
        requires
            self.wf(),
            self.dimension() <= u32::MAX,
            self.code_len() <= u32::MAX,
            self.contents().len() <= u32::MAX,
        ensures
            b@ == cache_file(
                self.dimension(),
                self.code_len(),
                self.quantizer_tag(),
                self.records(),
            ),
    {
        proof {
            self.lemma_distinct();
            lemma_by_key_len(self.entries@, self.m as int);
        }
        let n: usize = self.entries.len();
        let m: usize = self.m;
        let fields: [u32; 4] = [VERSION, self.dim as u32, n as u32, m as u32];
        let mut out: Vec<u8> = table::new_frame(MAGIC, fields.as_slice());
        codec::push_le(&mut out, self.quantizer, 8);
        let ghost head = out@;
        let mut blank: Vec<u8> = Vec::new();
        let mut z: usize = 0;
        while z < m
            invariant
                z <= m,
                blank@ == Seq::new(z as nat, |i: int| 0u8),
            decreases m - z,
        {
            blank.push(0);
            z += 1;
            assert(blank@ =~= Seq::new(z as nat, |i: int| 0u8));
        }
        let mut i: usize = 0;
        assert(out@ =~= head + record_bytes(self.entries@.take(0), m as int));
        while i < n
            invariant
                i <= n == self.entries@.len(),
                m == self.m,
                blank@ == Seq::new(m as nat, |i: int| 0u8),
                out@ == head + record_bytes(self.entries@.take(i as int), m as int),
            decreases n - i,
        {
            let entry = &self.entries[i];
            let ghost start = out@;
            codec::push_le(&mut out, entry.key, 8);
            table::push_u16(&mut out, entry.lanes.as_slice());
            codec::push_le(&mut out, entry.cluster as u64, 4);
            if entry.codes.len() == m {
                codec::append(&mut out, entry.codes.as_slice());
            } else {
                codec::append(&mut out, blank.as_slice());
            }
            proof {
                assert(out@ =~= start + record(*entry, m as int));
                let more = self.entries@.take(i + 1);
                assert(more.drop_last() =~= self.entries@.take(i as int));
                assert(out@ =~= head + record_bytes(more, m as int));
            }
            i += 1;
        }
        proof {
            assert(self.entries@.take(n as int) =~= self.entries@);
            assert(table::nats_u32(fields@) =~= seq![
                VERSION as nat,
                self.dim as nat,
                n as nat,
                m as nat,
            ]);
            assert(out@ =~= cache_file(
                self.dimension(),
                self.code_len(),
                self.quantizer_tag(),
                self.records(),
            ));
        }
        out
    }
}

/// The record at `at` is that of `e`.
proof fn lemma_record(before: Seq<u8>, e: Entry, dim: int, m: int, after: Seq<u8>)
    requires
        dim >= 0,
        m >= 0,
        e.wf(dim, m),
    ensures
        record(e, m).len() == stride(dim, m),
        key_at(before + record(e, m) + after, before.len() as int) == e.key,
        model_at(before + record(e, m) + after, before.len() as int, dim, m) == e.model(m),
{
    let b = before + record(e, m) + after;
    let at = before.len() as int;
    let key = codec::le_bytes(e.key as nat, 8);
    let lanes = table::nats_u16(e.lanes@);
    let vector = table::table(lanes, 2);
    let cluster = codec::le_bytes(e.cluster as nat, 4);
    let code = code_bytes(e, m);
    lemma2_to64();
    table::lemma_table_len(lanes, 2);
    assert(vector.len() == 2 * dim);
    assert(b =~= before + key + (vector + cluster + code + after));
    codec::lemma_field(before, e.key as nat, 8, vector + cluster + code + after);
    assert(b =~= (before + key + vector) + cluster + (code + after));
    codec::lemma_field(before + key + vector, e.cluster as nat, 4, code + after);
    let got = model_at(b, at, dim, m);
    assert forall|j: int| 0 <= j < dim implies got.lanes[j] == e.lanes@[j] by {
        assert(b =~= (before + key) + vector + (cluster + code + after));
        table::lemma_fits_u16(e.lanes@);
        table::lemma_table_entry(before + key, lanes, 2, cluster + code + after, j);
        assert(lanes[j] == e.lanes@[j]);
    }
    assert(got.lanes =~= e.lanes@);
    assert(b.subrange(at + 12 + 2 * dim, at + 12 + 2 * dim + m) =~= code);
}

proof fn lemma_record_bytes(entries: Seq<Entry>, dim: int, m: int)
    requires
        dim >= 0,
        m >= 0,
        forall|i: int| 0 <= i < entries.len() ==> (#[trigger] entries[i]).wf(dim, m),
    ensures
        record_bytes(entries, m).len() == entries.len() * stride(dim, m),
    decreases entries.len(),
{
    let k = entries.len() as int;
    let step = stride(dim, m);
    if k > 0 {
        assert(entries[k - 1].wf(dim, m));
        lemma_record_bytes(entries.drop_last(), dim, m);
        lemma_record(Seq::empty(), entries.last(), dim, m, Seq::empty());
        assert((k - 1) * step + step == k * step) by (nonlinear_arith);
    } else {
        assert(0 * step == 0) by (nonlinear_arith);
    }
}

/// What the records say is what the entries are.
proof fn lemma_loaded(head: Seq<u8>, entries: Seq<Entry>, dim: int, m: int, after: Seq<u8>)
    requires
        dim >= 0,
        m >= 0,
        head.len() == HEADER_LEN,
        forall|i: int| 0 <= i < entries.len() ==> (#[trigger] entries[i]).wf(dim, m),
    ensures
        loaded(head + record_bytes(entries, m) + after, dim, m, entries.len() as int) == by_key(
            entries,
            m,
        ),
    decreases entries.len(),
{
    if entries.len() > 0 {
        let front = entries.drop_last();
        let own = record(entries.last(), m);
        let b = head + record_bytes(entries, m) + after;
        let k = entries.len() as int;
        assert(entries[k - 1].wf(dim, m));
        assert(b =~= head + record_bytes(front, m) + (own + after));
        lemma_loaded(head, front, dim, m, own + after);
        lemma_record_bytes(front, dim, m);
        assert(b =~= (head + record_bytes(front, m)) + own + after);
        lemma_record(head + record_bytes(front, m), entries.last(), dim, m, after);
    }
}

/// A saved cache loads, with the same vectors, clusters and codes.
pub proof fn law_saved_cache_loads(c: EmbedCache, b: Seq<u8>)
    requires
        c.wf(),
        c.dimension() <= u32::MAX,
        c.code_len() <= u32::MAX,
        c.contents().len() <= u32::MAX,
        b == cache_file(c.dimension(), c.code_len(), c.quantizer_tag(), c.records()),
    ensures
        loadable(b, c.dimension()),
        codec::le_at(b, 20, 4) == c.code_len(),
        codec::le_at(b, 24, 8) == c.quantizer_tag(),
        loaded(b, c.dimension(), c.code_len(), codec::le_at(b, 16, 4) as int) == c.contents(),
{
    c.lemma_distinct();
    lemma_by_key_len(c.entries@, c.m as int);
    let dim = c.dim as int;
    let m = c.m as int;
    let fields = seq![VERSION as nat, dim as nat, c.entries@.len(), m as nat];
    let tag = codec::le_bytes(c.quantizer as nat, 8);
    let rest = record_bytes(c.entries@, m);
    lemma2_to64();
    lemma2_to64_rest();
    table::lemma_framed(MAGIC as nat, fields, tag + rest);
    assert(fields[0] == VERSION && fields[1] == dim && fields[2] == c.entries@.len() && fields[3]
        == m);
    assert(codec::le_at(b, 8, 4) == fields[0]);
    assert(codec::le_at(b, 12, 4) == fields[1]);
    assert(codec::le_at(b, 16, 4) == fields[2]);
    assert(codec::le_at(b, 20, 4) == fields[3]);
    let lead = b.take(24);
    assert(b =~= lead + tag + rest);
    codec::lemma_field(lead, c.quantizer as nat, 8, rest);
    lemma_record_bytes(c.entries@, dim, m);
    assert(b =~= (lead + tag) + rest + Seq::<u8>::empty());
    lemma_loaded(lead + tag, c.entries@, dim, m, Seq::empty());
}

/// Retraining drops what depends on the quantizer and keeps every vector.
pub proof fn law_retraining_keeps_vectors(contents: Map<u64, EntryModel>, key: u64)
    requires
        contents.contains_key(key),
    ensures
        without_quant(contents).contains_key(key),
        without_quant(contents)[key].lanes == contents[key].lanes,
        without_quant(contents)[key].quant is None,
{
}

/// Of several entries under one key the last one counts.
pub proof fn law_newest_entry_counts(entries: Seq<Entry>, m: int, i: int)
    requires
        0 <= i < entries.len(),
        forall|j: int| i < j < entries.len() ==> (#[trigger] entries[j]).key != entries[i].key,
    ensures
        by_key(entries, m).contains_key(entries[i].key),
        by_key(entries, m)[entries[i].key] == entries[i].model(m),
    decreases entries.len(),
{
    if i + 1 < entries.len() {
        let front = entries.drop_last();
        assert(entries[entries.len() - 1].key != entries[i].key);
        assert forall|j: int| i < j < front.len() implies (#[trigger] front[j]).key
            != front[i].key by {
            assert(entries[j].key != entries[i].key);
        }
        law_newest_entry_counts(front, m, i);
    }
}

/// A key that no entry has is not held.
pub proof fn law_only_entries_are_held(entries: Seq<Entry>, m: int, key: u64)
    requires
        forall|j: int| 0 <= j < entries.len() ==> (#[trigger] entries[j]).key != key,
    ensures
        !by_key(entries, m).contains_key(key),
    decreases entries.len(),
{
    if entries.len() > 0 {
        let front = entries.drop_last();
        assert(entries[entries.len() - 1].key != key);
        assert forall|j: int| 0 <= j < front.len() implies (#[trigger] front[j]).key != key by {
            assert(entries[j].key != key);
        }
        law_only_entries_are_held(front, m, key);
    }
}

} // verus!
