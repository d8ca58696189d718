//! The vectors of a rebuild: which chunks have to be encoded or quantized
//! again, and the keys by which a segment finds its vectors in the cache.

use crate::embcache;
use crate::embcache::EmbedCache;
use crate::embcache::EntryModel;
use crate::embeddings;
use crate::interner;
use crate::ivf;
use crate::ivf::IvfIndex;
use crate::lookup;
use crate::lookup::Lookup;
use crate::pq::PqIndex;
use crate::segments;
use crate::segments::Segment;
use crate::segments::SegmentedIndex;
use crate::sums;
use crate::table;
use vstd::prelude::*;
use vstd::utf8::encode_utf8;

verus! {

// ---------------------------------------------------------------------------
// Keys of a segment
// ---------------------------------------------------------------------------

/// The key file of a segment: one cache key per document, in little endian.
pub fn write_keys(keys: &[u64]) -> (b: Vec<u8>)
    ensures
        b@ == table::table(table::nats_u64(keys@), 8),
{
    let mut b: Vec<u8> = Vec::new();
    table::push_u64(&mut b, keys);
    assert(b@ =~= table::table(table::nats_u64(keys@), 8));
    b
}

/// The keys of a segment. Bytes that make no whole key are ignored.
pub fn read_keys(bytes: &[u8]) -> (keys: Vec<u64>)
    ensures
        keys@.len() == bytes@.len() / 8,
        table::nats_u64(keys@) == table::entries(bytes@, 0, bytes@.len() as int / 8, 8),
{
    let n: usize = bytes.len();
    table::read_u64(bytes, 0, n / 8)
}

/// What is written is read back.
pub proof fn law_written_keys_read_back(keys: Seq<u64>, bytes: Seq<u8>)
    requires
        bytes == table::table(table::nats_u64(keys), 8),
    ensures
        bytes.len() / 8 == keys.len(),
        table::entries(bytes, 0, bytes.len() as int / 8, 8) == table::nats_u64(keys),
{
    let v = table::nats_u64(keys);
    table::lemma_fits_u64(keys);
    table::lemma_table_len(v, 8);
    assert(bytes.skip(0) =~= table::table(v, 8) + Seq::<u8>::empty());
    table::lemma_next_table(bytes, 0, v, 8, Seq::empty());
    assert(bytes.len() == keys.len() * 8);
}

// ---------------------------------------------------------------------------
// Encoding
// ---------------------------------------------------------------------------

/// The cache keys of texts.
pub open spec fn keys_of(texts: Seq<String>) -> Seq<u64> {
    Seq::new(texts.len(), |i: int| embcache::key_of(encode_utf8(texts[i]@)))
}

/// Those of the first `n` keys that are not in the cache.
pub open spec fn misses_of(contents: Map<u64, EntryModel>, keys: Seq<u64>, n: int) -> Seq<usize>
    decreases n,
{
    if n <= 0 {
        Seq::empty()
    } else if contents.contains_key(keys[n - 1]) {
        misses_of(contents, keys, n - 1)
    } else {
        misses_of(contents, keys, n - 1).push((n - 1) as usize)
    }
}

/// The keys of a batch of texts, and which of them have to be encoded.
pub struct EncodePlan {
    pub keys: Vec<u64>,
    pub misses: Vec<usize>,
}

/// Hash each text; only those that the cache lacks have to be encoded.
pub fn plan_encoding(cache: &EmbedCache, texts: &[String]) -> (p: EncodePlan)
    requires
        cache.wf(),
    ensures
        p.keys@ == keys_of(texts@),
        p.misses@ == misses_of(cache.contents(), keys_of(texts@), texts@.len() as int),
{
    let n: usize = texts.len();
    let mut keys: Vec<u64> = Vec::new();
    let mut misses: Vec<usize> = Vec::new();
    let mut i: usize = 0;
    while i < n
        invariant
            i <= n,
            n == texts@.len(),
            cache.wf(),
            keys@.len() == i,
            forall|j: int| 0 <= j < i ==> #[trigger] keys@[j] == keys_of(texts@)[j],
            misses@ == misses_of(cache.contents(), keys_of(texts@), i as int),
        decreases n - i,
    {
        let key: u64 = embcache::key_for(texts[i].as_str());
        assert(key == keys_of(texts@)[i as int]);
        if !cache.contains(key) {
            misses.push(i);
        }
        keys.push(key);
        i += 1;
    }
    assert(keys@ =~= keys_of(texts@));
    EncodePlan { keys, misses }
}

/// The cache after the first `n` encoded vectors were put in. A vector of the
/// wrong dimension is not.
pub open spec fn with_vectors(
    contents: Map<u64, EntryModel>,
    dim: int,
    keys: Seq<u64>,
    at: Seq<usize>,
    vectors: Seq<Vec<u32>>,
    n: int,
) -> Map<u64, EntryModel>
    decreases n,
{
    if n <= 0 {
        contents
    } else {
        let front = with_vectors(contents, dim, keys, at, vectors, n - 1);
        if vectors[n - 1]@.len() == dim {
            front.insert(
                keys[at[n - 1] as int],
                EntryModel { lanes: embcache::halves_of(vectors[n - 1]@), quant: None },
            )
        } else {
            front
        }
    }
}

/// Cache the vectors of the chunks at `at`.
pub fn store_vectors(cache: &mut EmbedCache, keys: &[u64], at: &[usize], vectors: &Vec<Vec<u32>>)
    requires
        old(cache).wf(),
        at@.len() == vectors@.len(),
        forall|j: int| 0 <= j < at@.len() ==> #[trigger] at@[j] < keys@.len(),
    ensures
        final(cache).wf(),
        final(cache).dimension() == old(cache).dimension(),
        final(cache).quantizer_tag() == old(cache).quantizer_tag(),
        final(cache).code_len() == old(cache).code_len(),
        final(cache).contents() == with_vectors(
            old(cache).contents(),
            old(cache).dimension(),
            keys@,
            at@,
            vectors@,
            at@.len() as int,
        ),
{
    let ghost before = *cache;
    let n: usize = at.len();
    let mut j: usize = 0;
    while j < n
        invariant
            j <= n,
            n == at@.len(),
            n == vectors@.len(),
            forall|x: int| 0 <= x < at@.len() ==> #[trigger] at@[x] < keys@.len(),
            cache.wf(),
            cache.dimension() == before.dimension(),
            cache.quantizer_tag() == before.quantizer_tag(),
            cache.code_len() == before.code_len(),
            cache.contents() == with_vectors(
                before.contents(),
                before.dimension(),
                keys@,
                at@,
                vectors@,
                j as int,
            ),
        decreases n - j,
    {
        assert(at@[j as int] < keys@.len());
        cache.insert(keys[at[j]], vectors[j].as_slice());
        j += 1;
    }
}

/// `v` holds the cached vector in single precision.
pub open spec fn is_cached_vector(contents: Map<u64, EntryModel>, key: u64, v: Seq<u32>) -> bool {
    &&& contents.contains_key(key)
    &&& v.len() == contents[key].lanes.len()
    &&& forall|i: int|
        0 <= i < v.len() ==> embeddings::widens(
            contents[key].lanes[i] as nat,
            (#[trigger] v[i]) as nat,
        )
}

/// The cached vectors of all keys, or the first position without one.
pub fn cached_vectors(cache: &EmbedCache, keys: &[u64]) -> (r: Result<Vec<Vec<u32>>, usize>)
    requires
        cache.wf(),
    ensures
        match r {
            Ok(v) => v@.len() == keys@.len() && forall|i: int|
                0 <= i < v@.len() ==> is_cached_vector(
                    cache.contents(),
                    keys@[i],
                    (#[trigger] v@[i])@,
                ),
            Err(i) => i < keys@.len() && !cache.contents().contains_key(keys@[i as int])
                && forall|j: int|
                0 <= j < i ==> cache.contents().contains_key(#[trigger] keys@[j]),
        },
{
    let n: usize = keys.len();
    let mut out: Vec<Vec<u32>> = Vec::new();
    let mut i: usize = 0;
    while i < n
        invariant
            i <= n,
            n == keys@.len(),
            cache.wf(),
            out@.len() == i,
            forall|j: int|
                0 <= j < i ==> is_cached_vector(cache.contents(), keys@[j], (#[trigger] out@[j])@),
            forall|j: int| 0 <= j < i ==> cache.contents().contains_key(#[trigger] keys@[j]),
        decreases n - i,
    {
        match cache.get(keys[i]) {
            Some(v) => {
                out.push(v);
            },
            None => {
                return Err(i);
            },
        }
        i += 1;
    }
    Ok(out)
}

proof fn lemma_misses(contents: Map<u64, EntryModel>, keys: Seq<u64>, n: int, i: int)
    requires
        0 <= i < n <= keys.len() <= usize::MAX,
        !contents.contains_key(keys[i]),
    ensures
        exists|j: int|
            0 <= j < misses_of(contents, keys, n).len() && #[trigger] misses_of(
                contents,
                keys,
                n,
            )[j] == i,
    decreases n,
{
    let now = misses_of(contents, keys, n);
    if i == n - 1 {
        assert(now[now.len() - 1] == i);
    } else {
        lemma_misses(contents, keys, n - 1, i);
        let front = misses_of(contents, keys, n - 1);
        let j = choose|j: int| 0 <= j < front.len() && #[trigger] front[j] == i;
        assert(now[j] == front[j]);
    }
}

proof fn lemma_stored(
    contents: Map<u64, EntryModel>,
    dim: int,
    keys: Seq<u64>,
    at: Seq<usize>,
    vectors: Seq<Vec<u32>>,
    n: int,
    key: u64,
)
    requires
        0 <= n <= at.len() == vectors.len(),
        forall|j: int| 0 <= j < vectors.len() ==> (#[trigger] vectors[j])@.len() == dim,
        contents.contains_key(key) || exists|j: int|
            0 <= j < n && keys[#[trigger] at[j] as int] == key,
    ensures
        with_vectors(contents, dim, keys, at, vectors, n).contains_key(key),
    decreases n,
{
    if n > 0 {
        assert(vectors[n - 1]@.len() == dim);
        if contents.contains_key(key) || keys[at[n - 1] as int] != key {
            if !contents.contains_key(key) {
                let j = choose|j: int| 0 <= j < n && keys[#[trigger] at[j] as int] == key;
                assert(keys[at[j] as int] == key);
                assert(j < n - 1);
            }
            lemma_stored(contents, dim, keys, at, vectors, n - 1, key);
        }
    }
}

/// Once the missing chunks are encoded, every chunk has a vector: what was
/// encoded and what was served from the cache add up to the whole batch.
pub proof fn law_encoding_the_misses_is_enough(
    contents: Map<u64, EntryModel>,
    dim: int,
    keys: Seq<u64>,
    vectors: Seq<Vec<u32>>,
    i: int,
)
    requires
        keys.len() <= usize::MAX,
        0 <= i < keys.len(),
        vectors.len() == misses_of(contents, keys, keys.len() as int).len(),
        forall|j: int| 0 <= j < vectors.len() ==> (#[trigger] vectors[j])@.len() == dim,
    ensures
        with_vectors(
            contents,
            dim,
            keys,
            misses_of(contents, keys, keys.len() as int),
            vectors,
            vectors.len() as int,
        ).contains_key(keys[i]),
{
    let at = misses_of(contents, keys, keys.len() as int);
    if !contents.contains_key(keys[i]) {
        lemma_misses(contents, keys, keys.len() as int, i);
        let j = choose|j: int| 0 <= j < at.len() && #[trigger] at[j] == i;
        assert(keys[at[j] as int] == keys[i]);
    }
    lemma_stored(contents, dim, keys, at, vectors, vectors.len() as int, keys[i]);
}

// ---------------------------------------------------------------------------
// Quantizing
// ---------------------------------------------------------------------------

/// May a quantizer of `k` clusters in dimension `dim` serve `n` chunks? It
/// may unless the ideal number of clusters has moved by more than a factor
/// of two.
pub open spec fn still_fits(k: int, dim: int, n: int, ideal: int, retrain: bool) -> bool {
    &&& !retrain
    &&& dim == embeddings::CODERANK_DIM
    &&& 0 < k <= n
    &&& ideal <= 2 * k
    &&& k <= 2 * ideal
}

pub fn quantizer_fits(k: usize, dim: usize, n: usize, retrain: bool) -> (r: bool)
    ensures
        exists|ideal: usize|
            #[trigger] ivf::is_cluster_count(ideal as int, n as int) && r == still_fits(
                k as int,
                dim as int,
                n as int,
                ideal as int,
                retrain,
            ),
{
    let ideal: usize = ivf::default_num_clusters(n);
    assert(ivf::is_cluster_count(ideal as int, n as int));
    let close: bool = ideal as u128 <= 2 * (k as u128) && k as u128 <= 2 * (ideal as u128);
    !retrain && dim == embeddings::CODERANK_DIM && k > 0 && k <= n && close
}

/// How many clusters to train: as asked, or the usual number.
pub fn clusters_to_train(asked: usize, n: usize) -> (k: usize)
    ensures
        asked != 0 ==> k == asked,
        asked == 0 ==> ivf::is_cluster_count(k as int, n as int),
{
    if asked == 0 {
        ivf::default_num_clusters(n)
    } else {
        asked
    }
}

/// The chunk has no code of the current quantizer.
pub open spec fn is_fresh(contents: Map<u64, EntryModel>, key: u64) -> bool {
    !(contents.contains_key(key) && contents[key].quant is Some)
}

/// Those of the first `n` chunks that have to be quantized.
pub open spec fn fresh_of(contents: Map<u64, EntryModel>, keys: Seq<u64>, n: int) -> Seq<usize>
    decreases n,
{
    if n <= 0 {
        Seq::empty()
    } else if is_fresh(contents, keys[n - 1]) {
        fresh_of(contents, keys, n - 1).push((n - 1) as usize)
    } else {
        fresh_of(contents, keys, n - 1)
    }
}

/// Which chunks have no code of the current quantizer.
pub fn plan_quantizing(cache: &EmbedCache, keys: &[u64]) -> (fresh: Vec<usize>)
    requires
        cache.wf(),
    ensures
        fresh@ == fresh_of(cache.contents(), keys@, keys@.len() as int),
{
    let n: usize = keys.len();
    let mut fresh: Vec<usize> = Vec::new();
    let mut i: usize = 0;
    while i < n
        invariant
            i <= n,
            n == keys@.len(),
            cache.wf(),
            fresh@ == fresh_of(cache.contents(), keys@, i as int),
        decreases n - i,
    {
        if cache.get_quant(keys[i]).is_none() {
            fresh.push(i);
        }
        i += 1;
    }
    fresh
}

/// A cluster and a code for each chunk.
pub struct Quantized {
    pub assignment: Vec<u32>,
    /// The codes one after the other.
    pub codes: Vec<u8>,
}

/// How many of the first `n` chunks are fresh.
pub open spec fn fresh_before(contents: Map<u64, EntryModel>, keys: Seq<u64>, n: int) -> int {
    fresh_of(contents, keys, n).len() as int
}

/// The cluster and the code of the `i`-th chunk: the cached ones, or the
/// computed ones where it is fresh.
pub open spec fn quant_for(
    contents: Map<u64, EntryModel>,
    keys: Seq<u64>,
    computed: Seq<(u32, Vec<u8>)>,
    i: int,
) -> (u32, Seq<u8>) {
    if is_fresh(contents, keys[i]) {
        let c = computed[fresh_before(contents, keys, i)];
        (c.0, c.1@)
    } else {
        contents[keys[i]].quant->Some_0
    }
}

/// The codes of the first `n` chunks, one after the other.
pub open spec fn codes_for(
    contents: Map<u64, EntryModel>,
    keys: Seq<u64>,
    computed: Seq<(u32, Vec<u8>)>,
    n: int,
) -> Seq<u8>
    decreases n,
{
    if n <= 0 {
        Seq::empty()
    } else {
        codes_for(contents, keys, computed, n - 1) + quant_for(contents, keys, computed, n - 1).1
    }
}

/// The cache with the first `n` computed codes in it.
pub open spec fn with_codes(
    contents: Map<u64, EntryModel>,
    m: int,
    keys: Seq<u64>,
    fresh: Seq<usize>,
    computed: Seq<(u32, Vec<u8>)>,
    n: int,
) -> Map<u64, EntryModel>
    decreases n,
{
    if n <= 0 {
        contents
    } else {
        let front = with_codes(contents, m, keys, fresh, computed, n - 1);
        let key = keys[fresh[n - 1] as int];
        let c = computed[n - 1];
        if c.1@.len() == m && front.contains_key(key) {
            front.insert(
                key,
                EntryModel {
                    lanes: front[key].lanes,
                    quant: if c.0 == embcache::NO_CLUSTER {
                        None
                    } else {
                        Some((c.0, c.1@))
                    },
                },
            )
        } else {
            front
        }
    }
}

proof fn lemma_fresh_bounds(contents: Map<u64, EntryModel>, keys: Seq<u64>, n: int)
    requires
        0 <= n <= keys.len() <= usize::MAX,
    ensures
        fresh_of(contents, keys, n).len() <= n,
        forall|j: int|
            #![trigger fresh_of(contents, keys, n)[j]]
            0 <= j < fresh_of(contents, keys, n).len() ==> fresh_of(contents, keys, n)[j] < n,
    decreases n,
{
    if n > 0 {
        lemma_fresh_bounds(contents, keys, n - 1);
        let front = fresh_of(contents, keys, n - 1);
        assert forall|j: int|
            #![trigger fresh_of(contents, keys, n)[j]]
            0 <= j < fresh_of(contents, keys, n).len() implies fresh_of(contents, keys, n)[j] < n by {
            if j < front.len() {
                assert(front[j] < n - 1);
            }
        }
    }
}

proof fn lemma_fresh_monotone(contents: Map<u64, EntryModel>, keys: Seq<u64>, a: int, b: int)
    requires
        0 <= a <= b,
    ensures
        fresh_before(contents, keys, a) <= fresh_before(contents, keys, b),
    decreases b - a,
{
    if a < b {
        lemma_fresh_monotone(contents, keys, a, b - 1);
    }
}

/// Put the computed clusters and codes of the fresh chunks beside the cached
/// ones, and cache them.
pub fn quantize(cache: &mut EmbedCache, keys: &[u64], fresh: &[usize], computed: &[(u32, Vec<u8>)])
    -> (q: Quantized)
    requires
        old(cache).wf(),
        fresh@ == fresh_of(old(cache).contents(), keys@, keys@.len() as int),
        computed@.len() == fresh@.len(),
    ensures
        final(cache).wf(),
        final(cache).dimension() == old(cache).dimension(),
        final(cache).quantizer_tag() == old(cache).quantizer_tag(),
        final(cache).code_len() == old(cache).code_len(),
        q.assignment@.len() == keys@.len(),
        forall|i: int|
            0 <= i < keys@.len() ==> #[trigger] q.assignment@[i] == quant_for(
                old(cache).contents(),
                keys@,
                computed@,
                i,
            ).0,
        q.codes@ == codes_for(old(cache).contents(), keys@, computed@, keys@.len() as int),
        final(cache).contents() == with_codes(
            old(cache).contents(),
            old(cache).code_len(),
            keys@,
            fresh@,
            computed@,
            fresh@.len() as int,
        ),
{
    let ghost before = *cache;
    let ghost contents = before.contents();
    let n: usize = keys.len();
    let mut assignment: Vec<u32> = Vec::new();
    let mut codes: Vec<u8> = Vec::new();
    let mut used: usize = 0;
    let mut i: usize = 0;
    while i < n
        invariant
            i <= n,
            n == keys@.len(),
            cache.wf(),
            *cache == before,
            contents == before.contents(),
            fresh@ == fresh_of(contents, keys@, n as int),
            computed@.len() == fresh@.len(),
            used == fresh_before(contents, keys@, i as int),
            assignment@.len() == i,
            forall|j: int|
                0 <= j < i ==> #[trigger] assignment@[j] == quant_for(
                    contents,
                    keys@,
                    computed@,
                    j,
                ).0,
            codes@ == codes_for(contents, keys@, computed@, i as int),
        decreases n - i,
    {
        match cache.get_quant(keys[i]) {
            Some((cluster, code)) => {
                assignment.push(cluster);
                crate::codec::append(&mut codes, code);
            },
            None => {
                proof {
                    lemma_fresh_monotone(contents, keys@, i + 1, n as int);
                }
                assignment.push(computed[used].0);
                crate::codec::append(&mut codes, computed[used].1.as_slice());
                used += 1;
            },
        }
        i += 1;
    }
    let mut j: usize = 0;
    let total: usize = fresh.len();
    proof {
        lemma_fresh_bounds(contents, keys@, n as int);
    }
    while j < total
        invariant
            j <= total,
            total == fresh@.len(),
            n == keys@.len(),
            fresh@ == fresh_of(contents, keys@, n as int),
            forall|x: int|
                #![trigger fresh@[x]]
                0 <= x < fresh@.len() ==> fresh@[x] < n,
            computed@.len() == fresh@.len(),
            contents == before.contents(),
            cache.wf(),
            cache.dimension() == before.dimension(),
            cache.quantizer_tag() == before.quantizer_tag(),
            cache.code_len() == before.code_len(),
            cache.contents() == with_codes(
                contents,
                before.code_len(),
                keys@,
                fresh@,
                computed@,
                j as int,
            ),
        decreases total - j,
    {
        assert(fresh@[j as int] < n);
        cache.set_quant(keys[fresh[j]], computed[j].0, computed[j].1.as_slice());
        j += 1;
    }
    Quantized { assignment, codes }
}

/// The cache with the clusters and codes of the first `n` documents in it.
pub open spec fn seeded(
    contents: Map<u64, EntryModel>,
    m: int,
    keys: Seq<u64>,
    clusters: IvfIndex,
    codes: PqIndex,
    n: int,
) -> Map<u64, EntryModel>
    decreases n,
{
    if n <= 0 {
        contents
    } else {
        let front = seeded(contents, m, keys, clusters, codes, n - 1);
        let key = keys[n - 1];
        let cluster = if n - 1 < clusters.num_docs {
            clusters.assignment@[n - 1]
        } else {
            0
        };
        let code = codes.code(n - 1);
        if code.len() == m && front.contains_key(key) {
            front.insert(
                key,
                EntryModel {
                    lanes: front[key].lanes,
                    quant: if cluster == embcache::NO_CLUSTER {
                        None
                    } else {
                        Some((cluster, code))
                    },
                },
            )
        } else {
            front
        }
    }
}

/// After training, remember what the new quantizer makes of each document, so
/// that the next rebuild finds it in the cache.
pub fn seed_quantizer(
    cache: &mut EmbedCache,
    id: u64,
    m: usize,
    keys: &[u64],
    clusters: &IvfIndex,
    codes: &PqIndex,
)
    requires
        old(cache).wf(),
        clusters.wf(),
        codes.wf(),
        keys@.len() <= u32::MAX,
    ensures
        final(cache).wf(),
        final(cache).dimension() == old(cache).dimension(),
        final(cache).quantizer_tag() == id,
        final(cache).code_len() == m,
        final(cache).contents() == seeded(
            if old(cache).quantizer_tag() == id && old(cache).code_len() == m {
                old(cache).contents()
            } else {
                embcache::without_quant(old(cache).contents())
            },
            m as int,
            keys@,
            *clusters,
            *codes,
            keys@.len() as int,
        ),
{
    cache.set_quantizer(id, m);
    let ghost start = *cache;
    let n: usize = keys.len();
    let mut d: usize = 0;
    while d < n
        invariant
            d <= n,
            n == keys@.len(),
            n <= u32::MAX,
            clusters.wf(),
            codes.wf(),
            cache.wf(),
            cache.dimension() == start.dimension(),
            cache.quantizer_tag() == id,
            cache.code_len() == m,
            cache.contents() == seeded(
                start.contents(),
                m as int,
                keys@,
                *clusters,
                *codes,
                d as int,
            ),
        decreases n - d,
    {
        let cluster: u32 = clusters.cluster_of(d as u32);
        let code = codes.codes_of(d as u32);
        cache.set_quant(keys[d], cluster, code);
        d += 1;
    }
}

// ---------------------------------------------------------------------------
// Merging
// ---------------------------------------------------------------------------

/// The ids and keys of the live ones among the first `d` documents.
pub open spec fn pairs_in(seg: Segment, keys: Seq<u64>, d: int) -> Seq<(Seq<char>, u64)>
    decreases d,
{
    if d <= 0 {
        Seq::empty()
    } else if !segments::bit(seg.deleted@, d - 1) && d - 1 < keys.len() {
        pairs_in(seg, keys, d - 1).push((seg.index.docs@[d - 1].external_id@, keys[d - 1]))
    } else {
        pairs_in(seg, keys, d - 1)
    }
}

/// The ids and keys of the live documents of the first `n` segments.
pub open spec fn pairs_of(segs: Seq<Segment>, keys: Seq<Vec<u64>>, n: int) -> Seq<(Seq<char>, u64)>
    decreases n,
{
    if n <= 0 {
        Seq::empty()
    } else {
        pairs_of(segs, keys, n - 1) + pairs_in(
            segs[n - 1],
            keys[n - 1]@,
            segs[n - 1].index.docs@.len() as int,
        )
    }
}

/// The key under which the document `id` is cached: the last one listed.
pub open spec fn key_among(pairs: Seq<(Seq<char>, u64)>, id: Seq<char>) -> Option<u64>
    decreases pairs.len(),
{
    if pairs.len() == 0 {
        None
    } else if pairs.last().0 == id {
        Some(pairs.last().1)
    } else {
        key_among(pairs.drop_last(), id)
    }
}

/// Why a merge left a segment without vectors.
pub enum MergeError {
    /// The index does not consist of one segment afterwards.
    SegmentsLeft(usize),
    /// This document of the merged segment has no known key.
    NoKey(usize),
}

/// The ids and keys, in two lists.
pub open spec fn listed(ids: Seq<String>, keys: Seq<u64>, pairs: Seq<(Seq<char>, u64)>) -> bool {
    &&& ids.len() == pairs.len()
    &&& keys.len() == pairs.len()
    &&& forall|i: int|
        0 <= i < pairs.len() ==> #[trigger] pairs[i] == (ids[i]@, keys[i])
}

fn list_live(index: &SegmentedIndex, keys: &Vec<Vec<u64>>) -> (r: (Vec<String>, Vec<u64>))
    requires
        index.wf(),
        keys@.len() == index.segments@.len(),
    ensures
        listed(r.0@, r.1@, pairs_of(index.segments@, keys@, keys@.len() as int)),
{
    let mut ids: Vec<String> = Vec::new();
    let mut found: Vec<u64> = Vec::new();
    let n: usize = keys.len();
    let mut si: usize = 0;
    while si < n
        invariant
            si <= n,
            n == keys@.len(),
            index.wf(),
            keys@.len() == index.segments@.len(),
            listed(ids@, found@, pairs_of(index.segments@, keys@, si as int)),
        decreases n - si,
    {
        let ghost seg = index.segments@[si as int];
        assert(seg.wf(index.title_weight as nat));
        let ghost head = pairs_of(index.segments@, keys@, si as int);
        let count: usize = index.num_docs_in(si);
        let here: usize = keys[si].len();
        let mut d: usize = 0;
        assert(head + pairs_in(seg, keys@[si as int]@, 0) =~= head);
        while d < count
            invariant
                d <= count,
                si < n,
                n == keys@.len(),
                index.wf(),
                keys@.len() == index.segments@.len(),
                seg == index.segments@[si as int],
                seg.wf(index.title_weight as nat),
                count == seg.index.docs@.len(),
                here == keys@[si as int]@.len(),
                listed(ids@, found@, head + pairs_in(seg, keys@[si as int]@, d as int)),
            decreases count - d,
        {
            let ghost now = pairs_in(seg, keys@[si as int]@, d as int);
            if d < here && index.is_live(si, d as u32) {
                let summary = index.doc_summary_in(si, d as u32);
                let key: u64 = keys[si][d];
                ids.push(summary.id);
                found.push(key);
                proof {
                    let next = now.push((seg.index.docs@[d as int].external_id@, key));
                    assert(pairs_in(seg, keys@[si as int]@, d + 1) =~= next);
                    assert(head + next =~= (head + now).push(next.last()));
                }
            }
            d += 1;
        }
        si += 1;
    }
    (ids, found)
}

proof fn lemma_key_among(names: Seq<Seq<char>>, pairs: Seq<(Seq<char>, u64)>, id: Seq<char>, n: int)
    requires
        0 <= n <= pairs.len() == names.len(),
        forall|i: int| 0 <= i < pairs.len() ==> (#[trigger] pairs[i]).0 == names[i],
    ensures
        key_among(pairs.take(n), id) == match lookup::last_of(names, id, n) {
            Some(i) => Some(pairs[i].1),
            None => None,
        },
    decreases n,
{
    if n > 0 {
        lemma_key_among(names, pairs, id, n - 1);
        assert(pairs.take(n).drop_last() =~= pairs.take(n - 1));
        assert(pairs.take(n).last() == pairs[n - 1]);
        assert(pairs[n - 1].0 == names[n - 1]);
    }
}

/// The documents of the merged segment, `seg`, have these keys.
pub open spec fn keys_carried(
    seg: Segment,
    pairs: Seq<(Seq<char>, u64)>,
    keys: Seq<u64>,
    n: int,
) -> bool {
    forall|d: int|
        #![trigger seg.index.docs@[d]]
        0 <= d < n ==> key_among(pairs, seg.index.docs@[d].external_id@) == Some(keys[d])
}

/// Merge all segments into one, and find for each document of the merged
/// segment the cache key that it had before. `keys` are the key files of the
/// segments.
pub fn merge_segments(index: &mut SegmentedIndex, keys: &Vec<Vec<u64>>) -> (r: Result<
    Vec<u64>,
    MergeError,
>)
    requires
        old(index).wf(),
        keys@.len() == old(index).segments@.len(),
        old(index).next_segment < u64::MAX,
        segments::all_names(old(index).segments@, old(index).segments@.len() as int).len()
            <= u32::MAX,
    ensures
        final(index).wf(),
        !segments::wants_merge(old(index).segments@) ==> *final(index) == *old(index),
        segments::wants_merge(old(index).segments@) ==> {
            &&& final(index).segments@.len() == 1
            &&& segments::compacts(final(index).segments@[0], old(index).segments@)
            &&& final(index).next_segment == old(index).next_segment + 1
        },
        ({
            let pairs = pairs_of(old(index).segments@, keys@, keys@.len() as int);
            let segs = final(index).segments@;
            match r {
                Ok(k) => {
                    &&& segs.len() == 1
                    &&& k@.len() == segs[0].index.docs@.len()
                    &&& keys_carried(segs[0], pairs, k@, k@.len() as int)
                },
                Err(MergeError::SegmentsLeft(n)) => n == segs.len() && n != 1,
                Err(MergeError::NoKey(d)) => {
                    &&& segs.len() == 1
                    &&& d < segs[0].index.docs@.len()
                    &&& key_among(pairs, segs[0].index.docs@[d as int].external_id@) is None
                },
            }
        }),
{
    let ghost before = *index;
    let ghost pairs = pairs_of(index.segments@, keys@, keys@.len() as int);
    let (ids, found) = list_live(index, keys);
    let ghost names = interner::name_views(ids@);
    let known = Lookup::new(ids);
    index.merge_all();
    let ghost after = *index;
    let left: usize = index.num_segments();
    if left != 1 {
        return Err(MergeError::SegmentsLeft(left));
    }
    let ghost seg = index.segments@[0];
    assert(seg.wf(index.title_weight as nat));
    let n: usize = index.num_docs_in(0);
    let mut out: Vec<u64> = Vec::new();
    let mut d: usize = 0;
    while d < n
        invariant
            d <= n,
            index.wf(),
            *index == after,
            before == *old(index),
            !segments::wants_merge(before.segments@) ==> after == before,
            segments::wants_merge(before.segments@) ==> {
                &&& after.segments@.len() == 1
                &&& segments::compacts(after.segments@[0], before.segments@)
                &&& after.next_segment == before.next_segment + 1
            },
            pairs == pairs_of(before.segments@, keys@, keys@.len() as int),
            index.segments@.len() == 1,
            seg == index.segments@[0],
            seg.wf(index.title_weight as nat),
            n == seg.index.docs@.len(),
            known.wf(),
            known@ == names,
            names.len() == pairs.len(),
            found@.len() == pairs.len(),
            forall|i: int|
                0 <= i < pairs.len() ==> (#[trigger] pairs[i]).0 == names[i] && pairs[i].1
                    == found@[i],
            out@.len() == d,
            keys_carried(seg, pairs, out@, d as int),
        decreases n - d,
    {
        let summary = index.doc_summary_in(0, d as u32);
        let ghost id = seg.index.docs@[d as int].external_id@;
        proof {
            lemma_key_among(names, pairs, id, pairs.len() as int);
            assert(pairs.take(pairs.len() as int) =~= pairs);
        }
        match known.find(summary.id.as_str()) {
            Some(i) => {
                let ghost earlier = out@;
                out.push(found[i]);
                assert(pairs[i as int].1 == found@[i as int]);
                assert forall|x: int|
                    #![trigger seg.index.docs@[x]]
                    0 <= x < d + 1 implies key_among(pairs, seg.index.docs@[x].external_id@)
                    == Some(out@[x]) by {
                    if x < d {
                        assert(out@[x] == earlier[x]);
                    }
                }
            },
            None => {
                return Err(MergeError::NoKey(d));
            },
        }
        d += 1;
    }
    Ok(out)
}

proof fn lemma_misses_listed(contents: Map<u64, EntryModel>, keys: Seq<u64>, n: int, i: usize)
    requires
        0 <= n <= keys.len() <= usize::MAX,
    ensures
        misses_of(contents, keys, n).contains(i) <==> i < n && !contents.contains_key(
            keys[i as int],
        ),
        forall|a: int| 0 <= a < misses_of(contents, keys, n).len() ==> (#[trigger] misses_of(
            contents,
            keys,
            n,
        )[a]) < n,
        forall|a: int, b: int|
            0 <= a < b < misses_of(contents, keys, n).len() ==> #[trigger] misses_of(
                contents,
                keys,
                n,
            )[a] < #[trigger] misses_of(contents, keys, n)[b],
    decreases n,
{
    if n > 0 {
        lemma_misses_listed(contents, keys, n - 1, i);
        let front = misses_of(contents, keys, n - 1);
        let all = misses_of(contents, keys, n);
        if front.contains(i) {
            let q = choose|q: int| 0 <= q < front.len() && front[q] == i;
            assert(all[q] == i);
        }
        if all.contains(i) {
            let q = choose|q: int| 0 <= q < all.len() && all[q] == i;
            if q < front.len() {
                assert(front[q] == i);
            }
        }
        if i == n - 1 && !contents.contains_key(keys[n - 1]) {
            assert(all[front.len() as int] == i);
        }
    }
}

/// A text is encoded exactly if the cache lacks its key, and the texts are
/// encoded in their order.
pub proof fn law_only_misses_are_encoded(contents: Map<u64, EntryModel>, keys: Seq<u64>, i: usize)
    requires
        i < keys.len() <= usize::MAX,
    ensures
        ({
            let misses = misses_of(contents, keys, keys.len() as int);
            &&& misses.contains(i) <==> !contents.contains_key(keys[i as int])
            &&& forall|a: int, b: int|
                0 <= a < b < misses.len() ==> #[trigger] misses[a] < #[trigger] misses[b]
        }),
{
    lemma_misses_listed(contents, keys, keys.len() as int, i);
}

proof fn lemma_fresh(contents: Map<u64, EntryModel>, keys: Seq<u64>, n: int, i: usize)
    requires
        0 <= n <= keys.len() <= usize::MAX,
    ensures
        fresh_of(contents, keys, n).contains(i) <==> i < n && is_fresh(contents, keys[i as int]),
        forall|a: int| 0 <= a < fresh_of(contents, keys, n).len() ==> (#[trigger] fresh_of(
            contents,
            keys,
            n,
        )[a]) < n,
        forall|a: int, b: int|
            0 <= a < b < fresh_of(contents, keys, n).len() ==> #[trigger] fresh_of(
                contents,
                keys,
                n,
            )[a] < #[trigger] fresh_of(contents, keys, n)[b],
    decreases n,
{
    if n > 0 {
        lemma_fresh(contents, keys, n - 1, i);
        let front = fresh_of(contents, keys, n - 1);
        let all = fresh_of(contents, keys, n);
        if front.contains(i) {
            let q = choose|q: int| 0 <= q < front.len() && front[q] == i;
            assert(all[q] == i);
        }
        if all.contains(i) {
            let q = choose|q: int| 0 <= q < all.len() && all[q] == i;
            if q < front.len() {
                assert(front[q] == i);
            }
        }
        if i == n - 1 && is_fresh(contents, keys[n - 1]) {
            assert(all[front.len() as int] == i);
        }
    }
}

/// A chunk is quantized exactly if the cache has no code of it, in the order of
/// the chunks.
pub proof fn law_only_fresh_chunks_are_quantized(
    contents: Map<u64, EntryModel>,
    keys: Seq<u64>,
    i: usize,
)
    requires
        i < keys.len() <= usize::MAX,
    ensures
        ({
            let fresh = fresh_of(contents, keys, keys.len() as int);
            &&& fresh.contains(i) <==> !(contents.contains_key(keys[i as int])
                && contents[keys[i as int]].quant is Some)
            &&& forall|a: int, b: int|
                0 <= a < b < fresh.len() ==> #[trigger] fresh[a] < #[trigger] fresh[b]
        }),
{
    lemma_fresh(contents, keys, keys.len() as int, i);
}

/// Of several pairs with one id the last one counts.
pub proof fn law_newest_key_counts(pairs: Seq<(Seq<char>, u64)>, id: Seq<char>, i: int)
    ensures
        0 <= i < pairs.len() && pairs[i].0 == id && (forall|j: int|
            i < j < pairs.len() ==> (#[trigger] pairs[j]).0 != id) ==> key_among(pairs, id) == Some(
            pairs[i].1,
        ),
        (forall|j: int| 0 <= j < pairs.len() ==> (#[trigger] pairs[j]).0 != id) ==> key_among(
            pairs,
            id,
        ) is None,
    decreases pairs.len(),
{
    if pairs.len() > 0 {
        let front = pairs.drop_last();
        law_newest_key_counts(front, id, i);
        assert(pairs[pairs.len() - 1] == pairs.last());
        assert forall|j: int| 0 <= j < front.len() implies #[trigger] front[j] == pairs[j] by {}
    }
}

/// The keys that a merge carries over are those of documents that are not
/// tombstoned.
pub proof fn law_carried_keys(seg: Segment, keys: Seq<u64>, n: int, id: Seq<char>, key: u64)
    requires
        0 <= n <= seg.index.docs@.len(),
    ensures
        pairs_in(seg, keys, n).contains((id, key)) <==> exists|d: int|
            {
                &&& 0 <= d < n
                &&& d < keys.len()
                &&& (#[trigger] seg.index.docs@[d]).external_id@ == id
                &&& keys[d] == key
                &&& !segments::bit(seg.deleted@, d)
            },
    decreases n,
{
    if n > 0 {
        law_carried_keys(seg, keys, n - 1, id, key);
        let front = pairs_in(seg, keys, n - 1);
        let all = pairs_in(seg, keys, n);
        if front.contains((id, key)) {
            let i = choose|i: int| 0 <= i < front.len() && front[i] == (id, key);
            assert(all[i] == front[i]);
        }
        if all.contains((id, key)) && !front.contains((id, key)) {
            let i = choose|i: int| 0 <= i < all.len() && all[i] == (id, key);
            if i < front.len() {
                assert(front[i] == (id, key));
            }
            assert(seg.index.docs@[n - 1].external_id@ == id);
        }
        if seg.index.docs@[n - 1].external_id@ == id && n - 1 < keys.len() && keys[n - 1] == key
            && !segments::bit(seg.deleted@, n - 1) {
            assert(all[front.len() as int] == (id, key));
        }
    }
}

/// Encoding fills the cache under the keys of the texts that were missing, and
/// leaves every other entry as it is.
pub proof fn law_encoded_texts_are_cached(
    contents: Map<u64, EntryModel>,
    dim: int,
    keys: Seq<u64>,
    at: Seq<usize>,
    vectors: Seq<Vec<u32>>,
    n: int,
    key: u64,
    j: int,
)
    requires
        0 <= n <= vectors.len(),
        n <= at.len(),
        forall|i: int| 0 <= i < vectors.len() ==> (#[trigger] vectors[i])@.len() == dim,
    ensures
        (forall|i: int| 0 <= i < n ==> keys[(#[trigger] at[i]) as int] != key) ==> (with_vectors(
            contents,
            dim,
            keys,
            at,
            vectors,
            n,
        ).contains_key(key) <==> contents.contains_key(key)) && with_vectors(
            contents,
            dim,
            keys,
            at,
            vectors,
            n,
        )[key] == contents[key],
        0 <= j < n && keys[at[j] as int] == key && (forall|i: int|
            j < i < n ==> keys[(#[trigger] at[i]) as int] != key) ==> {
            let after = with_vectors(contents, dim, keys, at, vectors, n);
            &&& after.contains_key(key)
            &&& after[key].lanes == embcache::halves_of(vectors[j]@)
            &&& after[key].quant is None
        },
    decreases n,
{
    if n > 0 {
        law_encoded_texts_are_cached(contents, dim, keys, at, vectors, n - 1, key, j);
        assert(vectors[n - 1]@.len() == dim);
    }
}

/// A quantizer is kept while it has no fewer than half and no more than twice the
/// clusters that the documents would get anew, unless retraining is asked for.
pub proof fn law_quantizer_is_kept(k: int, dim: int, n: int, ideal: int, retrain: bool)
    ensures
        retrain ==> !still_fits(k, dim, n, ideal, retrain),
        k > n || k <= 0 || dim != 768 ==> !still_fits(k, dim, n, ideal, retrain),
        !retrain && dim == 768 && 0 < k <= n ==> (still_fits(k, dim, n, ideal, retrain) <==> 2 * k
            >= ideal && 2 * ideal >= k),
{
}

} // verus!
