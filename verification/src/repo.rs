//! Source-tree ingestion: which files are indexed, and the documents that
//! their chunks become.

use crate::chunk;
use crate::chunk::Chunk;
use crate::codec;
use crate::hash;
use crate::hash::Fnv1a;
use crate::ignore;
use crate::ignore::IgnoreSet;
use crate::indexer::InputDoc;
use crate::order;
use crate::text;
use std::collections::HashMap;
use vstd::prelude::*;
use vstd::slice::slice_subrange;
use vstd::utf8::encode_utf8;

verus! {

/// Files larger than this are skipped.
pub const MAX_FILE_BYTES: u64 = 0x10_0000;

/// Extensions of the files worth indexing.
pub open spec fn source_ext(e: Seq<char>) -> bool {
    ||| e == "rs"@
    ||| e == "py"@
    ||| e == "js"@
    ||| e == "jsx"@
    ||| e == "ts"@
    ||| e == "tsx"@
    ||| e == "mjs"@
    ||| e == "cjs"@
    ||| e == "go"@
    ||| e == "java"@
    ||| e == "kt"@
    ||| e == "kts"@
    ||| e == "rb"@
    ||| e == "c"@
    ||| e == "h"@
    ||| e == "cpp"@
    ||| e == "cc"@
    ||| e == "cxx"@
    ||| e == "hpp"@
    ||| e == "hh"@
    ||| e == "cs"@
    ||| e == "swift"@
    ||| e == "scala"@
    ||| e == "php"@
    ||| e == "sh"@
    ||| e == "bash"@
    ||| e == "zsh"@
    ||| e == "sql"@
    ||| e == "lua"@
    ||| e == "ml"@
    ||| e == "hs"@
    ||| e == "ex"@
    ||| e == "exs"@
    ||| e == "erl"@
    ||| e == "clj"@
    ||| e == "vue"@
    ||| e == "svelte"@
    ||| e == "proto"@
    ||| e == "tf"@
    ||| e == "md"@
    ||| e == "toml"@
    ||| e == "yaml"@
    ||| e == "yml"@
}

fn is_source_ext(e: &[char]) -> (r: bool)
    ensures
        r == source_ext(e@),
{
    text::is(e, "rs") || text::is(e, "py") || text::is(e, "js") || text::is(e, "jsx") || text::is(
        e,
        "ts",
    ) || text::is(e, "tsx") || text::is(e, "mjs") || text::is(e, "cjs") || text::is(e, "go")
        || text::is(e, "java") || text::is(e, "kt") || text::is(e, "kts") || text::is(e, "rb")
        || text::is(e, "c") || text::is(e, "h") || text::is(e, "cpp") || text::is(e, "cc")
        || text::is(e, "cxx") || text::is(e, "hpp") || text::is(e, "hh") || text::is(e, "cs")
        || text::is(e, "swift") || text::is(e, "scala") || text::is(e, "php") || text::is(e, "sh")
        || text::is(e, "bash") || text::is(e, "zsh") || text::is(e, "sql") || text::is(e, "lua")
        || text::is(e, "ml") || text::is(e, "hs") || text::is(e, "ex") || text::is(e, "exs")
        || text::is(e, "erl") || text::is(e, "clj") || text::is(e, "vue") || text::is(e, "svelte")
        || text::is(e, "proto") || text::is(e, "tf") || text::is(e, "md") || text::is(e, "toml")
        || text::is(e, "yaml") || text::is(e, "yml")
}

/// Directories never worth walking, even when not ignored.
pub open spec fn skipped_dir(name: Seq<char>) -> bool {
    ||| name == ".git"@
    ||| name == ".hg"@
    ||| name == ".svn"@
    ||| name == ".csearch"@
    ||| name == "node_modules"@
    ||| name == "target"@
    ||| name == "dist"@
    ||| name == "build"@
    ||| name == "vendor"@
    ||| name == "__pycache__"@
    ||| name == ".venv"@
    ||| name == "venv"@
    ||| name == ".mypy_cache"@
    ||| name == ".pytest_cache"@
    ||| name == ".next"@
    ||| name == ".nuxt"@
}

fn is_skipped_dir(name: &[char]) -> (r: bool)
    ensures
        r == skipped_dir(name@),
{
    text::is(name, ".git") || text::is(name, ".hg") || text::is(name, ".svn") || text::is(
        name,
        ".csearch",
    ) || text::is(name, "node_modules") || text::is(name, "target") || text::is(name, "dist")
        || text::is(name, "build") || text::is(name, "vendor") || text::is(name, "__pycache__")
        || text::is(name, ".venv") || text::is(name, "venv") || text::is(name, ".mypy_cache")
        || text::is(name, ".pytest_cache") || text::is(name, ".next") || text::is(name, ".nuxt")
}

/// The name has an extension of source files: what follows its last dot.
pub open spec fn source_name(name: Seq<char>) -> bool {
    exists|d: int| #[trigger] text::last_at(name, '.', d) && source_ext(name.skip(d + 1))
}

/// Is this the name of a source file?
pub fn is_source(name: &str) -> (r: bool)
    ensures
        r == source_name(name@),
{
    let s = text::chars_of(name);
    match text::rfind(s.as_slice(), '.') {
        Some(d) => {
            let n: usize = s.len();
            let ext: &[char] = slice_subrange(s.as_slice(), d + 1, n);
            assert(ext@ =~= name@.skip(d + 1));
            let r: bool = is_source_ext(ext);
            proof {
                assert(text::last_at(name@, '.', d as int));
                if source_name(name@) {
                    let e = choose|e: int|
                        #[trigger] text::last_at(name@, '.', e) && source_ext(name@.skip(e + 1));
                    assert(e == d) by {
                        if e < d {
                            assert(name@[d as int] != '.');
                        }
                        if d < e {
                            assert(name@[e] != '.');
                        }
                    }
                }
            }
            r
        },
        None => false,
    }
}

/// What a directory entry is.
#[derive(Clone, Copy, PartialEq, Eq, Structural, Debug)]
pub enum EntryKind {
    Symlink,
    Dir,
    File,
    Other,
}

/// What the walk does with an entry.
#[derive(Clone, Copy, PartialEq, Eq, Structural, Debug)]
pub enum Visit {
    Skip,
    Descend,
    Index,
}

/// The path of `name` in the directory `prefix`.
pub open spec fn child_path(prefix: Seq<char>, name: Seq<char>) -> Seq<char> {
    if prefix.len() == 0 {
        name
    } else {
        prefix + seq!['/'] + name
    }
}

/// Symlinks are not followed, as they can leave the tree or form cycles.
pub open spec fn visit_of(
    layers: Seq<ignore::LayerModel>,
    prefix: Seq<char>,
    name: Seq<char>,
    kind: EntryKind,
) -> Visit {
    let rel = child_path(prefix, name);
    match kind {
        EntryKind::Dir => if skipped_dir(name) || ignore::layered(layers, rel, true) {
            Visit::Skip
        } else {
            Visit::Descend
        },
        EntryKind::File => if !source_name(name) || ignore::layered(layers, rel, false) {
            Visit::Skip
        } else {
            Visit::Index
        },
        _ => Visit::Skip,
    }
}

/// The path of a directory entry, and what to do with it.
pub fn visit(ignores: &IgnoreSet, prefix: &str, name: &str, kind: EntryKind) -> (r: (String, Visit))
    ensures
        r.0@ == child_path(prefix@, name@),
        r.1 == visit_of(ignores@, prefix@, name@, kind),
{
    let base = text::chars_of(name);
    let mut out = text::chars_of(prefix);
    if out.len() > 0 {
        out.push('/');
    }
    text::append(&mut out, base.as_slice());
    assert(out@ =~= child_path(prefix@, name@));
    let rel = text::string_of(out.as_slice());
    let what = match kind {
        EntryKind::Dir => if is_skipped_dir(base.as_slice()) || ignores.is_ignored(
            rel.as_str(),
            true,
        ) {
            Visit::Skip
        } else {
            Visit::Descend
        },
        EntryKind::File => if !is_source(name) || ignores.is_ignored(rel.as_str(), false) {
            Visit::Skip
        } else {
            Visit::Index
        },
        _ => Visit::Skip,
    };
    (rel, what)
}

/// Is a file of this many bytes indexed?
pub fn indexable_len(len: u64) -> (r: bool)
    ensures
        r <==> 0 < len <= MAX_FILE_BYTES,
{
    len > 0 && len <= MAX_FILE_BYTES
}

/// A source file found in the tree.
pub struct SourceFile {
    pub rel: String,
    pub len: u64,
    /// Modification time in nanoseconds since the epoch, 0 if unavailable.
    pub mtime_ns: u128,
}

/// What a file contributes to the fingerprint of its tree.
pub open spec fn file_stamp(f: SourceFile) -> Seq<u8> {
    encode_utf8(f.rel@) + codec::le_bytes(f.len as nat, 8) + codec::le_bytes(f.mtime_ns as nat, 16)
        + seq![0xFEu8]
}

pub open spec fn tree_stamp(files: Seq<SourceFile>) -> Seq<u8>
    decreases files.len(),
{
    if files.len() == 0 {
        Seq::empty()
    } else {
        tree_stamp(files.drop_last()) + file_stamp(files.last())
    }
}

/// Order-sensitive fingerprint of a walked file list: a file added, removed,
/// renamed, resized or touched changes what is hashed.
pub fn fingerprint(files: &[SourceFile]) -> (h: u64)
    ensures
        h == hash::fnv1a_spec(tree_stamp(files@)),
{
    let mut h = Fnv1a::new();
    let mut i: usize = 0;
    assert(files@.take(0) =~= Seq::<SourceFile>::empty());
    while i < files.len()
        invariant
            i <= files@.len(),
            h.0 == hash::fnv1a_spec(tree_stamp(files@.take(i as int))),
        decreases files@.len() - i,
    {
        let f = &files[i];
        let mut stamp: Vec<u8> = Vec::new();
        codec::append(&mut stamp, f.rel.as_str().as_bytes());
        codec::push_le(&mut stamp, f.len, 8);
        codec::push_le_wide(&mut stamp, f.mtime_ns);
        stamp.push(0xFE);
        proof {
            assert(stamp@ =~= file_stamp(*f));
            assert(files@.take(i + 1).drop_last() =~= files@.take(i as int));
            assert(files@.take(i + 1).last() == *f);
            hash::law_fold_concat(
                hash::OFFSET_BASIS,
                tree_stamp(files@.take(i as int)),
                stamp@,
            );
        }
        h.write(stamp.as_slice());
        i += 1;
    }
    assert(files@.take(i as int) =~= files@);
    h.finish()
}

/// `a` does not come after `b`.
pub open spec fn path_le(a: SourceFile, b: SourceFile) -> bool {
    !order::lex_less(b.rel@, a.rel@)
}

/// The files ascend by path.
pub open spec fn by_path(files: Seq<SourceFile>) -> bool {
    forall|i: int, j: int|
        0 <= i < j < files.len() ==> path_le(#[trigger] files[i], #[trigger] files[j])
}

/// The files in the order of their paths.
pub fn sort_files(files: Vec<SourceFile>) -> (out: Vec<SourceFile>)
    ensures
        out@.to_multiset() == files@.to_multiset(),
        by_path(out@),
{
    let n: usize = files.len();
    let mut names: Vec<Vec<char>> = Vec::new();
    let mut i: usize = 0;
    while i < n
        invariant
            i <= n,
            n == files@.len(),
            names@.len() == i,
            forall|j: int| 0 <= j < i ==> (#[trigger] names@[j])@ == files@[j].rel@,
        decreases n - i,
    {
        names.push(text::chars_of(files[i].rel.as_str()));
        i += 1;
    }
    let by_name = order::order_by_text(&names);
    let ghost start = files@;
    let ghost texts = text::views(names@);
    proof {
        assert(texts.len() == n);
        order::lemma_text_less_total(texts);
        order::lemma_increasing_distinct(by_name@, n as int, order::text_less(texts));
        order::lemma_rearranged(start, by_name@);
    }
    let out = order::permute(files, &by_name);
    assert forall|a: int, b: int| 0 <= a < b < out@.len() implies path_le(
        #[trigger] out@[a],
        #[trigger] out@[b],
    ) by {
        let x = by_name@[a] as int;
        let y = by_name@[b] as int;
        assert(order::text_less(texts)(x, y));
        assert(texts[x] == start[x].rel@ && texts[y] == start[y].rel@);
        if order::lex_less(texts[y], texts[x]) {
            if order::lex_less(texts[x], texts[y]) {
                order::lemma_lex_transitive(texts[x], texts[y], texts[x]);
                order::lemma_lex_irreflexive(texts[x]);
            } else {
                order::lemma_lex_irreflexive(texts[x]);
            }
        }
    }
    out
}

/// No two files have the same path.
pub open spec fn distinct_paths(files: Seq<SourceFile>) -> bool {
    forall|i: int, j: int|
        0 <= i < j < files.len() ==> (#[trigger] files[i]).rel@ != (#[trigger] files[j]).rel@
}

/// The same tree always has the same fingerprint: in whatever order its
/// files are found, they are hashed in the same order.
pub proof fn law_same_tree_same_fingerprint(a: Seq<SourceFile>, b: Seq<SourceFile>)
    requires
        a.to_multiset() == b.to_multiset(),
        distinct_paths(a),
        by_path(a),
        by_path(b),
    ensures
        a == b,
        tree_stamp(a) == tree_stamp(b),
    decreases a.len(),
{
    broadcast use vstd::seq_lib::group_to_multiset_ensures;

    assert(a.to_multiset().len() == a.len());
    assert(b.to_multiset().len() == b.len());
    if a.len() == 0 {
        assert(a =~= b);
    } else {
        let x = a.last();
        let y = b.last();
        assert(a.to_multiset().contains(x));
        assert(b.to_multiset().contains(y));
        assert(b.contains(x));
        assert(a.contains(y));
        let i = choose|i: int| 0 <= i < b.len() && b[i] == x;
        let j = choose|j: int| 0 <= j < a.len() && a[j] == y;
        let n = a.len() - 1;
        if j < n {
            assert(path_le(a[j], a[n]));
            if i < n {
                assert(path_le(b[i], b[n]));
            }
            order::lemma_lex_total(x.rel@, y.rel@);
            assert(a[j].rel@ != a[n].rel@);
        }
        assert(x == y);
        let fa = a.drop_last();
        let fb = b.drop_last();
        assert(fa =~= a.remove(n));
        assert(fb =~= b.remove(n));
        assert(fa.to_multiset() =~= a.to_multiset().remove(x));
        assert(fb.to_multiset() =~= b.to_multiset().remove(y));
        law_same_tree_same_fingerprint(fa, fb);
        assert(a =~= fa.push(x));
        assert(b =~= fb.push(y));
    }
}

// ---------------------------------------------------------------------------
// Documents
// ---------------------------------------------------------------------------

/// The id of a chunk.
pub open spec fn chunk_id(c: chunk::ChunkModel) -> Seq<char> {
    chunk::id_text(c.path, c.start_line, c.end_line)
}

/// How many of the first `n` chunks have the id `id`.
pub open spec fn id_count(chunks: Seq<chunk::ChunkModel>, id: Seq<char>, n: int) -> nat
    decreases n,
{
    if n <= 0 {
        0
    } else if chunk_id(chunks[n - 1]) == id {
        id_count(chunks, id, n - 1) + 1
    } else {
        id_count(chunks, id, n - 1)
    }
}

/// The id of the `i`th document: the chunk's id, numbered from the second
/// chunk with the same id on.
pub open spec fn doc_id_text(chunks: Seq<chunk::ChunkModel>, i: int) -> Seq<char> {
    let id = chunk_id(chunks[i]);
    let n = id_count(chunks, id, i);
    if n == 0 {
        id
    } else {
        id + seq!['#'] + text::decimal(n)
    }
}

/// The positions below `n` whose chunks' ids have the hash `h`, in order.
spec fn bucket_of(chunks: Seq<chunk::ChunkModel>, h: u64, n: int) -> Seq<usize>
    decreases n,
{
    if n <= 0 {
        Seq::empty()
    } else if hash::fnv1a_spec(encode_utf8(chunk_id(chunks[n - 1]))) == h {
        bucket_of(chunks, h, n - 1).push((n - 1) as usize)
    } else {
        bucket_of(chunks, h, n - 1)
    }
}

/// How many of the chunks at `bucket` have the id `id`.
spec fn hits_in(chunks: Seq<chunk::ChunkModel>, bucket: Seq<usize>, id: Seq<char>) -> nat
    decreases bucket.len(),
{
    if bucket.len() == 0 {
        0
    } else if chunk_id(chunks[bucket.last() as int]) == id {
        hits_in(chunks, bucket.drop_last(), id) + 1
    } else {
        hits_in(chunks, bucket.drop_last(), id)
    }
}

proof fn lemma_bucket_counts(chunks: Seq<chunk::ChunkModel>, id: Seq<char>, n: int)
    requires
        0 <= n <= chunks.len() <= usize::MAX,
    ensures
        hits_in(chunks, bucket_of(chunks, hash::fnv1a_spec(encode_utf8(id)), n), id) == id_count(
            chunks,
            id,
            n,
        ),
        bucket_of(chunks, hash::fnv1a_spec(encode_utf8(id)), n).len() <= n,
        forall|k: int|
            #![trigger bucket_of(chunks, hash::fnv1a_spec(encode_utf8(id)), n)[k]]
            0 <= k < bucket_of(chunks, hash::fnv1a_spec(encode_utf8(id)), n).len()
                ==> bucket_of(chunks, hash::fnv1a_spec(encode_utf8(id)), n)[k] < n,
    decreases n,
{
    if n > 0 {
        lemma_bucket_counts(chunks, id, n - 1);
        let h = hash::fnv1a_spec(encode_utf8(id));
        let b = bucket_of(chunks, h, n - 1);
        assert(b.push((n - 1) as usize).drop_last() =~= b);
    }
}

/// Turn chunks into indexable documents, keeping ids unique.
pub fn docs_from_chunks(chunks: Vec<Chunk>) -> (docs: Vec<InputDoc>)
    ensures
        docs@.len() == chunks@.len(),
        forall|i: int|
            0 <= i < docs@.len() ==> {
                &&& (#[trigger] docs@[i]).id@ == doc_id_text(chunk::chunk_views(chunks@), i)
                &&& docs@[i].title@ == chunk::title_text(chunks@[i]@)
                &&& docs@[i].body@ == chunks@[i]@.body
            },
{
    broadcast use vstd::std_specs::hash::group_hash_axioms;

    let ghost all = chunk::chunk_views(chunks@);
    let mut ids: Vec<String> = Vec::new();
    let mut seen: HashMap<u64, Vec<usize>> = HashMap::new();
    let mut docs: Vec<InputDoc> = Vec::new();
    let mut i: usize = 0;
    while i < chunks.len()
        invariant
            i <= chunks@.len(),
            all == chunk::chunk_views(chunks@),
            ids@.len() == i,
            docs@.len() == i,
            forall|k: int| 0 <= k < i ==> (#[trigger] ids@[k])@ == chunk_id(all[k]),
            forall|h: u64| #[trigger] seen@.contains_key(h) ==> seen@[h]@ == bucket_of(all, h, i as int),
            forall|h: u64| !#[trigger] seen@.contains_key(h) ==> bucket_of(all, h, i as int).len() == 0,
            forall|k: int|
                0 <= k < docs@.len() ==> {
                    &&& (#[trigger] docs@[k]).id@ == doc_id_text(all, k)
                    &&& docs@[k].title@ == chunk::title_text(chunks@[k]@)
                    &&& docs@[k].body@ == chunks@[k]@.body
                },
        decreases chunks@.len() - i,
    {
        broadcast use vstd::std_specs::hash::group_hash_axioms;

        let c = &chunks[i];
        let id = c.id();
        let ghost idv = chunk_id(all[i as int]);
        let h: u64 = hash::fnv1a(id.as_str().as_bytes());
        let mut bucket: Vec<usize> = match seen.remove(&h) {
            Some(b) => b,
            None => Vec::new(),
        };
        proof {
            assert(id@ == idv);
            assert(bucket@ =~= bucket_of(all, h, i as int));
            lemma_bucket_counts(all, idv, i as int);
        }
        let mut count: u64 = 0;
        let mut k: usize = 0;
        assert(bucket@.take(0) =~= Seq::<usize>::empty());
        while k < bucket.len()
            invariant
                k <= bucket@.len(),
                bucket@.len() <= i <= usize::MAX,
                count <= k,
                ids@.len() == i,
                id@ == idv,
                forall|k: int| 0 <= k < i ==> (#[trigger] ids@[k])@ == chunk_id(all[k]),
                forall|k: int| 0 <= k < bucket@.len() ==> #[trigger] bucket@[k] < i,
                count == hits_in(all, bucket@.take(k as int), idv),
            decreases bucket@.len() - k,
        {
            proof {
                assert(bucket@.take(k + 1).drop_last() =~= bucket@.take(k as int));
                assert(bucket@.take(k + 1).last() == bucket@[k as int]);
            }
            let at: usize = bucket[k];
            if ids[at] == id {
                count += 1;
            }
            k += 1;
        }
        assert(bucket@.take(k as int) =~= bucket@);
        let mut out = text::chars_of(id.as_str());
        if count > 0 {
            out.push('#');
            text::push_decimal(&mut out, count);
        }
        assert(out@ =~= doc_id_text(all, i as int));
        let path = text::string_of(out.as_slice());
        let body = c.body.clone();
        let doc = InputDoc { id: path, title: c.title(), body };
        bucket.push(i);
        let ghost before = seen@;
        seen.insert(h, bucket);
        ids.push(id);
        docs.push(doc);
        i += 1;
    }
    docs
}

/// Documents of chunks with distinct ids keep them.
pub proof fn law_distinct_ids_are_kept(chunks: Seq<chunk::ChunkModel>, i: int)
    requires
        0 <= i < chunks.len(),
        forall|j: int| 0 <= j < i ==> chunk_id(#[trigger] chunks[j]) != chunk_id(chunks[i]),
    ensures
        doc_id_text(chunks, i) == chunk_id(chunks[i]),
{
    lemma_no_count(chunks, chunk_id(chunks[i]), i);
}

proof fn lemma_no_count(chunks: Seq<chunk::ChunkModel>, id: Seq<char>, n: int)
    requires
        0 <= n <= chunks.len(),
        forall|j: int| 0 <= j < n ==> chunk_id(#[trigger] chunks[j]) != id,
    ensures
        id_count(chunks, id, n) == 0,
    decreases n,
{
    if n > 0 {
        lemma_no_count(chunks, id, n - 1);
    }
}

proof fn lemma_count_grows(chunks: Seq<chunk::ChunkModel>, id: Seq<char>, m: int, n: int)
    requires
        0 <= m <= n <= chunks.len(),
    ensures
        id_count(chunks, id, m) <= id_count(chunks, id, n),
        m < n && chunk_id(chunks[m]) == id ==> id_count(chunks, id, m) < id_count(chunks, id, n),
    decreases n,
{
    if m < n {
        lemma_count_grows(chunks, id, m, n - 1);
    }
}

/// Two chunks with the same id become documents with different ids.
pub proof fn law_repeated_ids_are_told_apart(chunks: Seq<chunk::ChunkModel>, i: int, j: int)
    requires
        0 <= i < j < chunks.len(),
        chunk_id(chunks[i]) == chunk_id(chunks[j]),
    ensures
        doc_id_text(chunks, i) != doc_id_text(chunks, j),
{
    let id = chunk_id(chunks[i]);
    lemma_count_grows(chunks, id, i, j);
    let a = id_count(chunks, id, i);
    let b = id_count(chunks, id, j);
    text::law_decimal_round_trip(b, b);
    if a == 0 {
        assert(doc_id_text(chunks, j).len() > id.len());
    } else {
        let da = id + seq!['#'] + text::decimal(a);
        let db = id + seq!['#'] + text::decimal(b);
        if da == db {
            text::law_decimal_round_trip(a, b);
            assert(da.skip(id.len() as int + 1) =~= text::decimal(a));
            assert(db.skip(id.len() as int + 1) =~= text::decimal(b));
        }
    }
}

/// The walk leaves out what is ignored and what is neither a directory nor a
/// file; it enters every other directory but those of tools, and indexes every
/// other source file.
pub proof fn law_walk(layers: Seq<ignore::LayerModel>, prefix: Seq<char>, name: Seq<char>)
    ensures
        visit_of(layers, prefix, name, EntryKind::Symlink) == Visit::Skip,
        visit_of(layers, prefix, name, EntryKind::Other) == Visit::Skip,
        ignore::layered(layers, child_path(prefix, name), true) ==> visit_of(
            layers,
            prefix,
            name,
            EntryKind::Dir,
        ) == Visit::Skip,
        ignore::layered(layers, child_path(prefix, name), false) ==> visit_of(
            layers,
            prefix,
            name,
            EntryKind::File,
        ) == Visit::Skip,
        !ignore::layered(layers, child_path(prefix, name), true) && !skipped_dir(name) ==> visit_of(
            layers,
            prefix,
            name,
            EntryKind::Dir,
        ) == Visit::Descend,
        !ignore::layered(layers, child_path(prefix, name), false) ==> (visit_of(
            layers,
            prefix,
            name,
            EntryKind::File,
        ) == Visit::Index <==> source_name(name)),
        prefix.len() == 0 ==> child_path(prefix, name) == name,
        prefix.len() > 0 ==> child_path(prefix, name) == prefix + seq!['/'] + name,
{
}

/// Directories that version control, package managers and build tools fill are
/// not entered.
pub proof fn law_tool_directories_are_left_out(
    layers: Seq<ignore::LayerModel>,
    prefix: Seq<char>,
    name: Seq<char>,
)
    requires
        name == ".git"@ || name == ".hg"@ || name == ".svn"@ || name == ".csearch"@ || name
            == "node_modules"@ || name == "target"@ || name == "dist"@ || name == "build"@ || name
            == "vendor"@ || name == "__pycache__"@ || name == ".venv"@ || name == "venv"@ || name
            == ".mypy_cache"@ || name == ".pytest_cache"@ || name == ".next"@ || name == ".nuxt"@,
    ensures
        visit_of(layers, prefix, name, EntryKind::Dir) == Visit::Skip,
{
}

/// A file is known by what follows its last dot.
pub proof fn law_source_names(stem: Seq<char>, ext: Seq<char>)
    requires
        !ext.contains('.'),
    ensures
        source_name(stem + seq!['.'] + ext) <==> source_ext(ext),
        !source_name(ext),
{
    let name = stem + seq!['.'] + ext;
    let d = stem.len() as int;
    assert(name.skip(d + 1) =~= ext);
    assert(text::last_at(name, '.', d)) by {
        assert forall|k: int| d < k < name.len() implies #[trigger] name[k] != '.' by {
            assert(name[k] == ext[k - d - 1]);
            assert(ext.contains(ext[k - d - 1]));
        }
    }
    if source_name(name) {
        let e = choose|e: int| #[trigger]
            text::last_at(name, '.', e) && source_ext(name.skip(e + 1));
        assert(e == d) by {
            if e < d {
                assert(name[d] != '.');
            }
            if d < e {
                assert(name[e] != '.');
            }
        }
    }
    if source_name(ext) {
        let e = choose|e: int| #[trigger] text::last_at(ext, '.', e) && source_ext(ext.skip(e + 1));
        assert(ext.contains(ext[e]));
    }
}

} // verus!
