//! Repository indexing: what a source tree's index directory is called, what
//! changed since it was built, and the steps of bringing it up to date.

use crate::block_max_wand;
use crate::hash;
use crate::indexer;
use crate::indexer::DocTokens;
use crate::interner;
use crate::lookup;
use crate::lookup::Lookup;
use crate::paths;
use crate::reorder::ReorderStrategy;
use crate::repo::SourceFile;
use crate::segments;
use crate::segments::SegmentedIndex;
use crate::segments::UpsertOutcome;
use crate::text;
use vstd::prelude::*;
use vstd::utf8::encode_utf8;

verus! {

/// Segments accumulated before a compaction merge.
pub const MAX_SEGMENTS: usize = 12;

/// One indexed file's identity and the chunk ids it produced.
pub struct FileRecord {
    pub path: String,
    pub len: u64,
    pub mtime_ns: u128,
    pub chunk_ids: Vec<String>,
}

/// What a [`FileRecord`] holds.
pub struct RecordModel {
    pub path: Seq<char>,
    pub len: u64,
    pub mtime_ns: u128,
    pub chunk_ids: Seq<Seq<char>>,
}

impl View for FileRecord {
    type V = RecordModel;

    open spec fn view(&self) -> RecordModel {
        RecordModel {
            path: self.path@,
            len: self.len,
            mtime_ns: self.mtime_ns,
            chunk_ids: block_max_wand::texts(self.chunk_ids@),
        }
    }
}

pub open spec fn record_views(records: Seq<FileRecord>) -> Seq<RecordModel> {
    Seq::new(records.len(), |i: int| records[i]@)
}

pub open spec fn record_paths(records: Seq<FileRecord>) -> Seq<Seq<char>> {
    Seq::new(records.len(), |i: int| records[i].path@)
}

pub open spec fn file_paths(files: Seq<SourceFile>) -> Seq<Seq<char>> {
    Seq::new(files.len(), |i: int| files[i].rel@)
}

fn copy_texts(texts: &Vec<String>, out: &mut Vec<String>)
    ensures
        block_max_wand::texts(final(out)@) == block_max_wand::texts(old(out)@)
            + block_max_wand::texts(texts@),
{
    let n: usize = texts.len();
    let ghost start = block_max_wand::texts(out@);
    let mut i: usize = 0;
    assert(start + block_max_wand::texts(texts@).take(0) =~= start);
    while i < n
        invariant
            i <= n,
            n == texts@.len(),
            block_max_wand::texts(out@) == start + block_max_wand::texts(texts@).take(i as int),
        decreases n - i,
    {
        let ghost before = block_max_wand::texts(out@);
        out.push(texts[i].clone());
        assert(block_max_wand::texts(out@) =~= before.push(texts@[i as int]@));
        assert(block_max_wand::texts(texts@).take(i + 1) =~= block_max_wand::texts(texts@).take(
            i as int,
        ).push(texts@[i as int]@));
        i += 1;
        assert(block_max_wand::texts(out@) =~= start + block_max_wand::texts(texts@).take(i as int));
    }
    assert(block_max_wand::texts(texts@).take(n as int) =~= block_max_wand::texts(texts@));
}

impl FileRecord {
    /// Another record of the same.
    pub fn copied(&self) -> (r: FileRecord)
        ensures
            r@ == self@,
    {
        let mut chunk_ids: Vec<String> = Vec::new();
        assert(block_max_wand::texts(chunk_ids@) =~= Seq::<Seq<char>>::empty());
        copy_texts(&self.chunk_ids, &mut chunk_ids);
        let r = FileRecord {
            path: self.path.clone(),
            len: self.len,
            mtime_ns: self.mtime_ns,
            chunk_ids,
        };
        assert(r@.chunk_ids =~= self@.chunk_ids);
        r
    }
}

/// What is known of an installed index.
pub struct Manifest {
    /// Absolute path of the indexed source tree.
    pub root: String,
    pub num_docs: usize,
    pub num_files: usize,
    /// Were vectors built, so that hybrid search is available?
    pub embedded: bool,
    pub build_ms: u64,
    /// Chunks encoded on this build, and chunks served from the cache.
    pub encoded: usize,
    pub cached: usize,
    /// Fingerprint of the walked file list that the index was built from.
    pub tree_fingerprint: u64,
    /// Per-file state of a segmented index.
    pub files: Vec<FileRecord>,
}

impl Manifest {
    /// Nothing that the index depends on has changed since it was built. A
    /// fingerprint of zero says that none was recorded.
    pub open spec fn matches(&self, tree_fingerprint: u64, embed: bool) -> bool {
        &&& self.tree_fingerprint == tree_fingerprint
        &&& self.tree_fingerprint != 0
        &&& self.embedded == embed
    }

    pub fn is_up_to_date(&self, tree_fingerprint: u64, embed: bool) -> (r: bool)
        ensures
            r == self.matches(tree_fingerprint, embed),
    {
        self.tree_fingerprint == tree_fingerprint && self.tree_fingerprint != 0 && self.embedded
            == embed
    }
}

/// How a tree is indexed.
pub struct BuildOpts {
    /// Build vectors, so that hybrid search is available.
    pub embed: bool,
    pub title_weight: u32,
    pub reorder: ReorderStrategy,
    /// 0 for the usual number.
    pub ivf_clusters: usize,
    /// Train the quantizer anew even if the installed one still fits.
    pub retrain: bool,
    /// Edits append a segment instead of rebuilding the whole index.
    pub segmented: bool,
    /// Print no progress.
    pub quiet: bool,
}

impl Default for BuildOpts {
    fn default() -> (o: Self)
        ensures
            o == (BuildOpts {
                embed: true,
                title_weight: 2,
                reorder: ReorderStrategy::Keep,
                ivf_clusters: 0,
                retrain: false,
                segmented: true,
                quiet: false,
            }),
    {
        BuildOpts {
            embed: true,
            title_weight: 2,
            reorder: ReorderStrategy::Keep,
            ivf_clusters: 0,
            retrain: false,
            segmented: true,
            quiet: false,
        }
    }
}

// ---------------------------------------------------------------------------
// What changed
// ---------------------------------------------------------------------------

/// The record of the file at `path`.
pub open spec fn record_for(records: Seq<FileRecord>, path: Seq<char>) -> Option<int> {
    lookup::last_in(record_paths(records), path)
}

/// The file is the one that was indexed: same length, same modification time.
pub open spec fn is_unchanged(file: SourceFile, records: Seq<FileRecord>) -> bool {
    match record_for(records, file.rel@) {
        Some(r) => records[r].len == file.len && records[r].mtime_ns == file.mtime_ns,
        None => false,
    }
}

/// The records of the unchanged ones among the first `n` files.
pub open spec fn kept_records(files: Seq<SourceFile>, records: Seq<FileRecord>, n: int) -> Seq<
    usize,
>
    decreases n,
{
    if n <= 0 {
        Seq::empty()
    } else if is_unchanged(files[n - 1], records) {
        kept_records(files, records, n - 1).push(record_for(records, files[n - 1].rel@)->Some_0 as usize)
    } else {
        kept_records(files, records, n - 1)
    }
}

/// The new and changed ones among the first `n` files.
pub open spec fn changed_files(files: Seq<SourceFile>, records: Seq<FileRecord>, n: int) -> Seq<
    usize,
>
    decreases n,
{
    if n <= 0 {
        Seq::empty()
    } else if is_unchanged(files[n - 1], records) {
        changed_files(files, records, n - 1)
    } else {
        changed_files(files, records, n - 1).push((n - 1) as usize)
    }
}

/// Those of the first `n` records whose file is gone.
pub open spec fn removed_records(files: Seq<SourceFile>, records: Seq<FileRecord>, n: int) -> Seq<
    usize,
>
    decreases n,
{
    if n <= 0 {
        Seq::empty()
    } else if file_paths(files).contains(records[n - 1].path@) {
        removed_records(files, records, n - 1)
    } else {
        removed_records(files, records, n - 1).push((n - 1) as usize)
    }
}

/// A source tree held against the records of an earlier build.
pub struct TreeDiff {
    /// Records of the unchanged files, in file order.
    pub kept: Vec<usize>,
    /// New and changed files.
    pub changed: Vec<usize>,
    /// Records of files that are gone.
    pub removed: Vec<usize>,
}

impl TreeDiff {
    pub open spec fn of(&self, files: Seq<SourceFile>, records: Seq<FileRecord>) -> bool {
        &&& self.kept@ == kept_records(files, records, files.len() as int)
        &&& self.changed@ == changed_files(files, records, files.len() as int)
        &&& self.removed@ == removed_records(files, records, records.len() as int)
    }
}

/// The records by path.
fn lookup_records(records: &[FileRecord]) -> (l: Lookup)
    ensures
        l.wf(),
        l@ == record_paths(records@),
{
    let n: usize = records.len();
    let mut names: Vec<String> = Vec::new();
    let mut i: usize = 0;
    while i < n
        invariant
            i <= n,
            n == records@.len(),
            names@.len() == i,
            forall|j: int| 0 <= j < i ==> (#[trigger] names@[j])@ == records@[j].path@,
        decreases n - i,
    {
        names.push(records[i].path.clone());
        i += 1;
    }
    assert(interner::name_views(names@) =~= record_paths(records@));
    Lookup::new(names)
}

/// The files by path.
fn lookup_files(files: &[SourceFile]) -> (l: Lookup)
    ensures
        l.wf(),
        l@ == file_paths(files@),
{
    let n: usize = files.len();
    let mut names: Vec<String> = Vec::new();
    let mut i: usize = 0;
    while i < n
        invariant
            i <= n,
            n == files@.len(),
            names@.len() == i,
            forall|j: int| 0 <= j < i ==> (#[trigger] names@[j])@ == files@[j].rel@,
        decreases n - i,
    {
        names.push(files[i].rel.clone());
        i += 1;
    }
    assert(interner::name_views(names@) =~= file_paths(files@));
    Lookup::new(names)
}

/// Hold the walked files against the records of the last build, by length and
/// modification time.
pub fn diff_tree(files: &[SourceFile], records: &[FileRecord]) -> (d: TreeDiff)
    ensures
        d.of(files@, records@),
{
    let known = lookup_records(records);
    let current = lookup_files(files);
    let mut kept: Vec<usize> = Vec::new();
    let mut changed: Vec<usize> = Vec::new();
    let n: usize = files.len();
    let mut i: usize = 0;
    while i < n
        invariant
            i <= n,
            n == files@.len(),
            known.wf(),
            known@ == record_paths(records@),
            kept@ == kept_records(files@, records@, i as int),
            changed@ == changed_files(files@, records@, i as int),
        decreases n - i,
    {
        match known.find(files[i].rel.as_str()) {
            Some(r) => {
                if records[r].len == files[i].len && records[r].mtime_ns == files[i].mtime_ns {
                    kept.push(r);
                } else {
                    changed.push(i);
                }
            },
            None => {
                changed.push(i);
            },
        }
        i += 1;
    }
    let mut removed: Vec<usize> = Vec::new();
    let m: usize = records.len();
    let mut r: usize = 0;
    while r < m
        invariant
            r <= m,
            m == records@.len(),
            current.wf(),
            current@ == file_paths(files@),
            removed@ == removed_records(files@, records@, r as int),
        decreases m - r,
    {
        if !current.contains(records[r].path.as_str()) {
            removed.push(r);
        }
        r += 1;
    }
    TreeDiff { kept, changed, removed }
}

proof fn lemma_files_bounds(files: Seq<SourceFile>, records: Seq<FileRecord>, n: int)
    requires
        0 <= n <= files.len() <= usize::MAX,
        records.len() <= usize::MAX,
    ensures
        forall|i: int|
            #![trigger kept_records(files, records, n)[i]]
            0 <= i < kept_records(files, records, n).len() ==> kept_records(files, records, n)[i]
                < records.len(),
        forall|i: int|
            #![trigger changed_files(files, records, n)[i]]
            0 <= i < changed_files(files, records, n).len() ==> changed_files(files, records, n)[i]
                < n && !is_unchanged(files[changed_files(files, records, n)[i] as int], records),
    decreases n,
{
    if n > 0 {
        lemma_files_bounds(files, records, n - 1);
        let path = files[n - 1].rel@;
        lookup::lemma_last_in(record_paths(records), path, record_paths(records).len() as int);
        let kept = kept_records(files, records, n - 1);
        let changed = changed_files(files, records, n - 1);
        assert forall|i: int|
            #![trigger kept_records(files, records, n)[i]]
            0 <= i < kept_records(files, records, n).len() implies kept_records(files, records, n)[i]
            < records.len() by {
            if i < kept.len() {
                assert(kept[i] < records.len());
            }
        }
        assert forall|i: int|
            #![trigger changed_files(files, records, n)[i]]
            0 <= i < changed_files(files, records, n).len() implies changed_files(
            files,
            records,
            n,
        )[i] < n && !is_unchanged(files[changed_files(files, records, n)[i] as int], records) by {
            if i < changed.len() {
                assert(changed[i] < n - 1);
            }
        }
    }
}

proof fn lemma_records_bounds(files: Seq<SourceFile>, records: Seq<FileRecord>, m: int)
    requires
        0 <= m <= records.len() <= usize::MAX,
    ensures
        forall|i: int|
            #![trigger removed_records(files, records, m)[i]]
            0 <= i < removed_records(files, records, m).len() ==> removed_records(
                files,
                records,
                m,
            )[i] < m && !file_paths(files).contains(
                records[removed_records(files, records, m)[i] as int].path@,
            ),
    decreases m,
{
    if m > 0 {
        lemma_records_bounds(files, records, m - 1);
        let removed = removed_records(files, records, m - 1);
        assert forall|i: int|
            #![trigger removed_records(files, records, m)[i]]
            0 <= i < removed_records(files, records, m).len() implies removed_records(
            files,
            records,
            m,
        )[i] < m && !file_paths(files).contains(
            records[removed_records(files, records, m)[i] as int].path@,
        ) by {
            if i < removed.len() {
                assert(removed[i] < m - 1);
            }
        }
    }
}

// ---------------------------------------------------------------------------
// Bringing the segments up to date
// ---------------------------------------------------------------------------

/// Where the documents of the `j`-th changed file begin.
pub open spec fn docs_begin(ends: Seq<usize>, j: int) -> int {
    if j <= 0 {
        0
    } else {
        ends[j - 1] as int
    }
}

/// The documents of the `j`-th changed file.
pub open spec fn docs_of_file(docs: Seq<DocTokens>, ends: Seq<usize>, j: int) -> Seq<DocTokens> {
    docs.subrange(docs_begin(ends, j), ends[j] as int)
}

/// `ends` cuts `n` documents into those of each file.
pub open spec fn cuts(ends: Seq<usize>, n: int) -> bool {
    &&& forall|i: int, j: int| 0 <= i <= j < ends.len() ==> #[trigger] ends[i] <= #[trigger] ends[j]
    &&& (if ends.len() == 0 {
        n == 0
    } else {
        ends.last() == n
    })
}

/// The first `n` of `old` ids without those that still occur.
pub open spec fn missing(old_ids: Seq<Seq<char>>, new_ids: Seq<Seq<char>>, n: int) -> Seq<Seq<char>>
    decreases n,
{
    if n <= 0 {
        Seq::empty()
    } else if new_ids.contains(old_ids[n - 1]) {
        missing(old_ids, new_ids, n - 1)
    } else {
        missing(old_ids, new_ids, n - 1).push(old_ids[n - 1])
    }
}

/// The ids that a changed file had and no longer has.
pub open spec fn file_stale(
    file: SourceFile,
    records: Seq<FileRecord>,
    docs: Seq<DocTokens>,
) -> Seq<Seq<char>> {
    match record_for(records, file.rel@) {
        Some(r) => missing(
            records[r]@.chunk_ids,
            segments::doc_ids(docs),
            records[r]@.chunk_ids.len() as int,
        ),
        None => Seq::empty(),
    }
}

/// The ids that the first `n` changed files had and no longer have.
pub open spec fn changed_stale(
    files: Seq<SourceFile>,
    records: Seq<FileRecord>,
    changed: Seq<usize>,
    docs: Seq<DocTokens>,
    ends: Seq<usize>,
    n: int,
) -> Seq<Seq<char>>
    decreases n,
{
    if n <= 0 {
        Seq::empty()
    } else {
        changed_stale(files, records, changed, docs, ends, n - 1) + file_stale(
            files[changed[n - 1] as int],
            records,
            docs_of_file(docs, ends, n - 1),
        )
    }
}

/// The ids of the first `n` files that are gone.
pub open spec fn removed_stale(records: Seq<FileRecord>, removed: Seq<usize>, n: int) -> Seq<
    Seq<char>,
>
    decreases n,
{
    if n <= 0 {
        Seq::empty()
    } else {
        removed_stale(records, removed, n - 1) + records[removed[n - 1] as int]@.chunk_ids
    }
}

/// All ids that no longer exist.
pub open spec fn stale_ids(
    files: Seq<SourceFile>,
    records: Seq<FileRecord>,
    docs: Seq<DocTokens>,
    ends: Seq<usize>,
) -> Seq<Seq<char>> {
    let changed = changed_files(files, records, files.len() as int);
    let removed = removed_records(files, records, records.len() as int);
    changed_stale(files, records, changed, docs, ends, changed.len() as int) + removed_stale(
        records,
        removed,
        removed.len() as int,
    )
}

/// The record of a file with these documents.
pub open spec fn record_of(file: SourceFile, docs: Seq<DocTokens>) -> RecordModel {
    RecordModel {
        path: file.rel@,
        len: file.len,
        mtime_ns: file.mtime_ns,
        chunk_ids: segments::doc_ids(docs),
    }
}

/// The records after the update: those of unchanged files as they were, then
/// one for each changed file.
pub open spec fn new_records(
    files: Seq<SourceFile>,
    records: Seq<FileRecord>,
    docs: Seq<DocTokens>,
    ends: Seq<usize>,
) -> Seq<RecordModel> {
    let kept = kept_records(files, records, files.len() as int);
    let changed = changed_files(files, records, files.len() as int);
    Seq::new(kept.len(), |i: int| records[kept[i] as int]@) + Seq::new(
        changed.len(),
        |j: int| record_of(files[changed[j] as int], docs_of_file(docs, ends, j)),
    )
}

/// The ids of a stretch of documents.
fn ids_between(docs: &[DocTokens], from: usize, to: usize) -> (ids: Vec<String>)
    requires
        from <= to <= docs@.len(),
    ensures
        block_max_wand::texts(ids@) == segments::doc_ids(
            docs@.subrange(from as int, to as int),
        ),
{
    let mut ids: Vec<String> = Vec::new();
    let mut i: usize = from;
    while i < to
        invariant
            from <= i <= to <= docs@.len(),
            ids@.len() == i - from,
            forall|k: int| 0 <= k < ids@.len() ==> (#[trigger] ids@[k])@ == docs@[from + k].doc.id@,
        decreases to - i,
    {
        ids.push(docs[i].doc.id.clone());
        i += 1;
    }
    assert(block_max_wand::texts(ids@) =~= segments::doc_ids(
        docs@.subrange(from as int, to as int),
    ));
    ids
}

/// Append those of `ids` that `current` lacks.
fn push_missing(ids: &Vec<String>, current: &Lookup, out: &mut Vec<String>)
    requires
        current.wf(),
    ensures
        block_max_wand::texts(final(out)@) == block_max_wand::texts(old(out)@) + missing(
            block_max_wand::texts(ids@),
            current@,
            ids@.len() as int,
        ),
{
    let ghost all = block_max_wand::texts(ids@);
    let ghost start = block_max_wand::texts(out@);
    let n: usize = ids.len();
    let mut i: usize = 0;
    assert(start + missing(all, current@, 0) =~= start);
    while i < n
        invariant
            i <= n,
            n == ids@.len(),
            all == block_max_wand::texts(ids@),
            current.wf(),
            block_max_wand::texts(out@) == start + missing(all, current@, i as int),
        decreases n - i,
    {
        if !current.contains(ids[i].as_str()) {
            let ghost before = block_max_wand::texts(out@);
            out.push(ids[i].clone());
            assert(block_max_wand::texts(out@) =~= before.push(all[i as int]));
            assert(before.push(all[i as int]) =~= start + missing(all, current@, i as int).push(
                all[i as int],
            ));
        }
        i += 1;
    }
}

/// What an update does to the manifest and the index.
pub struct UpdatePlan {
    pub records: Vec<FileRecord>,
    /// Ids whose documents are to be tombstoned.
    pub stale: Vec<String>,
}

/// The records after the update and the ids that no longer exist. `docs` are
/// the documents of the changed files in order, cut at `ends`.
pub fn plan_update(
    files: &[SourceFile],
    records: &[FileRecord],
    diff: &TreeDiff,
    docs: &[DocTokens],
    ends: &[usize],
) -> (p: UpdatePlan)
    requires
        diff.of(files@, records@),
        ends@.len() == diff.changed@.len(),
        cuts(ends@, docs@.len() as int),
    ensures
        record_views(p.records@) == new_records(files@, records@, docs@, ends@),
        block_max_wand::texts(p.stale@) == stale_ids(files@, records@, docs@, ends@),
{
    let known = lookup_records(records);
    let total: usize = docs.len();
    let file_count: usize = files.len();
    let record_count: usize = records.len();
    let ghost kept = diff.kept@;
    let ghost changed = diff.changed@;
    let ghost removed = diff.removed@;
    proof {
        lemma_files_bounds(files@, records@, files@.len() as int);
        lemma_records_bounds(files@, records@, records@.len() as int);
    }
    let mut out: Vec<FileRecord> = Vec::new();
    let mut i: usize = 0;
    while i < diff.kept.len()
        invariant
            i <= diff.kept@.len(),
            kept == diff.kept@,
            forall|x: int| 0 <= x < kept.len() ==> #[trigger] kept[x] < records@.len(),
            record_count == records@.len(),
            out@.len() == i,
            forall|x: int|
                0 <= x < i ==> (#[trigger] out@[x])@ == records@[kept[x] as int]@,
        decreases diff.kept@.len() - i,
    {
        let at: usize = diff.kept[i];
        assert(kept[i as int] < records@.len());
        out.push(records[at].copied());
        i += 1;
    }
    let ghost first = kept.len() as int;
    let mut stale: Vec<String> = Vec::new();
    let mut j: usize = 0;
    assert(block_max_wand::texts(stale@) =~= Seq::<Seq<char>>::empty());
    while j < diff.changed.len()
        invariant
            j <= diff.changed@.len(),
            changed == diff.changed@,
            kept == diff.kept@,
            first == kept.len(),
            ends@.len() == changed.len(),
            total == docs@.len(),
            cuts(ends@, total as int),
            known.wf(),
            known@ == record_paths(records@),
            record_count == records@.len(),
            file_count == files@.len(),
            forall|x: int| 0 <= x < changed.len() ==> #[trigger] changed[x] < files@.len(),
            out@.len() == first + j,
            forall|x: int|
                0 <= x < first ==> (#[trigger] out@[x])@ == records@[kept[x] as int]@,
            forall|x: int|
                first <= x < first + j ==> (#[trigger] out@[x])@ == record_of(
                    files@[changed[x - first] as int],
                    docs_of_file(docs@, ends@, x - first),
                ),
            block_max_wand::texts(stale@) == changed_stale(
                files@,
                records@,
                changed,
                docs@,
                ends@,
                j as int,
            ),
        decreases diff.changed@.len() - j,
    {
        let at: usize = diff.changed[j];
        assert(changed[j as int] < files@.len());
        let from: usize = if j == 0 {
            0
        } else {
            ends[j - 1]
        };
        let to: usize = ends[j];
        proof {
            assert(ends@[j as int] <= ends@[ends@.len() - 1]);
            if j > 0 {
                assert(ends@[j - 1] <= ends@[j as int]);
            }
        }
        let ids = ids_between(docs, from, to);
        let ghost mine = docs_of_file(docs@, ends@, j as int);
        assert(block_max_wand::texts(ids@) == segments::doc_ids(mine));
        let ghost before = block_max_wand::texts(stale@);
        let mut again: Vec<String> = Vec::new();
        assert(block_max_wand::texts(again@) =~= Seq::<Seq<char>>::empty());
        copy_texts(&ids, &mut again);
        assert(block_max_wand::texts(again@) =~= segments::doc_ids(mine));
        assert(interner::name_views(again@) =~= block_max_wand::texts(again@));
        let current = Lookup::new(again);
        match known.find(files[at].rel.as_str()) {
            Some(r) => {
                push_missing(&records[r].chunk_ids, &current, &mut stale);
                assert(records@[r as int]@.chunk_ids.len() == records@[r as int].chunk_ids@.len());
            },
            None => {
                assert(before + Seq::<Seq<char>>::empty() =~= before);
            },
        }
        let record = FileRecord {
            path: files[at].rel.clone(),
            len: files[at].len,
            mtime_ns: files[at].mtime_ns,
            chunk_ids: ids,
        };
        assert(record@ == record_of(files@[at as int], mine));
        out.push(record);
        j += 1;
    }
    let ghost edited = block_max_wand::texts(stale@);
    let mut r: usize = 0;
    assert(edited + removed_stale(records@, removed, 0) =~= edited);
    while r < diff.removed.len()
        invariant
            r <= diff.removed@.len(),
            removed == diff.removed@,
            record_count == records@.len(),
            forall|x: int| 0 <= x < removed.len() ==> #[trigger] removed[x] < records@.len(),
            block_max_wand::texts(stale@) == edited + removed_stale(
                records@,
                removed,
                r as int,
            ),
        decreases diff.removed@.len() - r,
    {
        let at: usize = diff.removed[r];
        assert(removed[r as int] < records@.len());
        copy_texts(&records[at].chunk_ids, &mut stale);
        r += 1;
        assert(block_max_wand::texts(stale@) =~= edited + removed_stale(
            records@,
            removed,
            r as int,
        ));
    }
    assert(record_views(out@) =~= new_records(files@, records@, docs@, ends@));
    UpdatePlan { records: out, stale }
}

/// One update of a segmented index: the stale documents are tombstoned, then
/// the documents of the changed files are taken up.
pub open spec fn update_steps(
    a: SegmentedIndex,
    mid: SegmentedIndex,
    b: SegmentedIndex,
    stale: Seq<Seq<char>>,
    docs: Seq<DocTokens>,
    out: UpsertOutcome,
) -> bool {
    let n = docs.len() as int;
    &&& segments::buried(a.segments@, mid.segments@, stale)
    &&& mid.next_segment == a.next_segment
    &&& segments::upserted(mid, b, docs)
    &&& (out.added as nat, out.updated as nat, out.unchanged as nat) == segments::tally(
        mid.segments@,
        docs,
        n,
    )
    &&& out.new_segment is Some <==> segments::to_write(mid.segments@, docs, n).len() > 0
    &&& out.new_segment matches Some(s) ==> s.0@ == segments::segment_text(
        a.next_segment as nat,
    ) && s.1@ == segments::to_write(mid.segments@, docs, n)
}

pub open spec fn is_update(
    a: SegmentedIndex,
    b: SegmentedIndex,
    stale: Seq<Seq<char>>,
    docs: Seq<DocTokens>,
    out: UpsertOutcome,
) -> bool {
    exists|mid: SegmentedIndex| #[trigger] update_steps(a, mid, b, stale, docs, out)
}

/// What an update of a segmented index did.
pub struct SegmentUpdate {
    /// The records of the tree as it is now.
    pub records: Vec<FileRecord>,
    /// Tombstoned documents.
    pub deleted: usize,
    /// What became of the documents of the changed files.
    pub outcome: UpsertOutcome,
    /// Are there now so many segments that they should be merged?
    pub merge: bool,
}

/// Bring a segmented index up to date with the tree. The documents of the
/// changed files, in order, are `docs`, cut at `ends`.
pub fn build_segmented(
    index: &mut SegmentedIndex,
    files: &[SourceFile],
    records: &[FileRecord],
    diff: &TreeDiff,
    docs: &[DocTokens],
    ends: &[usize],
) -> (u: SegmentUpdate)
    requires
        old(index).wf(),
        old(index).has_room(indexer::doc_views(docs@)),
        diff.of(files@, records@),
        ends@.len() == diff.changed@.len(),
        cuts(ends@, docs@.len() as int),
    ensures
        final(index).wf(),
        record_views(u.records@) == new_records(files@, records@, docs@, ends@),
        u.deleted == segments::target_count(
            old(index).segments@,
            stale_ids(files@, records@, docs@, ends@),
        ),
        is_update(
            *old(index),
            *final(index),
            stale_ids(files@, records@, docs@, ends@),
            docs@,
            u.outcome,
        ),
        u.merge == (final(index).segments@.len() > MAX_SEGMENTS),
        final(index).remove_stopwords == old(index).remove_stopwords,
        final(index).title_weight == old(index).title_weight,
        final(index).code_mode == old(index).code_mode,
{
    let ghost before = *index;
    let plan = plan_update(files, records, diff, docs, ends);
    let ghost stale = block_max_wand::texts(plan.stale@);
    let deleted: usize = index.delete_documents(plan.stale.as_slice());
    let ghost mid = *index;
    let doc_count: usize = docs.len();
    proof {
        segments::lemma_room_after_burying(before, mid, stale, docs@);
    }
    let outcome = index.upsert_documents_full(docs);
    assert(update_steps(before, mid, *index, stale, docs@, outcome));
    let merge: bool = index.num_segments() > MAX_SEGMENTS;
    SegmentUpdate { records: plan.records, deleted, outcome, merge }
}

// ---------------------------------------------------------------------------
// Laws of the update
// ---------------------------------------------------------------------------

/// The id belonged to the record and its file no longer produces it.
pub open spec fn vanished(
    files: Seq<SourceFile>,
    records: Seq<FileRecord>,
    docs: Seq<DocTokens>,
    ends: Seq<usize>,
    r: int,
    id: Seq<char>,
) -> bool {
    let changed = changed_files(files, records, files.len() as int);
    &&& 0 <= r < records.len()
    &&& records[r]@.chunk_ids.contains(id)
    &&& (!file_paths(files).contains(records[r].path@) || exists|j: int|
        0 <= j < changed.len() && #[trigger] files[changed[j] as int].rel@ == records[r].path@
            && !segments::doc_ids(docs_of_file(docs, ends, j)).contains(id))
}

proof fn lemma_missing(old_ids: Seq<Seq<char>>, new_ids: Seq<Seq<char>>, n: int, id: Seq<char>)
    requires
        0 <= n <= old_ids.len(),
    ensures
        missing(old_ids, new_ids, n).contains(id) <==> old_ids.take(n).contains(id)
            && !new_ids.contains(id),
    decreases n,
{
    if n > 0 {
        lemma_missing(old_ids, new_ids, n - 1, id);
        let front = missing(old_ids, new_ids, n - 1);
        let last = old_ids[n - 1];
        assert(old_ids.take(n) =~= old_ids.take(n - 1).push(last));
        lemma_contains_push(old_ids.take(n - 1), last, id);
        lemma_contains_push(front, last, id);
    } else {
        assert(old_ids.take(0) =~= Seq::<Seq<char>>::empty());
    }
}

proof fn lemma_contains_push(s: Seq<Seq<char>>, x: Seq<char>, id: Seq<char>)
    ensures
        s.push(x).contains(id) <==> s.contains(id) || x == id,
{
    if s.contains(id) {
        let i = choose|i: int| 0 <= i < s.len() && s[i] == id;
        assert(s.push(x)[i] == id);
    }
    if x == id {
        assert(s.push(x)[s.len() as int] == id);
    }
    if s.push(x).contains(id) {
        let i = choose|i: int| 0 <= i < s.push(x).len() && s.push(x)[i] == id;
        if i < s.len() {
            assert(s[i] == id);
        }
    }
}

proof fn lemma_contains_concat(a: Seq<Seq<char>>, b: Seq<Seq<char>>, id: Seq<char>)
    ensures
        (a + b).contains(id) <==> a.contains(id) || b.contains(id),
{
    if a.contains(id) {
        let i = choose|i: int| 0 <= i < a.len() && a[i] == id;
        assert((a + b)[i] == id);
    }
    if b.contains(id) {
        let i = choose|i: int| 0 <= i < b.len() && b[i] == id;
        assert((a + b)[a.len() + i] == id);
    }
    if (a + b).contains(id) {
        let i = choose|i: int| 0 <= i < (a + b).len() && (a + b)[i] == id;
        if i < a.len() {
            assert(a[i] == id);
        } else {
            assert(b[i - a.len()] == id);
        }
    }
}

proof fn lemma_changed_stale(
    files: Seq<SourceFile>,
    records: Seq<FileRecord>,
    changed: Seq<usize>,
    docs: Seq<DocTokens>,
    ends: Seq<usize>,
    n: int,
    id: Seq<char>,
)
    requires
        0 <= n <= changed.len(),
    ensures
        changed_stale(files, records, changed, docs, ends, n).contains(id) <==> exists|j: int|
            0 <= j < n && #[trigger] file_stale(
                files[changed[j] as int],
                records,
                docs_of_file(docs, ends, j),
            ).contains(id),
    decreases n,
{
    if n > 0 {
        lemma_changed_stale(files, records, changed, docs, ends, n - 1, id);
        let front = changed_stale(files, records, changed, docs, ends, n - 1);
        let mine = file_stale(files[changed[n - 1] as int], records, docs_of_file(docs, ends, n - 1));
        lemma_contains_concat(front, mine, id);
        if front.contains(id) {
            let j = choose|j: int|
                0 <= j < n - 1 && #[trigger] file_stale(
                    files[changed[j] as int],
                    records,
                    docs_of_file(docs, ends, j),
                ).contains(id);
            assert(file_stale(files[changed[j] as int], records, docs_of_file(docs, ends, j)).contains(
                id,
            ));
        }
    }
}

proof fn lemma_removed_stale(records: Seq<FileRecord>, removed: Seq<usize>, n: int, id: Seq<char>)
    requires
        0 <= n <= removed.len(),
    ensures
        removed_stale(records, removed, n).contains(id) <==> exists|j: int|
            0 <= j < n && (#[trigger] records[removed[j] as int])@.chunk_ids.contains(id),
    decreases n,
{
    if n > 0 {
        lemma_removed_stale(records, removed, n - 1, id);
        lemma_contains_concat(
            removed_stale(records, removed, n - 1),
            records[removed[n - 1] as int]@.chunk_ids,
            id,
        );
    }
}

proof fn lemma_removed_lists(files: Seq<SourceFile>, records: Seq<FileRecord>, m: int, r: int)
    requires
        0 <= r < m <= records.len() <= usize::MAX,
        !file_paths(files).contains(records[r].path@),
    ensures
        exists|j: int|
            0 <= j < removed_records(files, records, m).len() && #[trigger] removed_records(
                files,
                records,
                m,
            )[j] == r,
    decreases m,
{
    let now = removed_records(files, records, m);
    if r == m - 1 {
        assert(now[now.len() - 1] == r);
    } else {
        lemma_removed_lists(files, records, m - 1, r);
        let front = removed_records(files, records, m - 1);
        let j = choose|j: int| 0 <= j < front.len() && #[trigger] front[j] == r;
        assert(now[j] == front[j]);
    }
}

/// An update tombstones exactly the ids that no longer exist: those of a file
/// that is gone, and those of a changed file that it no longer produces.
pub proof fn law_stale_ids_are_the_vanished_ones(
    files: Seq<SourceFile>,
    records: Seq<FileRecord>,
    docs: Seq<DocTokens>,
    ends: Seq<usize>,
    id: Seq<char>,
)
    requires
        record_paths(records).no_duplicates(),
        files.len() <= usize::MAX,
        records.len() <= usize::MAX,
    ensures
        stale_ids(files, records, docs, ends).contains(id) <==> exists|r: int|
            #[trigger] vanished(files, records, docs, ends, r, id),
{
    let n = files.len() as int;
    let m = records.len() as int;
    let changed = changed_files(files, records, n);
    let removed = removed_records(files, records, m);
    let edited = changed_stale(files, records, changed, docs, ends, changed.len() as int);
    let dropped = removed_stale(records, removed, removed.len() as int);
    lemma_contains_concat(edited, dropped, id);
    lemma_changed_stale(files, records, changed, docs, ends, changed.len() as int, id);
    lemma_removed_stale(records, removed, removed.len() as int, id);
    lemma_records_bounds(files, records, m);
    let paths = record_paths(records);
    if edited.contains(id) {
        let j = choose|j: int|
            0 <= j < changed.len() && #[trigger] file_stale(
                files[changed[j] as int],
                records,
                docs_of_file(docs, ends, j),
            ).contains(id);
        let path = files[changed[j] as int].rel@;
        lookup::lemma_last_in(paths, path, paths.len() as int);
        let r = record_for(records, path)->Some_0;
        let old_ids = records[r]@.chunk_ids;
        lemma_missing(
            old_ids,
            segments::doc_ids(docs_of_file(docs, ends, j)),
            old_ids.len() as int,
            id,
        );
        assert(old_ids.take(old_ids.len() as int) =~= old_ids);
        assert(paths[r] == records[r].path@);
        assert(vanished(files, records, docs, ends, r, id));
    }
    if dropped.contains(id) {
        let j = choose|j: int|
            0 <= j < removed.len() && (#[trigger] records[removed[j] as int])@.chunk_ids.contains(id);
        assert(removed[j] < m);
        assert(vanished(files, records, docs, ends, removed[j] as int, id));
    }
    if exists|r: int| #[trigger] vanished(files, records, docs, ends, r, id) {
        let r = choose|r: int| #[trigger] vanished(files, records, docs, ends, r, id);
        let path = records[r].path@;
        if !file_paths(files).contains(path) {
            lemma_removed_lists(files, records, m, r);
            let j = choose|j: int| 0 <= j < removed.len() && #[trigger] removed[j] == r;
            assert(records[removed[j] as int]@.chunk_ids.contains(id));
        } else {
            let j = choose|j: int|
                0 <= j < changed.len() && #[trigger] files[changed[j] as int].rel@ == path
                    && !segments::doc_ids(docs_of_file(docs, ends, j)).contains(id);
            lookup::lemma_last_in(paths, path, paths.len() as int);
            assert(paths[r] == path);
            let found = record_for(records, path)->Some_0;
            assert(paths[found] == paths[r]);
            let old_ids = records[r]@.chunk_ids;
            lemma_missing(
                old_ids,
                segments::doc_ids(docs_of_file(docs, ends, j)),
                old_ids.len() as int,
                id,
            );
            assert(old_ids.take(old_ids.len() as int) =~= old_ids);
            assert(file_stale(files[changed[j] as int], records, docs_of_file(docs, ends, j)).contains(
                id,
            ));
        }
    }
}

proof fn lemma_nothing_changed(files: Seq<SourceFile>, records: Seq<FileRecord>, n: int)
    requires
        0 <= n <= files.len(),
        forall|i: int| 0 <= i < n ==> is_unchanged(#[trigger] files[i], records),
    ensures
        changed_files(files, records, n).len() == 0,
        kept_records(files, records, n).len() == n,
    decreases n,
{
    if n > 0 {
        lemma_nothing_changed(files, records, n - 1);
        assert(is_unchanged(files[n - 1], records));
    }
}

proof fn lemma_nothing_removed(files: Seq<SourceFile>, records: Seq<FileRecord>, m: int)
    requires
        0 <= m <= records.len(),
        forall|r: int|
            0 <= r < m ==> file_paths(files).contains((#[trigger] records[r]).path@),
    ensures
        removed_records(files, records, m).len() == 0,
    decreases m,
{
    if m > 0 {
        lemma_nothing_removed(files, records, m - 1);
        assert(file_paths(files).contains(records[m - 1].path@));
    }
}

/// A tree whose files are all as recorded asks for nothing: no file is
/// chunked again and no id is stale.
pub proof fn law_untouched_tree_costs_nothing(
    files: Seq<SourceFile>,
    records: Seq<FileRecord>,
    docs: Seq<DocTokens>,
    ends: Seq<usize>,
)
    requires
        forall|i: int| 0 <= i < files.len() ==> is_unchanged(#[trigger] files[i], records),
        forall|r: int|
            0 <= r < records.len() ==> file_paths(files).contains((#[trigger] records[r]).path@),
    ensures
        changed_files(files, records, files.len() as int).len() == 0,
        kept_records(files, records, files.len() as int).len() == files.len(),
        stale_ids(files, records, docs, ends).len() == 0,
{
    lemma_nothing_changed(files, records, files.len() as int);
    lemma_nothing_removed(files, records, records.len() as int);
}

// ---------------------------------------------------------------------------
// Where the index lives
// ---------------------------------------------------------------------------

/// `name-` and sixteen hexadecimal digits of the hash of the path.
pub open spec fn index_name(abs: Seq<char>) -> Seq<char> {
    (match paths::name_of(abs) {
        Some(n) => n,
        None => "repo"@,
    }) + "-"@ + text::hex(hash::fnv1a_spec(encode_utf8(abs)) as nat, 16)
}

/// Where the index of the tree at the absolute path `abs` lives by default:
/// under the user's cache directory, keyed by the path.
pub fn default_index_dir(cache_root: &str, abs: &str) -> (dir: String)
    ensures
        dir@ == paths::joined(cache_root@, index_name(abs@)),
{
    let h: u64 = hash::fnv1a(abs.as_bytes());
    let mut name: Vec<char> = match paths::file_name(abs) {
        Some(n) => text::chars_of(n.as_str()),
        None => text::chars_of("repo"),
    };
    text::append_str(&mut name, "-");
    text::push_hex(&mut name, h, 16);
    assert(name@ =~= index_name(abs@));
    let name = text::string_of(name.as_slice());
    paths::join(cache_root, name.as_str())
}

/// The cache directory: the one asked for, else `csearch` in the user's cache
/// directory, else in that of their home, else among temporary files.
pub open spec fn cache_root_of(
    asked: Option<Seq<char>>,
    xdg: Option<Seq<char>>,
    home: Option<Seq<char>>,
    temp: Seq<char>,
) -> Seq<char> {
    match (asked, xdg, home) {
        (Some(dir), _, _) => dir,
        (None, Some(base), _) => paths::joined(base, "csearch"@),
        (None, None, Some(h)) => paths::joined(paths::joined(h, ".cache"@), "csearch"@),
        (None, None, None) => paths::joined(temp, "csearch"@),
    }
}

pub open spec fn opt_text(t: Option<&str>) -> Option<Seq<char>> {
    match t {
        Some(s) => Some(s@),
        None => None,
    }
}

pub fn cache_root(asked: Option<&str>, xdg: Option<&str>, home: Option<&str>, temp: &str) -> (dir:
    String)
    ensures
        dir@ == cache_root_of(opt_text(asked), opt_text(xdg), opt_text(home), temp@),
{
    if let Some(dir) = asked {
        let chars = text::chars_of(dir);
        return text::string_of(chars.as_slice());
    }
    if let Some(base) = xdg {
        return paths::join(base, "csearch");
    }
    if let Some(h) = home {
        let base = paths::join(h, ".cache");
        return paths::join(base.as_str(), "csearch");
    }
    paths::join(temp, "csearch")
}

proof fn lemma_hex_plain(v: nat, n: nat)
    ensures
        text::hex(v, n).len() == n,
        forall|i: int|
            0 <= i < n ==> #[trigger] text::hex(v, n)[i] != '/' && text::hex(v, n)[i] != '.',
    decreases n,
{
    if n > 0 {
        lemma_hex_plain(v / 16, (n - 1) as nat);
        let front = text::hex(v / 16, (n - 1) as nat);
        assert forall|i: int| 0 <= i < n implies #[trigger] text::hex(v, n)[i] != '/' by {
            if i < n - 1 {
                assert(front[i] != '/');
            }
        }
    }
}

/// Indexing a tree never writes into it: unless the cache directory lies in
/// the tree, the index directory does not.
pub proof fn law_index_stays_outside_the_tree(cache: Seq<char>, abs: Seq<char>)
    requires
        abs.len() > 1 ==> abs.last() != '/',
        !paths::within(cache, abs),
    ensures
        !paths::within(paths::joined(cache, index_name(abs)), abs),
{
    reveal_strlit("repo");
    reveal_strlit("-");
    let name = index_name(abs);
    paths::lemma_name_plain(abs);
    lemma_hex_plain(hash::fnv1a_spec(encode_utf8(abs)) as nat, 16);
    let head = match paths::name_of(abs) {
        Some(n) => n,
        None => "repo"@,
    };
    let digits = text::hex(hash::fnv1a_spec(encode_utf8(abs)) as nat, 16);
    assert(paths::plain(name)) by {
        assert forall|i: int| 0 <= i < name.len() implies #[trigger] name[i] != '/' by {
            if i < head.len() {
                assert(name[i] == head[i]);
            } else if i == head.len() {
                assert(name[i] == '-');
            } else {
                assert(name[i] == digits[i - head.len() - 1]);
            }
        }
    }
    assert(name.last() == digits[15]);
    paths::lemma_entry_name(cache, name);
    if paths::within(paths::joined(cache, name), abs) {
        paths::law_entries_stay_outside(cache, name, abs);
        assert(name.len() == head.len() + 17);
    }
}

/// The directory of an index is named after the tree and the hash of its
/// path.
pub proof fn law_index_directory_is_keyed_by_the_path(cache: Seq<char>, abs: Seq<char>)
    ensures
        paths::name_of(paths::joined(cache, index_name(abs))) == Some(index_name(abs)),
{
    reveal_strlit("repo");
    reveal_strlit("-");
    let name = index_name(abs);
    paths::lemma_name_plain(abs);
    let digits = text::hex(hash::fnv1a_spec(encode_utf8(abs)) as nat, 16);
    lemma_hex_plain(hash::fnv1a_spec(encode_utf8(abs)) as nat, 16);
    let head = match paths::name_of(abs) {
        Some(n) => n,
        None => "repo"@,
    };
    assert forall|i: int| 0 <= i < name.len() implies #[trigger] name[i] != '/' by {
        if i < head.len() {
            assert(name[i] == head[i]);
        } else if i == head.len() {
            assert(name[i] == '-');
        } else {
            assert(name[i] == digits[i - head.len() - 1]);
        }
    }
    assert(name.last() == digits[15]);
    paths::lemma_entry_name(cache, name);
}

// ---------------------------------------------------------------------------
// Timing
// ---------------------------------------------------------------------------

/// Phase timing of rebuilds, in the unit of the clock that it is given.
pub struct PhaseTimer {
    pub on: bool,
    pub last: u64,
}

impl PhaseTimer {
    pub fn new(on: bool, now: u64) -> (t: PhaseTimer)
        ensures
            t.on == on,
            t.last == now,
    {
        PhaseTimer { on, last: now }
    }

    /// The time since the previous mark, if timing is on.
    pub fn mark(&mut self, now: u64) -> (r: Option<u64>)
        ensures
            final(self).on == old(self).on,
            final(self).last == now,
            r == if !old(self).on {
                None
            } else if now < old(self).last {
                Some(0u64)
            } else {
                Some((now - old(self).last) as u64)
            },
    {
        let since: u64 = if now < self.last {
            0
        } else {
            now - self.last
        };
        self.last = now;
        if self.on {
            Some(since)
        } else {
            None
        }
    }
}

/// The last of different names is the only one.
proof fn lemma_record_for(records: Seq<FileRecord>, path: Seq<char>, r: int)
    requires
        record_paths(records).no_duplicates(),
    ensures
        record_for(records, path) == Some(r) <==> 0 <= r < records.len() && records[r].path@ == path,
{
    let names = record_paths(records);
    lookup::lemma_last_in(names, path, names.len() as int);
    if 0 <= r < records.len() && records[r].path@ == path {
        assert(names[r] == path);
        let q = record_for(records, path).unwrap();
        assert(names[q] == path);
    }
}

/// The file stands in the records as it is: same path, length and modification
/// time.
pub open spec fn recorded(file: SourceFile, records: Seq<FileRecord>) -> bool {
    exists|r: int|
        0 <= r < records.len() && (#[trigger] records[r]).path@ == file.rel@ && records[r].len
            == file.len && records[r].mtime_ns == file.mtime_ns
}

proof fn lemma_unchanged(file: SourceFile, records: Seq<FileRecord>)
    requires
        record_paths(records).no_duplicates(),
    ensures
        is_unchanged(file, records) == recorded(file, records),
{
    if is_unchanged(file, records) {
        let r = record_for(records, file.rel@).unwrap();
        lemma_record_for(records, file.rel@, r);
    }
    if recorded(file, records) {
        let r = choose|r: int|
            0 <= r < records.len() && (#[trigger] records[r]).path@ == file.rel@ && records[r].len
                == file.len && records[r].mtime_ns == file.mtime_ns;
        lemma_record_for(records, file.rel@, r);
    }
}

proof fn lemma_changed_files(files: Seq<SourceFile>, records: Seq<FileRecord>, n: int)
    requires
        0 <= n <= files.len() <= usize::MAX,
    ensures
        forall|i: int, j: int|
            0 <= i < j < changed_files(files, records, n).len() ==> #[trigger] changed_files(
                files,
                records,
                n,
            )[i] < #[trigger] changed_files(files, records, n)[j],
        forall|f: usize| #[trigger]
            changed_files(files, records, n).contains(f) <==> f < n && !is_unchanged(
                files[f as int],
                records,
            ),
    decreases n,
{
    let all = changed_files(files, records, n);
    if n > 0 {
        lemma_changed_files(files, records, n - 1);
        let front = changed_files(files, records, n - 1);
        if !is_unchanged(files[n - 1], records) {
            assert forall|f: usize| #[trigger] all.contains(f) <==> front.contains(f) || f == n
                - 1 by {
                lemma_pushed(front, (n - 1) as usize, f);
            }
            assert forall|i: int, j: int| 0 <= i < j < all.len() implies #[trigger] all[i]
                < #[trigger] all[j] by {
                if j == front.len() {
                    assert(front.contains(front[i]));
                }
            }
        }
    }
}

proof fn lemma_removed_records(files: Seq<SourceFile>, records: Seq<FileRecord>, n: int)
    requires
        0 <= n <= records.len() <= usize::MAX,
    ensures
        forall|i: int, j: int|
            0 <= i < j < removed_records(files, records, n).len() ==> #[trigger] removed_records(
                files,
                records,
                n,
            )[i] < #[trigger] removed_records(files, records, n)[j],
        forall|r: usize| #[trigger]
            removed_records(files, records, n).contains(r) <==> r < n && !file_paths(
                files,
            ).contains(records[r as int].path@),
    decreases n,
{
    let all = removed_records(files, records, n);
    if n > 0 {
        lemma_removed_records(files, records, n - 1);
        let front = removed_records(files, records, n - 1);
        if !file_paths(files).contains(records[n - 1].path@) {
            assert forall|r: usize| #[trigger] all.contains(r) <==> front.contains(r) || r == n
                - 1 by {
                lemma_pushed(front, (n - 1) as usize, r);
            }
            assert forall|i: int, j: int| 0 <= i < j < all.len() implies #[trigger] all[i]
                < #[trigger] all[j] by {
                if j == front.len() {
                    assert(front.contains(front[i]));
                }
            }
        }
    }
}

proof fn lemma_kept_records(files: Seq<SourceFile>, records: Seq<FileRecord>, n: int, r: usize)
    requires
        0 <= n <= files.len(),
        records.len() <= usize::MAX,
        record_paths(records).no_duplicates(),
    ensures
        kept_records(files, records, n).contains(r) <==> r < records.len() && exists|f: int|
            0 <= f < n && (#[trigger] files[f]).rel@ == records[r as int].path@ && files[f].len
                == records[r as int].len && files[f].mtime_ns == records[r as int].mtime_ns,
    decreases n,
{
    let all = kept_records(files, records, n);
    if n > 0 {
        lemma_kept_records(files, records, n - 1, r);
        let front = kept_records(files, records, n - 1);
        let file = files[n - 1];
        lemma_unchanged(file, records);
        if is_unchanged(file, records) {
            let q = record_for(records, file.rel@).unwrap();
            lemma_record_for(records, file.rel@, q);
            lemma_pushed(front, q as usize, r);
        }
        if r < records.len() && file.rel@ == records[r as int].path@ && file.len
            == records[r as int].len && file.mtime_ns == records[r as int].mtime_ns {
            lemma_record_for(records, file.rel@, r as int);
        }
    }
}

proof fn lemma_pushed(s: Seq<usize>, v: usize, x: usize)
    ensures
        s.push(v).contains(x) <==> s.contains(x) || x == v,
{
    let t = s.push(v);
    if t.contains(x) {
        let i = choose|i: int| 0 <= i < t.len() && t[i] == x;
        if i < s.len() {
            assert(s[i] == x);
        }
    }
    if s.contains(x) {
        let i = choose|i: int| 0 <= i < s.len() && s[i] == x;
        assert(t[i] == x);
    }
    if x == v {
        assert(t[s.len() as int] == x);
    }
}

/// What has changed in a tree: a file is to be indexed again exactly if no
/// record has its path, length and modification time; a record is kept exactly
/// if some file is still as it says, and is removed exactly if no file has its
/// path any more.
pub proof fn law_tree_diff(
    d: TreeDiff,
    files: Seq<SourceFile>,
    records: Seq<FileRecord>,
    f: usize,
    r: usize,
)
    requires
        d.of(files, records),
        files.len() <= usize::MAX,
        records.len() <= usize::MAX,
        record_paths(records).no_duplicates(),
    ensures
        d.changed@.contains(f) <==> f < files.len() && forall|q: int|
            0 <= q < records.len() ==> !((#[trigger] records[q]).path@ == files[f as int].rel@
                && records[q].len == files[f as int].len && records[q].mtime_ns
                == files[f as int].mtime_ns),
        d.kept@.contains(r) <==> r < records.len() && exists|g: int|
            0 <= g < files.len() && (#[trigger] files[g]).rel@ == records[r as int].path@
                && files[g].len == records[r as int].len && files[g].mtime_ns
                == records[r as int].mtime_ns,
        d.removed@.contains(r) <==> r < records.len() && forall|g: int|
            0 <= g < files.len() ==> (#[trigger] files[g]).rel@ != records[r as int].path@,
        forall|i: int, j: int|
            0 <= i < j < d.changed@.len() ==> #[trigger] d.changed@[i] < #[trigger] d.changed@[j],
        forall|i: int, j: int|
            0 <= i < j < d.removed@.len() ==> #[trigger] d.removed@[i] < #[trigger] d.removed@[j],
{
    lemma_changed_files(files, records, files.len() as int);
    lemma_removed_records(files, records, records.len() as int);
    lemma_kept_records(files, records, files.len() as int, r);
    if f < files.len() {
        lemma_unchanged(files[f as int], records);
    }
    if r < records.len() {
        let paths = file_paths(files);
        let path = records[r as int].path@;
        if paths.contains(path) {
            let g = choose|g: int| 0 <= g < paths.len() && paths[g] == path;
            assert(files[g].rel@ == path);
        }
        assert forall|g: int| 0 <= g < files.len() && (#[trigger] files[g]).rel@ == path implies
            paths.contains(path) by {
            assert(paths[g] == path);
        }
    }
}

/// After an update of the index no chunk is left that the tree no longer has,
/// and chunks that the update does not speak of are as they were.
pub proof fn law_stale_chunks_disappear(
    a: SegmentedIndex,
    b: SegmentedIndex,
    stale: Seq<Seq<char>>,
    docs: Seq<DocTokens>,
    out: UpsertOutcome,
    id: Seq<char>,
    si: int,
    d: int,
)
    requires
        is_update(a, b, stale, docs, out),
        docs.len() <= usize::MAX,
        !segments::doc_ids(docs).contains(id),
    ensures
        stale.contains(id) && segments::found_alive(a.segments@, id) ==> !segments::alive(
            b.segments@,
            id,
            si,
            d,
        ),
        !stale.contains(id) ==> (segments::alive(b.segments@, id, si, d) <==> segments::alive(
            a.segments@,
            id,
            si,
            d,
        )),
{
    let mid = choose|mid: SegmentedIndex| #[trigger] update_steps(a, mid, b, stale, docs, out);
    segments::law_only_named_documents_are_deleted(a.segments@, mid.segments@, stale, id, si, d);
    segments::law_upsert_leaves_others_alone(mid, b, docs, id, si, d);
}

/// After an update every file of the tree has its record: its path, length and
/// modification time, and no others are recorded.
pub proof fn law_every_file_is_recorded(
    files: Seq<SourceFile>,
    records: Seq<FileRecord>,
    docs: Seq<DocTokens>,
    ends: Seq<usize>,
    f: int,
)
    requires
        files.len() <= usize::MAX,
        records.len() <= usize::MAX,
        0 <= f < files.len(),
    ensures
        new_records(files, records, docs, ends).len() == files.len(),
        exists|r: int|
            {
                &&& 0 <= r < files.len()
                &&& (#[trigger] new_records(files, records, docs, ends)[r]).path == files[f].rel@
                &&& new_records(files, records, docs, ends)[r].len == files[f].len
                &&& new_records(files, records, docs, ends)[r].mtime_ns == files[f].mtime_ns
            },
{
    let n = files.len() as int;
    let kept = kept_records(files, records, n);
    let changed = changed_files(files, records, n);
    let all = new_records(files, records, docs, ends);
    let i = lemma_kept_or_changed(files, records, n, f);
    if is_unchanged(files[f], records) {
        lookup::law_last_place(record_paths(records), files[f].rel@);
        let r = record_for(records, files[f].rel@)->Some_0;
        assert(record_paths(records)[r] == records[r].path@);
        assert(all[i] == records[r]@);
    } else {
        assert(all[kept.len() + i] == record_of(files[f], docs_of_file(docs, ends, i)));
    }
}

/// Each file is kept or changed, and counts once.
proof fn lemma_kept_or_changed(
    files: Seq<SourceFile>,
    records: Seq<FileRecord>,
    n: int,
    f: int,
) -> (i: int)
    requires
        0 <= f < n <= files.len() <= usize::MAX,
    ensures
        kept_records(files, records, n).len() + changed_files(files, records, n).len() == n,
        is_unchanged(files[f], records) ==> 0 <= i < kept_records(files, records, n).len()
            && kept_records(files, records, n)[i] == record_for(records, files[f].rel@)->Some_0 as usize,
        !is_unchanged(files[f], records) ==> 0 <= i < changed_files(files, records, n).len()
            && changed_files(files, records, n)[i] == f,
    decreases n,
{
    if f + 1 < n {
        lemma_kept_or_changed(files, records, n - 1, f)
    } else {
        lemma_kept_count(files, records, n - 1);
        if is_unchanged(files[f], records) {
            kept_records(files, records, n).len() - 1
        } else {
            changed_files(files, records, n).len() - 1
        }
    }
}

proof fn lemma_kept_count(files: Seq<SourceFile>, records: Seq<FileRecord>, n: int)
    requires
        0 <= n <= files.len(),
    ensures
        kept_records(files, records, n).len() + changed_files(files, records, n).len() == n,
    decreases n,
{
    if n > 0 {
        lemma_kept_count(files, records, n - 1);
    }
}

} // verus!
