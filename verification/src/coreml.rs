//! Static-shape encoder models: which of the installed ones serve a request,
//! and how token rows are padded to a shape.

use crate::order;
use crate::paths;
use crate::text;
use vstd::prelude::*;
use vstd::slice::slice_subrange;

verus! {

/// Documents per batch where no document model is installed.
pub const DEFAULT_DOC_BATCH: usize = 8;

/// The shape of a compiled model.
#[derive(Clone, Copy, PartialEq, Eq, Debug, Structural)]
pub struct Shape {
    pub batch: usize,
    pub seq: usize,
    /// Which of the listed files holds the model.
    pub file: usize,
}

/// Where compiled models live.
pub fn model_dir(cache_root: &str) -> (dir: String)
    ensures
        dir@ == paths::joined(cache_root@, "coreml"@),
{
    paths::join(cache_root, "coreml")
}

/// The first `_s` of `s` stands at `i`.
pub open spec fn first_mark(s: Seq<char>, i: int) -> bool {
    &&& 0 <= i < s.len() - 1
    &&& s[i] == '_' && s[i + 1] == 's'
    &&& forall|k: int| 0 <= k < i ==> !(#[trigger] s[k] == '_' && s[k + 1] == 's')
}

/// The shape between the ends of a model's file name: two numbers around the
/// first `_s`, neither of them zero.
pub open spec fn spells_shape(spec: Seq<char>, batch: nat, seq: nat) -> bool {
    exists|i: int| #[trigger]
        first_mark(spec, i) && text::number(spec.take(i), usize::MAX as nat) == Some(batch)
            && text::number(spec.skip(i + 2), usize::MAX as nat) == Some(seq) && batch > 0 && seq
            > 0
}

/// `coderank_b{batch}_s{seq}.mlmodelc` is the name of a model of that shape.
pub open spec fn names_shape(name: Seq<char>, batch: nat, seq: nat) -> bool {
    let head = "coderank_b"@.len() as int;
    let tail = ".mlmodelc"@.len() as int;
    &&& text::begins(name, "coderank_b"@)
    &&& text::ends(name.skip(head), ".mlmodelc"@)
    &&& spells_shape(name.skip(head).take(name.len() - head - tail), batch, seq)
}

fn find_mark(s: &[char]) -> (r: Option<usize>)
    ensures
        r matches Some(i) ==> first_mark(s@, i as int),
        r is None ==> forall|i: int| !#[trigger] first_mark(s@, i),
{
    let n: usize = s.len();
    if n < 2 {
        return None;
    }
    let mut i: usize = 0;
    while i < n - 1
        invariant
            n == s@.len(),
            n >= 2,
            i <= n - 1,
            forall|k: int| 0 <= k < i ==> !(#[trigger] s@[k] == '_' && s@[k + 1] == 's'),
        decreases n - i,
    {
        if s[i] == '_' && s[i + 1] == 's' {
            return Some(i);
        }
        i += 1;
    }
    None
}

proof fn lemma_mark_unique(s: Seq<char>, a: int, b: int)
    requires
        first_mark(s, a),
        first_mark(s, b),
    ensures
        a == b,
{
    if a < b {
        assert(!(s[a] == '_' && s[a + 1] == 's'));
    } else if b < a {
        assert(!(s[b] == '_' && s[b + 1] == 's'));
    }
}

/// The shape that a file name spells, if it is that of a model.
pub fn parse_model_name(name: &str) -> (r: Option<(usize, usize)>)
    ensures
        r matches Some(p) ==> names_shape(name@, p.0 as nat, p.1 as nat),
        r is None ==> forall|b: nat, s: nat| !#[trigger] names_shape(name@, b, s),
{
    proof {
        reveal_strlit("coderank_b");
        reveal_strlit(".mlmodelc");
    }
    let chars = text::chars_of(name);
    let n: usize = chars.len();
    if !text::starts_with(chars.as_slice(), "coderank_b") {
        return None;
    }
    let rest: &[char] = slice_subrange(chars.as_slice(), 10, n);
    assert(rest@ =~= name@.skip(10));
    if !text::ends_with(rest, ".mlmodelc") {
        return None;
    }
    let spec: &[char] = slice_subrange(rest, 0, n - 19);
    let ghost inner = name@.skip(10).take(name@.len() - 10 - 9);
    assert(spec@ =~= inner);
    let at: usize = match find_mark(spec) {
        Some(i) => i,
        None => {
            return None;
        },
    };
    let len: usize = spec.len();
    let left: &[char] = slice_subrange(spec, 0, at);
    let right: &[char] = slice_subrange(spec, at + 2, len);
    assert(left@ =~= inner.take(at as int));
    assert(right@ =~= inner.skip(at + 2));
    let batch = text::parse_number(left, usize::MAX as u64);
    let seq = text::parse_number(right, usize::MAX as u64);
    proof {
        assert forall|b: nat, s: nat| #[trigger] names_shape(name@, b, s) implies text::number(
            inner.take(at as int),
            usize::MAX as nat,
        ) == Some(b) && text::number(inner.skip(at + 2), usize::MAX as nat) == Some(s) && b > 0 && s
            > 0 by {
            let i = choose|i: int| #[trigger]
                first_mark(inner, i) && text::number(inner.take(i), usize::MAX as nat) == Some(b)
                    && text::number(inner.skip(i + 2), usize::MAX as nat) == Some(s) && b > 0 && s
                    > 0;
            lemma_mark_unique(inner, i, at as int);
        }
    }
    match (batch, seq) {
        (Some(b), Some(s)) => {
            if b == 0 || s == 0 {
                None
            } else {
                assert(spells_shape(inner, b as nat, s as nat));
                Some((b as usize, s as usize))
            }
        },
        _ => None,
    }
}

/// The installed models.
pub struct Family {
    /// Document models, ascending by sequence length.
    pub docs: Vec<Shape>,
    /// The batch-1 model for queries.
    pub query: Option<Shape>,
}

/// The document models among the first `n` files, in file order.
pub open spec fn doc_shapes(found: Seq<Option<(usize, usize)>>, n: int) -> Seq<Shape>
    decreases n,
{
    if n <= 0 {
        Seq::empty()
    } else {
        let front = doc_shapes(found, n - 1);
        match found[n - 1] {
            Some(p) => if p.0 == 1 {
                front
            } else {
                front.push(Shape { batch: p.0, seq: p.1, file: (n - 1) as usize })
            },
            None => front,
        }
    }
}

/// The query model among the first `n` files: the first of the longest.
pub open spec fn query_shape(found: Seq<Option<(usize, usize)>>, n: int) -> Option<Shape>
    decreases n,
{
    if n <= 0 {
        None
    } else {
        let front = query_shape(found, n - 1);
        match found[n - 1] {
            Some(p) => if p.0 == 1 && (front is None || front->Some_0.seq < p.1) {
                Some(Shape { batch: 1, seq: p.1, file: (n - 1) as usize })
            } else {
                front
            },
            None => front,
        }
    }
}

/// `sorted` holds the same shapes as `shapes`, ascending by sequence length.
pub open spec fn by_length(shapes: Seq<Shape>, sorted: Seq<Shape>) -> bool {
    &&& sorted.to_multiset() == shapes.to_multiset()
    &&& sorted.len() == shapes.len()
    &&& forall|i: int, j: int|
        0 <= i < j < sorted.len() ==> (#[trigger] sorted[i]).seq <= (#[trigger] sorted[j]).seq
}

/// The family of the listed models, or nothing when none is usable.
pub fn family(found: &[Option<(usize, usize)>]) -> (r: Option<Family>)
    ensures
        ({
            let docs = doc_shapes(found@, found@.len() as int);
            let query = query_shape(found@, found@.len() as int);
            match r {
                Some(f) => {
                    &&& by_length(docs, f.docs@)
                    &&& f.query == query
                    &&& docs.len() > 0 || query is Some
                },
                None => docs.len() == 0 && query is None,
            }
        }),
{
    let n: usize = found.len();
    let mut docs: Vec<Shape> = Vec::new();
    let mut query: Option<Shape> = None;
    let mut i: usize = 0;
    while i < n
        invariant
            i <= n,
            n == found@.len(),
            docs@ == doc_shapes(found@, i as int),
            query == query_shape(found@, i as int),
        decreases n - i,
    {
        if let Some((batch, seq)) = found[i] {
            if batch == 1 {
                let longer: bool = match query {
                    Some(q) => q.seq < seq,
                    None => true,
                };
                if longer {
                    query = Some(Shape { batch: 1, seq, file: i });
                }
            } else {
                docs.push(Shape { batch, seq, file: i });
            }
        }
        i += 1;
    }
    if docs.len() == 0 && query.is_none() {
        return None;
    }
    let ghost listed = docs@;
    let m: usize = docs.len();
    let mut keys: Vec<u64> = Vec::new();
    let mut j: usize = 0;
    while j < m
        invariant
            j <= m,
            m == docs@.len(),
            keys@.len() == j,
            forall|k: int| 0 <= k < j ==> #[trigger] keys@[k] == docs@[k].seq,
        decreases m - j,
    {
        keys.push(docs[j].seq as u64);
        j += 1;
    }
    let by_seq = order::order_by_key(keys.as_slice());
    proof {
        order::lemma_increasing_distinct(by_seq@, m as int, order::key_less(keys@));
        order::lemma_rearranged(listed, by_seq@);
    }
    let sorted = order::permute(docs, &by_seq);
    proof {
        assert(order::arranged(listed, by_seq@) =~= Seq::new(
            by_seq@.len(),
            |i: int| listed[by_seq@[i] as int],
        ));
        assert forall|a: int, b: int| 0 <= a < b < sorted@.len() implies (#[trigger] sorted@[a]).seq
            <= (#[trigger] sorted@[b]).seq by {
            let x = by_seq@[a] as int;
            let y = by_seq@[b] as int;
            assert(order::key_less(keys@)(x, y));
            assert(keys@[x] == listed[x].seq);
            assert(keys@[y] == listed[y].seq);
        }
        listed.to_multiset_ensures();
        sorted@.to_multiset_ensures();
    }
    Some(Family { docs: sorted, query })
}

/// Why documents cannot be encoded.
#[derive(Clone, Copy, PartialEq, Eq, Debug, Structural)]
pub enum ShapeError {
    NoModels,
    /// A document is longer than every installed shape.
    TooLong,
    /// No shape that is long enough passed validation.
    NoneStable,
    /// More documents than the shape takes.
    BatchTooLarge,
}

/// The smallest of the first `n` batch sizes.
pub open spec fn smallest_batch(docs: Seq<Shape>, n: int) -> Option<usize>
    decreases n,
{
    if n <= 0 {
        None
    } else {
        match smallest_batch(docs, n - 1) {
            Some(b) => if docs[n - 1].batch < b {
                Some(docs[n - 1].batch)
            } else {
                Some(b)
            },
            None => Some(docs[n - 1].batch),
        }
    }
}

/// The first shape that is long enough and stable.
pub open spec fn is_choice(docs: Seq<Shape>, stable: Seq<bool>, longest: nat, i: int) -> bool {
    &&& 0 <= i < docs.len()
    &&& docs[i].seq >= longest && stable[i]
    &&& forall|k: int| 0 <= k < i ==> !((#[trigger] docs[k]).seq >= longest && stable[k])
}

impl Family {
    pub fn has_query_model(&self) -> (r: bool)
        ensures
            r == self.query is Some,
    {
        self.query.is_some()
    }

    /// Do the installed shapes keep documents of up to `cap` tokens whole?
    pub fn supports_documents(&self, cap: usize) -> (r: bool)
        ensures
            r == exists|i: int| 0 <= i < self.docs@.len() && (#[trigger] self.docs@[i]).seq >= cap,
    {
        let mut i: usize = 0;
        while i < self.docs.len()
            invariant
                i <= self.docs@.len(),
                forall|j: int| 0 <= j < i ==> (#[trigger] self.docs@[j]).seq < cap,
            decreases self.docs@.len() - i,
        {
            if self.docs[i].seq >= cap {
                assert(self.docs@[i as int].seq >= cap);
                return true;
            }
            i += 1;
        }
        false
    }

    /// Does the installed query model keep queries of up to `cap` tokens
    /// whole?
    pub fn supports_queries(&self, cap: usize) -> (r: bool)
        ensures
            r == (self.query matches Some(q) && q.seq >= cap),
    {
        match self.query {
            Some(q) => q.seq >= cap,
            None => false,
        }
    }

    /// How many documents every document model takes at once.
    pub fn doc_batch(&self) -> (n: usize)
        ensures
            n == match smallest_batch(self.docs@, self.docs@.len() as int) {
                Some(b) => b,
                None => DEFAULT_DOC_BATCH,
            },
    {
        let mut best: Option<usize> = None;
        let mut i: usize = 0;
        while i < self.docs.len()
            invariant
                i <= self.docs@.len(),
                best == smallest_batch(self.docs@, i as int),
            decreases self.docs@.len() - i,
        {
            let b: usize = self.docs[i].batch;
            best = match best {
                Some(x) => {
                    if b < x {
                        Some(b)
                    } else {
                        Some(x)
                    }
                },
                None => Some(b),
            };
            i += 1;
        }
        match best {
            Some(b) => b,
            None => DEFAULT_DOC_BATCH,
        }
    }

    /// The shape for a query of `len` tokens, if one takes it whole.
    pub fn query_fits(&self, len: usize) -> (r: Option<Shape>)
        ensures
            r == match self.query {
                Some(q) => if len <= q.seq {
                    Some(q)
                } else {
                    None
                },
                None => None,
            },
    {
        match self.query {
            Some(q) => {
                if len <= q.seq {
                    Some(q)
                } else {
                    None
                }
            },
            None => None,
        }
    }

    /// The shape for `count` documents of at most `longest` tokens: the
    /// shortest that takes them whole and is known to keep the rows of a
    /// batch apart. A document is never shortened.
    pub fn choose_shape(&self, longest: usize, count: usize, stable: &[bool]) -> (r: Result<
        Shape,
        ShapeError,
    >)
        requires
            stable@.len() == self.docs@.len(),
            forall|i: int, j: int|
                0 <= i < j < self.docs@.len() ==> (#[trigger] self.docs@[i]).seq <= (
                #[trigger] self.docs@[j]).seq,
        ensures
            match r {
                Ok(s) => exists|i: int| #[trigger]
                    is_choice(self.docs@, stable@, longest as nat, i) && s == self.docs@[i] && count
                        <= s.batch,
                Err(ShapeError::NoModels) => self.docs@.len() == 0,
                Err(ShapeError::TooLong) => self.docs@.len() > 0 && forall|i: int|
                    0 <= i < self.docs@.len() ==> (#[trigger] self.docs@[i]).seq < longest,
                Err(ShapeError::NoneStable) => {
                    &&& exists|i: int|
                        0 <= i < self.docs@.len() && (#[trigger] self.docs@[i]).seq >= longest
                    &&& forall|i: int|
                        !#[trigger] is_choice(self.docs@, stable@, longest as nat, i)
                },
                Err(ShapeError::BatchTooLarge) => exists|i: int| #[trigger]
                    is_choice(self.docs@, stable@, longest as nat, i) && count
                        > self.docs@[i].batch,
            },
    {
        let n: usize = self.docs.len();
        if n == 0 {
            return Err(ShapeError::NoModels);
        }
        if longest > self.docs[n - 1].seq {
            return Err(ShapeError::TooLong);
        }
        let mut i: usize = 0;
        while i < n
            invariant
                i <= n,
                n == self.docs@.len(),
                n == stable@.len(),
                n > 0,
                self.docs@[n - 1].seq >= longest,
                forall|k: int|
                    0 <= k < i ==> !((#[trigger] self.docs@[k]).seq >= longest && stable@[k]),
            decreases n - i,
        {
            if self.docs[i].seq >= longest && stable[i] {
                assert(is_choice(self.docs@, stable@, longest as nat, i as int));
                if count > self.docs[i].batch {
                    return Err(ShapeError::BatchTooLarge);
                }
                return Ok(self.docs[i]);
            }
            i += 1;
        }
        assert(self.docs@[n - 1].seq >= longest);
        Err(ShapeError::NoneStable)
    }
}

/// `n` zeros.
pub open spec fn zeros(n: nat) -> Seq<u32> {
    Seq::new(n, |i: int| 0u32)
}

/// A row of `seq` numbers: those given, then zeros.
pub open spec fn padded(row: Seq<u32>, seq: nat) -> Seq<u32> {
    row + zeros((seq - row.len()) as nat)
}

/// The first `n` rows of a batch, one after the other; rows beyond the given
/// ones are zero.
pub open spec fn padded_rows(rows: Seq<Vec<u32>>, seq: nat, n: int) -> Seq<u32>
    decreases n,
{
    if n <= 0 {
        Seq::empty()
    } else {
        padded_rows(rows, seq, n - 1) + (if n - 1 < rows.len() {
            padded(rows[n - 1]@, seq)
        } else {
            zeros(seq)
        })
    }
}

/// Lay token rows out in a batch of `batch` rows of `seq` tokens each.
pub fn pad_rows(rows: &Vec<Vec<u32>>, batch: usize, seq: usize) -> (out: Vec<u32>)
    requires
        rows@.len() <= batch,
        forall|i: int| 0 <= i < rows@.len() ==> (#[trigger] rows@[i])@.len() <= seq,
    ensures
        out@ == padded_rows(rows@, seq as nat, batch as int),
{
    let given: usize = rows.len();
    let mut out: Vec<u32> = Vec::new();
    let mut i: usize = 0;
    while i < batch
        invariant
            i <= batch,
            given == rows@.len(),
            forall|k: int| 0 <= k < rows@.len() ==> (#[trigger] rows@[k])@.len() <= seq,
            out@ == padded_rows(rows@, seq as nat, i as int),
        decreases batch - i,
    {
        let ghost start = out@;
        let len: usize = if i < given { rows[i].len() } else { 0 };
        assert(i < given ==> rows@[i as int]@.len() <= seq);
        let ghost row = if i < given {
            padded(rows@[i as int]@, seq as nat)
        } else {
            zeros(seq as nat)
        };
        let mut j: usize = 0;
        assert(start + row.take(0) =~= start);
        while j < seq
            invariant
                i < batch,
                given == rows@.len(),
                j <= seq,
                len <= seq,
                i < given ==> len == rows@[i as int]@.len(),
                i >= given ==> len == 0,
                row == (if i < given {
                    padded(rows@[i as int]@, seq as nat)
                } else {
                    zeros(seq as nat)
                }),
                out@ == start + row.take(j as int),
            decreases seq - j,
        {
            if j < len {
                out.push(rows[i][j]);
            } else {
                out.push(0);
            }
            assert(out@ =~= start + row.take(j + 1));
            j += 1;
        }
        assert(row.take(seq as int) =~= row);
        i += 1;
    }
    out
}

/// Every row of a batch is where the shape puts it.
pub proof fn law_rows_do_not_mix(rows: Seq<Vec<u32>>, seq: nat, n: int, i: int, j: int)
    requires
        0 <= i < n,
        0 <= j < seq,
        forall|k: int| 0 <= k < rows.len() ==> (#[trigger] rows[k])@.len() <= seq,
    ensures
        padded_rows(rows, seq, n).len() == n * seq,
        i * seq + j < n * seq,
        padded_rows(rows, seq, n)[i * seq + j] == if i < rows.len() && j < rows[i]@.len() {
            rows[i]@[j]
        } else {
            0
        },
    decreases n,
{
    let front = padded_rows(rows, seq, n - 1);
    if n - 1 > 0 {
        law_rows_do_not_mix(
            rows,
            seq,
            n - 1,
            if i < n - 1 {
                i
            } else {
                0
            },
            j,
        );
    }
    assert(front.len() == (n - 1) * seq);
    if n - 1 < rows.len() {
        assert(rows[n - 1]@.len() <= seq);
    }
    assert((n - 1) * seq + seq == n * seq) by (nonlinear_arith);
    if i < n - 1 {
        assert(i * seq + j < (n - 1) * seq) by (nonlinear_arith)
            requires
                0 <= i < n - 1,
                0 <= j < seq,
        ;
    } else {
        assert(i * seq + j - front.len() == j);
    }
    assert(0 <= i * seq) by (nonlinear_arith)
        requires
            0 <= i,
    ;
}

/// Queries use the longest shape that takes one text at a time.
pub proof fn law_query_shape(found: Seq<Option<(usize, usize)>>, n: int, i: int)
    requires
        0 <= n <= found.len() <= usize::MAX,
        0 <= i < n,
        found[i] matches Some(p) && p.0 == 1,
    ensures
        query_shape(found, n) matches Some(s) && {
            &&& s.batch == 1
            &&& s.file < n
            &&& found[s.file as int] == Some((1usize, s.seq))
            &&& s.seq >= found[i]->Some_0.1
        },
    decreases n,
{
    if i + 1 < n {
        law_query_shape(found, n - 1, i);
    } else {
        lemma_query_shape(found, n - 1);
    }
}

proof fn lemma_query_shape(found: Seq<Option<(usize, usize)>>, n: int)
    requires
        0 <= n <= found.len() <= usize::MAX,
    ensures
        query_shape(found, n) matches Some(s) ==> s.batch == 1 && s.file < n && found[s.file as int]
            == Some((1usize, s.seq)),
    decreases n,
{
    if n > 0 {
        lemma_query_shape(found, n - 1);
    }
}

/// Documents use the shapes that take more than one text at a time.
pub proof fn law_document_shapes(found: Seq<Option<(usize, usize)>>, n: int, s: Shape)
    requires
        0 <= n <= found.len() <= usize::MAX,
    ensures
        doc_shapes(found, n).contains(s) <==> s.file < n && s.batch != 1 && found[s.file as int]
            == Some((s.batch, s.seq)),
    decreases n,
{
    if n > 0 {
        law_document_shapes(found, n - 1, s);
        let front = doc_shapes(found, n - 1);
        let all = doc_shapes(found, n);
        if front.contains(s) {
            let i = choose|i: int| 0 <= i < front.len() && front[i] == s;
            assert(all[i] == s);
        }
        if all.contains(s) && !front.contains(s) {
            let i = choose|i: int| 0 <= i < all.len() && all[i] == s;
            if i < front.len() {
                assert(front[i] == s);
            }
        }
        if s.file == n - 1 && s.batch != 1 && found[n - 1] == Some((s.batch, s.seq)) {
            assert(all[front.len() as int] == s);
        }
    }
}

/// The smallest batch of several shapes.
pub proof fn law_smallest_batch(docs: Seq<Shape>, n: int)
    requires
        0 < n <= docs.len(),
    ensures
        smallest_batch(docs, n) matches Some(b) && (exists|i: int|
            0 <= i < n && (#[trigger] docs[i]).batch == b) && forall|i: int|
            0 <= i < n ==> b <= (#[trigger] docs[i]).batch,
    decreases n,
{
    if n > 1 {
        law_smallest_batch(docs, n - 1);
    } else {
        assert(smallest_batch(docs, 0) is None);
        assert(docs[0].batch == smallest_batch(docs, 1)->Some_0);
    }
}

} // verus!
