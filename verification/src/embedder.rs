//! Encoding: how long inputs may be, how they are batched, and the cache of
//! query vectors.

use crate::order;
use crate::postings;
use crate::text;
use vstd::prelude::*;
use vstd::slice::slice_subrange;

verus! {

/// Tokens of a document.
pub const MAX_SEQ: usize = 512;

/// Tokens of a query, with its instruction.
pub const MAX_QUERY_SEQ: usize = 64;

/// Documents per batch.
pub const DEFAULT_BATCH: usize = 4;

/// Documents that are tokenized at a time.
pub const WINDOW: usize = 1024;

/// Cached query vectors.
pub const QUERY_CACHE_CAP: usize = 256;

/// What an encoder is used for.
#[derive(Clone, Copy, PartialEq, Eq, Debug, Structural)]
pub enum EmbedUse {
    Query,
    Index,
}

/// The positive number that a setting spells, or the default.
pub open spec fn setting(given: Option<Seq<char>>, default: nat) -> nat {
    match given {
        Some(s) => match text::number(s, usize::MAX as nat) {
            Some(n) => if n > 0 {
                n
            } else {
                default
            },
            None => default,
        },
        None => default,
    }
}

fn positive(given: Option<&str>, default: usize) -> (n: usize)
    ensures
        n == setting(crate::codeindex::opt_text(given), default as nat),
{
    if let Some(s) = given {
        let chars = text::chars_of(s);
        if let Some(n) = text::parse_number(chars.as_slice(), usize::MAX as u64) {
            if n > 0 {
                return n as usize;
            }
        }
    }
    default
}

/// How many tokens of an input are encoded. The limit for documents can be
/// set.
pub fn token_cap(kind: EmbedUse, given: Option<&str>) -> (cap: usize)
    ensures
        cap == match kind {
            EmbedUse::Query => MAX_QUERY_SEQ as nat,
            EmbedUse::Index => setting(crate::codeindex::opt_text(given), MAX_SEQ as nat),
        },
{
    match kind {
        EmbedUse::Query => MAX_QUERY_SEQ,
        EmbedUse::Index => positive(given, MAX_SEQ),
    }
}

/// How many documents are encoded together. Can be set.
pub fn batch_size(given: Option<&str>) -> (n: usize)
    ensures
        n == setting(crate::codeindex::opt_text(given), DEFAULT_BATCH as nat),
{
    positive(given, DEFAULT_BATCH)
}

/// Is the portable encoder needed beside one that has `family` of shapes?
pub fn portable_needed(accelerated: bool, kind: EmbedUse, has_query_model: bool) -> (r: bool)
    ensures
        r == (!accelerated || (kind == EmbedUse::Query && !has_query_model)),
{
    if !accelerated {
        return true;
    }
    match kind {
        EmbedUse::Query => !has_query_model,
        EmbedUse::Index => false,
    }
}

// ---------------------------------------------------------------------------
// Batches
// ---------------------------------------------------------------------------

/// The order in which the rows of a window are encoded: by length if they are
/// bucketed, rows of the same length as they come.
pub open spec fn is_window_order(
    lens: Seq<u64>,
    offset: int,
    bucket: bool,
    ids: Seq<usize>,
) -> bool {
    exists|at: Seq<usize>| #[trigger]
        window_positions(lens, bucket, at) && ids == Seq::new(
            at.len(),
            |i: int| (offset + at[i]) as usize,
        )
}

pub open spec fn window_positions(lens: Seq<u64>, bucket: bool, at: Seq<usize>) -> bool {
    if bucket {
        order::sorted_indices(at, lens.len() as int, order::key_less(lens))
    } else {
        at == Seq::new(lens.len(), |i: int| i as usize)
    }
}

/// The ids of the rows of a window that starts at `offset`, in the order in
/// which they are encoded. A batch costs as much as its longest row, so rows
/// of about the same length are put together.
pub fn prepare_window(lens: &[u64], offset: usize, bucket: bool) -> (ids: Vec<usize>)
    requires
        offset + lens@.len() <= usize::MAX,
    ensures
        is_window_order(lens@, offset as int, bucket, ids@),
{
    let n: usize = lens.len();
    let mut at: Vec<usize> = Vec::new();
    if bucket {
        at = order::order_by_key(lens);
    } else {
        let mut i: usize = 0;
        while i < n
            invariant
                i <= n,
                at@.len() == i,
                forall|j: int| 0 <= j < i ==> #[trigger] at@[j] == j,
            decreases n - i,
        {
            at.push(i);
            i += 1;
        }
        assert(at@ =~= Seq::new(lens@.len(), |i: int| i as usize));
    }
    assert(window_positions(lens@, bucket, at@));
    let mut ids: Vec<usize> = Vec::new();
    let m: usize = at.len();
    let mut k: usize = 0;
    while k < m
        invariant
            k <= m,
            m == at@.len(),
            n == lens@.len(),
            offset + n <= usize::MAX,
            window_positions(lens@, bucket, at@),
            ids@.len() == k,
            forall|j: int| 0 <= j < k ==> #[trigger] ids@[j] == offset + at@[j],
        decreases m - k,
    {
        assert(at@[k as int] < n);
        ids.push(offset + at[k]);
        k += 1;
    }
    assert(ids@ =~= Seq::new(at@.len(), |i: int| (offset + at@[i]) as usize));
    ids
}

/// `out` with the first `n` vectors put in their places.
pub open spec fn scattered(
    out: Seq<Vec<u32>>,
    ids: Seq<usize>,
    vectors: Seq<Vec<u32>>,
    n: int,
) -> Seq<Vec<u32>>
    decreases n,
{
    if n <= 0 {
        out
    } else {
        scattered(out, ids, vectors, n - 1).update(ids[n - 1] as int, vectors[n - 1])
    }
}

proof fn lemma_scattered_len(out: Seq<Vec<u32>>, ids: Seq<usize>, vectors: Seq<Vec<u32>>, n: int)
    requires
        n <= ids.len(),
        forall|i: int| 0 <= i < ids.len() ==> #[trigger] ids[i] < out.len(),
    ensures
        scattered(out, ids, vectors, n).len() == out.len(),
    decreases n,
{
    if n > 0 {
        lemma_scattered_len(out, ids, vectors, n - 1);
        assert(ids[n - 1] < out.len());
    }
}

/// Put the vectors of a batch in the places of their rows. A batch with
/// another number of vectors than rows is refused.
pub fn scatter(out: &mut Vec<Vec<u32>>, ids: &[usize], vectors: Vec<Vec<u32>>) -> (ok: bool)
    requires
        forall|i: int| 0 <= i < ids@.len() ==> #[trigger] ids@[i] < old(out)@.len(),
    ensures
        ok == (ids@.len() == vectors@.len()),
        !ok ==> final(out)@ == old(out)@,
        ok ==> final(out)@ == scattered(old(out)@, ids@, vectors@, ids@.len() as int),
{
    let n: usize = ids.len();
    if vectors.len() != n {
        return false;
    }
    let ghost start = out@;
    let ghost all = vectors@;
    // From the back, so that the vectors can be moved one by one.
    let mut vectors = vectors;
    let mut stack: Vec<Vec<u32>> = Vec::new();
    while vectors.len() > 0
        invariant
            n == all.len(),
            vectors@.len() + stack@.len() == n,
            vectors@ == all.take(vectors@.len() as int),
            forall|j: int| 0 <= j < stack@.len() ==> #[trigger] stack@[j] == all[n - 1 - j],
        decreases vectors@.len(),
    {
        if let Some(v) = vectors.pop() {
            stack.push(v);
        }
    }
    let mut i: usize = 0;
    while i < n
        invariant
            i <= n,
            n == ids@.len(),
            n == all.len(),
            out@.len() == start.len(),
            forall|j: int| 0 <= j < ids@.len() ==> #[trigger] ids@[j] < start.len(),
            stack@.len() == n - i,
            forall|j: int| 0 <= j < stack@.len() ==> #[trigger] stack@[j] == all[n - 1 - j],
            out@ == scattered(start, ids@, all, i as int),
        decreases n - i,
    {
        assert(ids@[i as int] < start.len());
        if let Some(v) = stack.pop() {
            assert(v == all[i as int]);
            out.set(ids[i], v);
        }
        proof {
            lemma_scattered_len(start, ids@, all, i + 1);
        }
        i += 1;
    }
    true
}

/// Why documents are not embedded.
#[derive(Clone, Copy, PartialEq, Eq, Debug, Structural)]
pub enum EmbedError {
    /// The encoder failed.
    Encoder,
    /// The encoder gave another number of vectors than rows.
    BatchSize,
}

/// How many rows are put in order at a time: all of them if they are one
/// batch.
pub open spec fn window_size(n: int, batch: int) -> int {
    if n <= batch {
        n
    } else {
        WINDOW as int
    }
}

/// `order` is the order of window `k` of the rows.
pub open spec fn is_window(
    lens: Seq<u64>,
    batch: int,
    bucket: bool,
    k: int,
    order: Seq<usize>,
) -> bool {
    let n = lens.len() as int;
    let w = window_size(n, batch);
    &&& 0 <= k < postings::block_total(n, w)
    &&& is_window_order(
        lens.subrange(postings::block_lo(k, w), postings::block_hi(k, w, n)),
        postings::block_lo(k, w),
        bucket && n > batch,
        order,
    )
}

/// Batch `j` of an ordered window.
pub open spec fn batch_at(order: Seq<usize>, batch: int, j: int) -> Seq<usize> {
    order.subrange(
        postings::block_lo(j, batch),
        postings::block_hi(j, batch, order.len() as int),
    )
}

/// The first `j` batches of an ordered window.
pub open spec fn first_batches(order: Seq<usize>, batch: int, j: int) -> Seq<Seq<usize>>
    decreases j,
{
    if j <= 0 {
        Seq::empty()
    } else {
        first_batches(order, batch, j - 1).push(batch_at(order, batch, j - 1))
    }
}

/// All batches of an ordered window.
pub open spec fn window_batches(order: Seq<usize>, batch: int) -> Seq<Seq<usize>> {
    first_batches(order, batch, postings::block_total(order.len() as int, batch))
}

/// The batches of the windows, one window after the other.
pub open spec fn batches_of(orders: Seq<Seq<usize>>, batch: int) -> Seq<Seq<usize>>
    decreases orders.len(),
{
    if orders.len() == 0 {
        Seq::empty()
    } else {
        batches_of(orders.drop_last(), batch) + window_batches(orders.last(), batch)
    }
}

/// `orders` are the orders of all windows.
pub open spec fn is_plan(
    lens: Seq<u64>,
    batch: int,
    bucket: bool,
    orders: Seq<Seq<usize>>,
) -> bool {
    let n = lens.len() as int;
    &&& orders.len() == postings::block_total(n, window_size(n, batch))
    &&& forall|k: int|
        0 <= k < orders.len() ==> is_window(lens, batch, bucket, k, #[trigger] orders[k])
}

/// The encoder answered the rows `ids` like this; `None` if it failed.
pub open spec fn answered<E: Fn(&[usize]) -> Option<Vec<Vec<u32>>>>(
    encode: E,
    ids: Seq<usize>,
    answer: Option<Seq<Vec<u32>>>,
) -> bool {
    exists|rows: &[usize], given: Option<Vec<Vec<u32>>>| #[trigger]
        call_ensures(encode, (rows,), given) && rows@ == ids && (match given {
            Some(v) => answer == Some(v@),
            None => answer is None,
        })
}

/// The encoder answered every batch with a vector for each of its rows.
pub open spec fn all_answered<E: Fn(&[usize]) -> Option<Vec<Vec<u32>>>>(
    encode: E,
    batches: Seq<Seq<usize>>,
    answers: Seq<Seq<Vec<u32>>>,
) -> bool {
    &&& answers.len() == batches.len()
    &&& forall|i: int|
        0 <= i < answers.len() ==> answered(encode, batches[i], Some(#[trigger] answers[i]))
            && answers[i].len() == batches[i].len()
}

/// The encoder did not answer the rows, or not all of them.
pub open spec fn refused<E: Fn(&[usize]) -> Option<Vec<Vec<u32>>>>(
    encode: E,
    ids: Seq<usize>,
    e: EmbedError,
) -> bool {
    match e {
        EmbedError::Encoder => answered(encode, ids, None),
        EmbedError::BatchSize => exists|v: Seq<Vec<u32>>|
            v.len() != ids.len() && #[trigger] answered(encode, ids, Some(v)),
    }
}

/// `out` with the vectors of the first `n` batches put in their places.
pub open spec fn placed(
    out: Seq<Vec<u32>>,
    batches: Seq<Seq<usize>>,
    answers: Seq<Seq<Vec<u32>>>,
    n: int,
) -> Seq<Vec<u32>>
    decreases n,
{
    if n <= 0 {
        out
    } else {
        scattered(
            placed(out, batches, answers, n - 1),
            batches[n - 1],
            answers[n - 1],
            batches[n - 1].len() as int,
        )
    }
}

/// `out` are the vectors of the rows, as the encoder gave them batch by
/// batch.
pub open spec fn embeds<E: Fn(&[usize]) -> Option<Vec<Vec<u32>>>>(
    encode: E,
    lens: Seq<u64>,
    batch: int,
    bucket: bool,
    out: Seq<Vec<u32>>,
) -> bool {
    exists|start: Seq<Vec<u32>>, orders: Seq<Seq<usize>>, answers: Seq<Seq<Vec<u32>>>|
        start.len() == lens.len() && #[trigger] is_plan(lens, batch, bucket, orders)
            && #[trigger] all_answered(encode, batches_of(orders, batch), answers) && out
            == #[trigger] placed(start, batches_of(orders, batch), answers, answers.len() as int)
}

/// The encoder did not answer a batch.
pub open spec fn fails<E: Fn(&[usize]) -> Option<Vec<Vec<u32>>>>(
    encode: E,
    lens: Seq<u64>,
    batch: int,
    bucket: bool,
    e: EmbedError,
) -> bool {
    exists|k: int, order: Seq<usize>, j: int| #[trigger]
        is_window(lens, batch, bucket, k, order) && 0 <= j < postings::block_total(
            order.len() as int,
            batch,
        ) && refused(encode, #[trigger] batch_at(order, batch, j), e)
}

proof fn lemma_some_block(n: int, size: int)
    requires
        0 <= n,
        0 < size,
    ensures
        postings::block_total(n, size) == 0 <==> n == 0,
        postings::block_total(n, size) >= 0,
{
    if n > 0 {
        postings::lemma_block_of(0, size, n);
    } else {
        vstd::arithmetic::div_mod::lemma_basic_div(size - 1, size);
    }
}

proof fn lemma_placed_same(
    out: Seq<Vec<u32>>,
    a: Seq<Seq<usize>>,
    b: Seq<Seq<usize>>,
    x: Seq<Seq<Vec<u32>>>,
    y: Seq<Seq<Vec<u32>>>,
    n: int,
)
    requires
        forall|i: int| 0 <= i < n ==> #[trigger] a[i] == b[i],
        forall|i: int| 0 <= i < n ==> #[trigger] x[i] == y[i],
    ensures
        placed(out, a, x, n) == placed(out, b, y, n),
    decreases n,
{
    if n > 0 {
        lemma_placed_same(out, a, b, x, y, n - 1);
        assert(a[n - 1] == b[n - 1] && x[n - 1] == y[n - 1]);
    }
}

proof fn lemma_placed_join(
    out: Seq<Vec<u32>>,
    a: Seq<Seq<usize>>,
    b: Seq<Seq<usize>>,
    x: Seq<Seq<Vec<u32>>>,
    y: Seq<Seq<Vec<u32>>>,
    n: int,
)
    requires
        a.len() == x.len(),
        0 <= n <= b.len(),
        b.len() == y.len(),
    ensures
        placed(out, a + b, x + y, a.len() + n) == placed(
            placed(out, a, x, a.len() as int),
            b,
            y,
            n,
        ),
    decreases n,
{
    if n <= 0 {
        lemma_placed_same(out, a + b, a, x + y, x, a.len() as int);
    } else {
        lemma_placed_join(out, a, b, x, y, n - 1);
        assert((a + b)[a.len() + n - 1] == b[n - 1]);
        assert((x + y)[a.len() + n - 1] == y[n - 1]);
    }
}

/// The rows of a window are those from its first to its last.
proof fn lemma_window_rows(lens: Seq<u64>, offset: int, bucket: bool, ids: Seq<usize>)
    requires
        is_window_order(lens, offset, bucket, ids),
        0 <= offset,
        offset + lens.len() <= usize::MAX,
    ensures
        ids.len() == lens.len(),
        forall|i: int| 0 <= i < ids.len() ==> offset <= #[trigger] ids[i] < offset + lens.len(),
        forall|d: int|
            offset <= d < offset + lens.len() ==> ids.contains(#[trigger] (d as usize)),
{
    let at = choose|at: Seq<usize>| #[trigger]
        window_positions(lens, bucket, at) && ids == Seq::new(
            at.len(),
            |i: int| (offset + at[i]) as usize,
        );
    assert forall|i: int| 0 <= i < ids.len() implies offset <= #[trigger] ids[i] < offset
        + lens.len() by {
        assert(at[i] < lens.len());
    }
    assert forall|d: int| offset <= d < offset + lens.len() implies ids.contains(
        #[trigger] (d as usize),
    ) by {
        let v = (d - offset) as usize;
        if bucket {
            assert(at.contains(v));
        } else {
            assert(at[d - offset] == v);
        }
        let i = choose|i: int| 0 <= i < at.len() && at[i] == v;
        assert(ids[i] == d as usize);
    }
}

/// Encode an ordered window batch by batch.
fn embed_window<E: Fn(&[usize]) -> Option<Vec<Vec<u32>>>>(
    order: &Vec<usize>,
    batch: usize,
    encode: &E,
    out: &mut Vec<Vec<u32>>,
) -> (r: Result<Ghost<Seq<Seq<Vec<u32>>>>, EmbedError>)
    requires
        batch > 0,
        forall|rows: &[usize]| call_requires(*encode, (rows,)),
        forall|i: int| 0 <= i < order@.len() ==> #[trigger] order@[i] < old(out)@.len(),
    ensures
        final(out)@.len() == old(out)@.len(),
        match r {
            Ok(answers) => {
                &&& all_answered(*encode, window_batches(order@, batch as int), answers@)
                &&& final(out)@ == placed(
                    old(out)@,
                    window_batches(order@, batch as int),
                    answers@,
                    answers@.len() as int,
                )
            },
            Err(e) => exists|j: int|
                0 <= j < postings::block_total(order@.len() as int, batch as int) && refused(
                    *encode,
                    #[trigger] batch_at(order@, batch as int, j),
                    e,
                ),
        },
{
    let n: usize = order.len();
    let ghost size = batch as int;
    let ghost total = postings::block_total(n as int, size);
    let ghost start = out@;
    let ghost mut answers: Seq<Seq<Vec<u32>>> = Seq::empty();
    let ghost mut j: int = 0;
    let mut p: usize = 0;
    proof {
        assert(0 * size == 0);
        lemma_some_block(n as int, size);
    }
    while p < n
        invariant
            n == order@.len(),
            size == batch,
            size > 0,
            total == postings::block_total(n as int, size),
            forall|rows: &[usize]| call_requires(*encode, (rows,)),
            forall|i: int| 0 <= i < order@.len() ==> #[trigger] order@[i] < start.len(),
            0 <= j <= total,
            p < n ==> j < total && p == postings::block_lo(j, size),
            p >= n ==> j == total,
            p <= n,
            out@.len() == start.len(),
            start.len() == old(out)@.len(),
            answers.len() == j,
            all_answered(*encode, first_batches(order@, size, j), answers),
            out@ == placed(start, first_batches(order@, size, j), answers, j),
        decreases n - p,
    {
        proof {
            postings::lemma_block_range(j, size, n as int);
            if j + 1 < total {
                postings::lemma_block_range(j + 1, size, n as int);
            }
            assert((j + 1) * size == j * size + size) by (nonlinear_arith);
        }
        let q: usize = if n - p > batch { p + batch } else { n };
        let rows: &[usize] = slice_subrange(order.as_slice(), p, q);
        let ghost ids = batch_at(order@, size, j);
        assert(rows@ =~= ids);
        let given = encode(rows);
        match given {
            Some(vectors) => {
                let ghost v = vectors@;
                assert(answered(*encode, ids, Some(v)));
                let ghost mid = out@;
                assert forall|i: int| 0 <= i < rows@.len() implies #[trigger] rows@[i]
                    < out@.len() by {
                    assert(rows@[i] == order@[p + i]);
                }
                if !scatter(out, rows, vectors) {
                    assert(refused(*encode, batch_at(order@, size, j), EmbedError::BatchSize));
                    return Err(EmbedError::BatchSize);
                }
                proof {
                    lemma_scattered_len(mid, ids, v, ids.len() as int);
                    let done = first_batches(order@, size, j);
                    let next = first_batches(order@, size, j + 1);
                    let more = answers.push(v);
                    assert(next == done.push(ids));
                    lemma_first_batches_len(order@, size, j);
                    lemma_placed_same(start, done, next, answers, more, j);
                    assert forall|i: int| 0 <= i < more.len() implies answered(
                        *encode,
                        next[i],
                        Some(#[trigger] more[i]),
                    ) && more[i].len() == next[i].len() by {
                        if i < j {
                            assert(more[i] == answers[i]);
                            assert(next[i] == done[i]);
                        }
                    }
                    answers = more;
                }
            },
            None => {
                assert(answered(*encode, ids, None));
                assert(refused(*encode, batch_at(order@, size, j), EmbedError::Encoder));
                return Err(EmbedError::Encoder);
            },
        }
        p = q;
        proof {
            j = j + 1;
        }
    }
    Ok(Ghost(answers))
}

proof fn lemma_first_batches_len(order: Seq<usize>, batch: int, j: int)
    requires
        0 <= j,
    ensures
        first_batches(order, batch, j).len() == j,
        forall|i: int|
            0 <= i < j ==> #[trigger] first_batches(order, batch, j)[i] == batch_at(
                order,
                batch,
                i,
            ),
    decreases j,
{
    if j > 0 {
        lemma_first_batches_len(order, batch, j - 1);
    }
}

/// Encode rows of the given lengths. Rows are put in order window by window,
/// and the encoder is given a batch of row numbers at a time. `encode` fails
/// by returning nothing.
pub fn embed_docs_with<E: Fn(&[usize]) -> Option<Vec<Vec<u32>>>>(
    lens: &[u64],
    batch: usize,
    bucket: bool,
    encode: &E,
) -> (r: Result<Vec<Vec<u32>>, EmbedError>)
    requires
        forall|rows: &[usize]| call_requires(*encode, (rows,)),
    ensures
        ({
            let size = if batch == 0 {
                1
            } else {
                batch as int
            };
            match r {
                Ok(out) => if lens@.len() == 0 {
                    out@.len() == 0
                } else {
                    embeds(*encode, lens@, size, bucket, out@)
                },
                Err(e) => lens@.len() > 0 && fails(*encode, lens@, size, bucket, e),
            }
        }),
{
    let n: usize = lens.len();
    let mut out: Vec<Vec<u32>> = Vec::new();
    if n == 0 {
        return Ok(out);
    }
    let size: usize = if batch == 0 { 1 } else { batch };
    let small: bool = n <= size;
    let window: usize = if small { n } else { WINDOW };
    let mut i: usize = 0;
    while i < n
        invariant
            i <= n,
            out@.len() == i,
        decreases n - i,
    {
        out.push(Vec::new());
        i += 1;
    }
    let ghost w = window as int;
    let ghost total = postings::block_total(n as int, w);
    let ghost start = out@;
    let ghost mut orders: Seq<Seq<usize>> = Seq::empty();
    let ghost mut answers: Seq<Seq<Vec<u32>>> = Seq::empty();
    let mut at: usize = 0;
    proof {
        assert(0 * w == 0);
        lemma_some_block(n as int, w);
    }
    while at < n
        invariant
            n == lens@.len(),
            n > 0,
            size == (if batch == 0 {
                1
            } else {
                batch
            }),
            small == (n <= size),
            w == window,
            w > 0,
            w == window_size(n as int, size as int),
            total == postings::block_total(n as int, w),
            forall|rows: &[usize]| call_requires(*encode, (rows,)),
            orders.len() <= total,
            at < n ==> orders.len() < total && at == postings::block_lo(orders.len() as int, w),
            at >= n ==> orders.len() == total,
            at <= n,
            start.len() == n,
            out@.len() == n,
            forall|k: int|
                0 <= k < orders.len() ==> is_window(
                    lens@,
                    size as int,
                    bucket,
                    k,
                    #[trigger] orders[k],
                ),
            all_answered(*encode, batches_of(orders, size as int), answers),
            out@ == placed(
                start,
                batches_of(orders, size as int),
                answers,
                answers.len() as int,
            ),
        decreases n - at,
    {
        let ghost k = orders.len() as int;
        proof {
            postings::lemma_block_range(k, w, n as int);
            if k + 1 < total {
                postings::lemma_block_range(k + 1, w, n as int);
            }
            assert((k + 1) * w == k * w + w) by (nonlinear_arith);
        }
        let end: usize = if n - at > window { at + window } else { n };
        let part: &[u64] = slice_subrange(lens, at, end);
        assert(part@ =~= lens@.subrange(postings::block_lo(k, w), postings::block_hi(k, w, n as int)));
        let order = prepare_window(part, at, bucket && !small);
        proof {
            assert(is_window(lens@, size as int, bucket, k, order@));
            lemma_window_rows(part@, at as int, bucket && !small, order@);
        }
        let ghost before = out@;
        match embed_window(&order, size, encode, &mut out) {
            Ok(given) => {
                proof {
                    let b = window_batches(order@, size as int);
                    let a = batches_of(orders, size as int);
                    let more = orders.push(order@);
                    assert(more.drop_last() =~= orders);
                    lemma_placed_join(start, a, b, answers, given@, b.len() as int);
                    let all = answers + given@;
                    assert forall|x: int| 0 <= x < all.len() implies answered(
                        *encode,
                        (a + b)[x],
                        Some(#[trigger] all[x]),
                    ) && all[x].len() == (a + b)[x].len() by {
                        if x < a.len() {
                            assert(all[x] == answers[x]);
                        } else {
                            assert(all[x] == given@[x - a.len()]);
                        }
                    }
                    assert(batches_of(more, size as int) == a + b);
                    orders = more;
                    answers = all;
                }
            },
            Err(e) => {
                assert(fails(*encode, lens@, size as int, bucket, e));
                return Err(e);
            },
        }
        at = end;
    }
    assert(is_plan(lens@, size as int, bucket, orders));
    Ok(out)
}

proof fn lemma_scattered_value(
    out: Seq<Vec<u32>>,
    ids: Seq<usize>,
    vectors: Seq<Vec<u32>>,
    n: int,
    vector_of: spec_fn(int) -> Vec<u32>,
    d: int,
)
    requires
        0 <= n <= ids.len(),
        ids.len() == vectors.len(),
        0 <= d < out.len(),
        forall|i: int| 0 <= i < ids.len() ==> #[trigger] ids[i] < out.len(),
        forall|i: int| 0 <= i < ids.len() ==> #[trigger] vectors[i] == vector_of(ids[i] as int),
    ensures
        scattered(out, ids, vectors, n).len() == out.len(),
        scattered(out, ids, vectors, n)[d] == out[d] || scattered(out, ids, vectors, n)[d]
            == vector_of(d),
        (exists|i: int| 0 <= i < n && #[trigger] ids[i] == d) ==> scattered(
            out,
            ids,
            vectors,
            n,
        )[d] == vector_of(d),
    decreases n,
{
    if n > 0 {
        lemma_scattered_value(out, ids, vectors, n - 1, vector_of, d);
        assert(ids[n - 1] < out.len());
        assert(vectors[n - 1] == vector_of(ids[n - 1] as int));
        if exists|i: int| 0 <= i < n && #[trigger] ids[i] == d {
            let i = choose|i: int| 0 <= i < n && #[trigger] ids[i] == d;
            if i < n - 1 {
                assert(ids[i] == d);
            }
        }
    }
}

/// The batch holds row `d`.
spec fn in_batch(batches: Seq<Seq<usize>>, d: int, b: int) -> bool {
    0 <= b < batches.len() && batches[b].contains(d as usize)
}

proof fn lemma_placed_value(
    out: Seq<Vec<u32>>,
    batches: Seq<Seq<usize>>,
    answers: Seq<Seq<Vec<u32>>>,
    n: int,
    vector_of: spec_fn(int) -> Vec<u32>,
    d: int,
    b: int,
)
    requires
        0 <= n <= batches.len(),
        batches.len() == answers.len(),
        0 <= d < out.len() <= usize::MAX,
        in_batch(batches, d, b),
        forall|x: int, i: int|
            0 <= x < batches.len() && 0 <= i < batches[x].len() ==> #[trigger] batches[x][i]
                < out.len(),
        forall|x: int|
            0 <= x < batches.len() ==> (#[trigger] answers[x]).len() == batches[x].len(),
        forall|x: int, i: int|
            0 <= x < batches.len() && 0 <= i < batches[x].len() ==> #[trigger] answers[x][i]
                == vector_of(batches[x][i] as int),
    ensures
        placed(out, batches, answers, n).len() == out.len(),
        b < n ==> placed(out, batches, answers, n)[d] == vector_of(d),
    decreases n,
{
    if n > 0 {
        lemma_placed_value(out, batches, answers, n - 1, vector_of, d, b);
        let ids = batches[n - 1];
        let vectors = answers[n - 1];
        assert forall|i: int| 0 <= i < ids.len() implies #[trigger] vectors[i] == vector_of(
            ids[i] as int,
        ) && ids[i] < out.len() by {
            assert(answers[n - 1][i] == vector_of(batches[n - 1][i] as int));
            assert(batches[n - 1][i] < out.len());
        }
        assert forall|i: int| 0 <= i < ids.len() implies #[trigger] ids[i] < out.len() by {
            assert(batches[n - 1][i] < out.len());
        }
        lemma_scattered_value(
            placed(out, batches, answers, n - 1),
            ids,
            vectors,
            ids.len() as int,
            vector_of,
            d,
        );
        if b == n - 1 {
            let i = choose|i: int| 0 <= i < ids.len() && ids[i] == d as usize;
            assert(ids[i] == d);
        }
    }
}

/// No batch names a row that does not exist.
proof fn lemma_batch_rows(lens: Seq<u64>, batch: int, bucket: bool, orders: Seq<Seq<usize>>)
    requires
        0 < lens.len() <= usize::MAX,
        batch > 0,
        forall|k: int|
            0 <= k < orders.len() ==> is_window(lens, batch, bucket, k, #[trigger] orders[k]),
    ensures
        forall|x: int, i: int|
            0 <= x < batches_of(orders, batch).len() && 0 <= i < batches_of(orders, batch)[x].len()
                ==> #[trigger] batches_of(orders, batch)[x][i] < lens.len(),
    decreases orders.len(),
{
    if orders.len() > 0 {
        let n = lens.len() as int;
        let w = window_size(n, batch);
        let k = orders.len() - 1;
        let front = orders.drop_last();
        let order = orders.last();
        assert(is_window(lens, batch, bucket, k, orders[k]));
        postings::lemma_block_range(k, w, n);
        let lo = postings::block_lo(k, w);
        lemma_window_rows(
            lens.subrange(lo, postings::block_hi(k, w, n)),
            lo,
            bucket && n > batch,
            order,
        );
        assert forall|j: int| 0 <= j < front.len() implies is_window(
            lens,
            batch,
            bucket,
            j,
            #[trigger] front[j],
        ) by {
            assert(front[j] == orders[j]);
        }
        lemma_batch_rows(lens, batch, bucket, front);
        let size = order.len() as int;
        lemma_some_block(size, batch);
        lemma_first_batches_len(order, batch, postings::block_total(size, batch));
        let head = batches_of(front, batch);
        let tail = window_batches(order, batch);
        let all = batches_of(orders, batch);
        assert forall|x: int, i: int| 0 <= x < all.len() && 0 <= i < all[x].len() implies
            #[trigger] all[x][i] < n by {
            if x < head.len() {
                assert(all[x][i] == head[x][i]);
            } else {
                let y = x - head.len();
                assert(all[x] == tail[y]);
                assert(tail[y] == batch_at(order, batch, y));
                postings::lemma_block_range(y, batch, size);
                assert(tail[y][i] == order[postings::block_lo(y, batch) + i]);
            }
        }
    }
}

/// Every row of the windows is in some batch.
proof fn lemma_row_batch(
    lens: Seq<u64>,
    batch: int,
    bucket: bool,
    orders: Seq<Seq<usize>>,
    k: int,
    d: int,
) -> (b: int)
    requires
        lens.len() <= usize::MAX,
        batch > 0,
        0 <= k < orders.len(),
        is_window(lens, batch, bucket, k, orders[k]),
        0 < lens.len(),
        postings::block_lo(k, window_size(lens.len() as int, batch)) <= d
            < postings::block_hi(k, window_size(lens.len() as int, batch), lens.len() as int),
    ensures
        in_batch(batches_of(orders, batch), d, b),
    decreases orders.len(),
{
    let n = lens.len() as int;
    let w = window_size(n, batch);
    let front = orders.drop_last();
    let head = batches_of(front, batch);
    let all = batches_of(orders, batch);
    if k < front.len() {
        assert(front[k] == orders[k]);
        let b = lemma_row_batch(lens, batch, bucket, front, k, d);
        assert(all[b] == head[b]);
        b
    } else {
        let order = orders.last();
        postings::lemma_block_range(k, w, n);
        let lo = postings::block_lo(k, w);
        lemma_window_rows(
            lens.subrange(lo, postings::block_hi(k, w, n)),
            lo,
            bucket && n > batch,
            order,
        );
        assert(order.contains(d as usize));
        let i = choose|i: int| 0 <= i < order.len() && order[i] == d as usize;
        let size = order.len() as int;
        postings::lemma_block_of(i, batch, size);
        let j = i / batch;
        let at = postings::block_lo(j, batch);
        postings::lemma_block_range(j, batch, size);
        let tail = window_batches(order, batch);
        lemma_first_batches_len(order, batch, postings::block_total(size, batch));
        assert(tail[j] == batch_at(order, batch, j));
        assert(tail[j][i - at] == d as usize);
        assert(all[head.len() + j] == tail[j]);
        head.len() + j
    }
}

/// Bucketing and batching are invisible from outside: whatever the batches,
/// row `d` gets the vector that the encoder computes for it.
pub proof fn law_bucketing_is_invisible<E: Fn(&[usize]) -> Option<Vec<Vec<u32>>>>(
    encode: E,
    lens: Seq<u64>,
    batch: int,
    bucket: bool,
    out: Seq<Vec<u32>>,
    vector_of: spec_fn(int) -> Vec<u32>,
    d: int,
)
    requires
        0 < lens.len() <= usize::MAX,
        batch > 0,
        embeds(encode, lens, batch, bucket, out),
        forall|ids: Seq<usize>, v: Seq<Vec<u32>>, i: int|
            #![trigger answered(encode, ids, Some(v)), v[i]]
            answered(encode, ids, Some(v)) && v.len() == ids.len() && 0 <= i < v.len() ==> v[i]
                == vector_of(ids[i] as int),
        0 <= d < lens.len(),
    ensures
        out.len() == lens.len(),
        out[d] == vector_of(d),
{
    let (start, orders, answers) = choose|
        start: Seq<Vec<u32>>,
        orders: Seq<Seq<usize>>,
        answers: Seq<Seq<Vec<u32>>>,
    |
        start.len() == lens.len() && #[trigger] is_plan(lens, batch, bucket, orders)
            && #[trigger] all_answered(encode, batches_of(orders, batch), answers) && out
            == #[trigger] placed(start, batches_of(orders, batch), answers, answers.len() as int);
    let batches = batches_of(orders, batch);
    let n = lens.len() as int;
    let w = window_size(n, batch);
    postings::lemma_block_of(d, w, n);
    let b = lemma_row_batch(lens, batch, bucket, orders, d / w, d);
    lemma_batch_rows(lens, batch, bucket, orders);
    assert forall|x: int, i: int| 0 <= x < batches.len() && 0 <= i < batches[x].len() implies
        #[trigger] answers[x][i] == vector_of(batches[x][i] as int) by {
        assert(answered(encode, batches[x], Some(answers[x])));
    }
    lemma_placed_value(start, batches, answers, batches.len() as int, vector_of, d, b);
}

/// The tokens of a row up to the first that is masked out.
pub open spec fn unmasked(ids: Seq<u32>, mask: Seq<u32>) -> Seq<u32>
    decreases ids.len(),
{
    if ids.len() == 0 || mask.len() == 0 || mask[0] != 1 {
        Seq::empty()
    } else {
        seq![ids[0]] + unmasked(ids.drop_first(), mask.drop_first())
    }
}

pub fn take_unmasked(ids: &[u32], mask: &[u32]) -> (row: Vec<u32>)
    ensures
        row@ == unmasked(ids@, mask@),
{
    let mut row: Vec<u32> = Vec::new();
    let mut i: usize = 0;
    assert(ids@.skip(0) =~= ids@);
    assert(mask@.skip(0) =~= mask@);
    while i < ids.len() && i < mask.len() && mask[i] == 1
        invariant
            i <= ids@.len(),
            i <= mask@.len(),
            unmasked(ids@, mask@) == row@ + unmasked(ids@.skip(i as int), mask@.skip(i as int)),
        decreases ids@.len() - i,
    {
        proof {
            assert(ids@.skip(i as int).drop_first() =~= ids@.skip(i + 1));
            assert(mask@.skip(i as int).drop_first() =~= mask@.skip(i + 1));
            assert(mask@.skip(i as int)[0] == mask@[i as int]);
        }
        row.push(ids[i]);
        i += 1;
        assert(unmasked(ids@, mask@) =~= row@ + unmasked(
            ids@.skip(i as int),
            mask@.skip(i as int),
        ));
    }
    proof {
        if i < ids@.len() && i < mask@.len() {
            assert(mask@.skip(i as int)[0] == mask@[i as int]);
        }
        assert(unmasked(ids@, mask@) =~= row@);
    }
    row
}

// ---------------------------------------------------------------------------
// Query vectors
// ---------------------------------------------------------------------------

/// A query and its vector.
pub struct CachedQuery {
    pub query: String,
    pub vector: Vec<u32>,
}

/// The vectors of recent queries, the least recently used first.
pub struct QueryCache {
    entries: Vec<CachedQuery>,
}

/// What an entry holds.
pub open spec fn entry_of(e: CachedQuery) -> (Seq<char>, Seq<u32>) {
    (e.query@, e.vector@)
}

impl View for QueryCache {
    type V = Seq<(Seq<char>, Seq<u32>)>;

    closed spec fn view(&self) -> Seq<(Seq<char>, Seq<u32>)> {
        Seq::new(self.entries@.len(), |i: int| entry_of(self.entries@[i]))
    }
}

/// The query stands at `i`.
pub open spec fn stands_at(entries: Seq<(Seq<char>, Seq<u32>)>, query: Seq<char>, i: int) -> bool {
    0 <= i < entries.len() && entries[i].0 == query
}

/// The query is cached.
pub open spec fn holds(entries: Seq<(Seq<char>, Seq<u32>)>, query: Seq<char>) -> bool {
    exists|i: int| #[trigger] stands_at(entries, query, i)
}

/// Where a cached query stands.
pub open spec fn place(entries: Seq<(Seq<char>, Seq<u32>)>, query: Seq<char>) -> int {
    choose|i: int| #[trigger] stands_at(entries, query, i)
}

/// No query is cached twice, and no more than the limit.
pub open spec fn tidy(entries: Seq<(Seq<char>, Seq<u32>)>) -> bool {
    &&& entries.len() <= QUERY_CACHE_CAP
    &&& forall|i: int, j: int|
        0 <= i < j < entries.len() ==> (#[trigger] entries[i]).0 != (#[trigger] entries[j]).0
}

/// The cache after a lookup: a query that was found is the most recent one.
pub open spec fn after_get(entries: Seq<(Seq<char>, Seq<u32>)>, query: Seq<char>) -> Seq<
    (Seq<char>, Seq<u32>),
> {
    if holds(entries, query) {
        entries.remove(place(entries, query)).push(entries[place(entries, query)])
    } else {
        entries
    }
}

/// The cache after a vector was put in: a known query keeps its place, a new
/// one is the most recent, and the oldest makes room for it.
pub open spec fn after_put(
    entries: Seq<(Seq<char>, Seq<u32>)>,
    query: Seq<char>,
    vector: Seq<u32>,
) -> Seq<(Seq<char>, Seq<u32>)> {
    if holds(entries, query) {
        entries.update(place(entries, query), (query, vector))
    } else if entries.len() >= QUERY_CACHE_CAP {
        entries.drop_first().push((query, vector))
    } else {
        entries.push((query, vector))
    }
}

impl QueryCache {
    pub open spec fn wf(&self) -> bool {
        tidy(self@)
    }

    pub fn new() -> (c: QueryCache)
        ensures
            c.wf(),
            c@.len() == 0,
    {
        QueryCache { entries: Vec::new() }
    }

    fn find(&self, query: &str) -> (r: Option<usize>)
        requires
            self.wf(),
        ensures
            match r {
                Some(i) => i < self@.len() && holds(self@, query@) && place(self@, query@) == i,
                None => !holds(self@, query@),
            },
    {
        let chars = text::chars_of(query);
        let wanted = text::string_of(chars.as_slice());
        let mut i: usize = 0;
        while i < self.entries.len()
            invariant
                i <= self.entries@.len(),
                self.wf(),
                wanted@ == query@,
                forall|j: int| 0 <= j < i ==> !#[trigger] stands_at(self@, query@, j),
            decreases self.entries@.len() - i,
        {
            if self.entries[i].query == wanted {
                proof {
                    assert(stands_at(self@, query@, i as int));
                    let p = place(self@, query@);
                    assert(stands_at(self@, query@, p));
                    if p < i {
                        assert(self@[p].0 != self@[i as int].0);
                    } else if i < p {
                        assert(self@[i as int].0 != self@[p].0);
                    }
                }
                return Some(i);
            }
            assert(!stands_at(self@, query@, i as int));
            i += 1;
        }
        None
    }

    /// The vector of a query, which becomes the most recent one.
    pub fn get(&mut self, query: &str) -> (r: Option<Vec<u32>>)
        requires
            old(self).wf(),
        ensures
            final(self).wf(),
            final(self)@ == after_get(old(self)@, query@),
            match r {
                Some(v) => holds(old(self)@, query@) && v@ == old(self)@[place(
                    old(self)@,
                    query@,
                )].1,
                None => !holds(old(self)@, query@),
            },
    {
        let i: usize = match self.find(query) {
            Some(i) => i,
            None => {
                return None;
            },
        };
        let ghost before = self@;
        let e = self.entries.remove(i);
        let vector = copied(&e.vector);
        self.entries.push(e);
        proof {
            assert(self@ =~= before.remove(i as int).push(before[i as int]));
            lemma_moved(before, i as int);
        }
        Some(vector)
    }

    /// Remember the vector of a query.
    pub fn put(&mut self, query: String, vector: Vec<u32>)
        requires
            old(self).wf(),
        ensures
            final(self).wf(),
            final(self)@ == after_put(old(self)@, query@, vector@),
    {
        let ghost before = self@;
        let at = self.find(query.as_str());
        let ghost fresh = (query@, vector@);
        let e = CachedQuery { query, vector };
        match at {
            Some(i) => {
                self.entries.set(i, e);
                proof {
                    assert(self@ =~= before.update(i as int, fresh));
                    assert(stands_at(before, fresh.0, i as int));
                    assert forall|x: int, y: int| 0 <= x < y < self@.len() implies (
                    #[trigger] self@[x]).0 != (#[trigger] self@[y]).0 by {
                        assert(before[x].0 != before[y].0);
                    }
                }
            },
            None => {
                if self.entries.len() >= QUERY_CACHE_CAP {
                    let _ = self.entries.remove(0);
                    assert(self@ =~= before.drop_first());
                }
                let ghost mid = self@;
                self.entries.push(e);
                proof {
                    assert(self@ =~= mid.push(fresh));
                    assert forall|x: int, y: int| 0 <= x < y < self@.len() implies (
                    #[trigger] self@[x]).0 != (#[trigger] self@[y]).0 by {
                        let shift: int = if before.len() >= QUERY_CACHE_CAP {
                            1
                        } else {
                            0
                        };
                        assert(self@[x] == before[x + shift]);
                        if y < mid.len() {
                            assert(self@[y] == before[y + shift]);
                            assert(before[x + shift].0 != before[y + shift].0);
                        } else {
                            assert(!stands_at(before, fresh.0, x + shift));
                        }
                    }
                }
            },
        }
    }
}

/// What the encoder is given before a query.
pub const QUERY_PREFIX: &'static str = "Represent this query for searching relevant code: ";

/// The text that is encoded for a query.
pub fn query_text(query: &str) -> (t: String)
    ensures
        t@ == QUERY_PREFIX@ + query@,
{
    let mut chars = text::chars_of(QUERY_PREFIX);
    text::append_str(&mut chars, query);
    text::string_of(chars.as_slice())
}

/// How a query gets its vector.
pub enum QueryStep {
    /// The vector is known.
    Known(Vec<u32>),
    /// This text has to be encoded.
    Encode(String),
}

/// Look a query up: its vector, or the text to encode for it.
pub fn look_up(cache: &mut QueryCache, query: &str) -> (step: QueryStep)
    requires
        old(cache).wf(),
    ensures
        final(cache).wf(),
        final(cache)@ == after_get(old(cache)@, query@),
        match step {
            QueryStep::Known(v) => holds(old(cache)@, query@) && v@ == old(cache)@[place(
                old(cache)@,
                query@,
            )].1,
            QueryStep::Encode(t) => !holds(old(cache)@, query@) && t@ == QUERY_PREFIX@ + query@,
        },
{
    match cache.get(query) {
        Some(v) => QueryStep::Known(v),
        None => QueryStep::Encode(query_text(query)),
    }
}

/// The encoder turned the text of the query into `out`.
pub open spec fn encodes_query<F: Fn(String) -> Option<Vec<u32>>>(
    encode: F,
    query: Seq<char>,
    out: Option<Vec<u32>>,
) -> bool {
    exists|t: String| t@ == QUERY_PREFIX@ + query && #[trigger] call_ensures(encode, (t,), out)
}

/// The vector of a query: the cached one, or else what the encoder gives for
/// the query behind the prefix, which is remembered.
pub fn embed_query<F: Fn(String) -> Option<Vec<u32>>>(
    cache: &mut QueryCache,
    query: &str,
    encode: &F,
) -> (r: Result<Vec<u32>, EmbedError>)
    requires
        old(cache).wf(),
        forall|t: String| t@ == QUERY_PREFIX@ + query@ ==> call_requires(*encode, (t,)),
    ensures
        final(cache).wf(),
        holds(old(cache)@, query@) ==> {
            &&& r matches Ok(v) && v@ == old(cache)@[place(old(cache)@, query@)].1
            &&& final(cache)@ == after_get(old(cache)@, query@)
        },
        !holds(old(cache)@, query@) ==> match r {
            Ok(v) => exists|out: Vec<u32>| #[trigger]
                encodes_query(*encode, query@, Some(out)) && v@ == out@ && final(cache)@
                    == after_put(old(cache)@, query@, out@),
            Err(e) => {
                &&& e == EmbedError::Encoder
                &&& encodes_query(*encode, query@, None)
                &&& final(cache)@ == old(cache)@
            },
        },
{
    let t = match look_up(cache, query) {
        QueryStep::Known(v) => {
            return Ok(v);
        },
        QueryStep::Encode(t) => t,
    };
    match encode(t) {
        Some(out) => {
            let kept = copied(&out);
            let chars = text::chars_of(query);
            cache.put(text::string_of(chars.as_slice()), kept);
            assert(encodes_query(*encode, query@, Some(out)));
            Ok(out)
        },
        None => Err(EmbedError::Encoder),
    }
}

impl Default for QueryCache {
    fn default() -> (c: Self)
        ensures
            c.wf(),
            c@.len() == 0,
    {
        QueryCache::new()
    }
}

fn copied(v: &Vec<u32>) -> (c: Vec<u32>)
    ensures
        c@ == v@,
{
    let mut c: Vec<u32> = Vec::new();
    let mut i: usize = 0;
    while i < v.len()
        invariant
            i <= v@.len(),
            c@ == v@.take(i as int),
        decreases v@.len() - i,
    {
        c.push(v[i]);
        assert(c@ =~= v@.take(i + 1));
        i += 1;
    }
    assert(v@.take(i as int) =~= v@);
    c
}

proof fn lemma_moved(entries: Seq<(Seq<char>, Seq<u32>)>, i: int)
    requires
        tidy(entries),
        0 <= i < entries.len(),
    ensures
        tidy(entries.remove(i).push(entries[i])),
{
    let moved = entries.remove(i).push(entries[i]);
    assert forall|x: int, y: int| 0 <= x < y < moved.len() implies (#[trigger] moved[x]).0 != (
    #[trigger] moved[y]).0 by {
        let ox = if x < i {
            x
        } else {
            x + 1
        };
        assert(moved[x] == entries[ox]);
        if y < moved.len() - 1 {
            let oy = if y < i {
                y
            } else {
                y + 1
            };
            assert(moved[y] == entries[oy]);
            assert(entries[ox].0 != entries[oy].0);
        } else if ox < i {
            assert(entries[ox].0 != entries[i].0);
        } else {
            assert(entries[i].0 != entries[ox].0);
        }
    }
}

/// What was put in last is found.
pub proof fn law_put_then_get(
    entries: Seq<(Seq<char>, Seq<u32>)>,
    query: Seq<char>,
    vector: Seq<u32>,
)
    requires
        tidy(entries),
    ensures
        ({
            let now = after_put(entries, query, vector);
            holds(now, query) && now[place(now, query)].1 == vector
        }),
{
    let now = after_put(entries, query, vector);
    if holds(entries, query) {
        let i = place(entries, query);
        assert(stands_at(entries, query, i));
        assert(stands_at(now, query, i));
        let p = place(now, query);
        assert(stands_at(now, query, p));
        if p != i {
            assert(entries[p].0 == query);
            if p < i {
                assert(entries[p].0 != entries[i].0);
            } else {
                assert(entries[i].0 != entries[p].0);
            }
        }
    } else {
        let last = now.len() - 1;
        assert(stands_at(now, query, last));
        let p = place(now, query);
        assert(stands_at(now, query, p));
        if p != last {
            let shift: int = if entries.len() >= QUERY_CACHE_CAP {
                1
            } else {
                0
            };
            assert(now[p] == entries[p + shift]);
            assert(stands_at(entries, query, p + shift));
        }
    }
}

/// A cache of recent queries remembers by use: a query that is found becomes
/// the most recent one and the others keep their order; a new query is the most
/// recent, and only a full cache of 256 drops one, the one used least recently.
pub proof fn law_recent_queries_stay(
    entries: Seq<(Seq<char>, Seq<u32>)>,
    query: Seq<char>,
    vector: Seq<u32>,
    i: int,
)
    requires
        tidy(entries),
    ensures
        0 <= i < entries.len() && entries[i].0 == query ==> after_get(entries, query)
            == entries.take(i) + entries.skip(i + 1) + seq![entries[i]],
        0 <= i < entries.len() && entries[i].0 == query ==> after_put(entries, query, vector)
            == entries.take(i) + seq![(query, vector)] + entries.skip(i + 1),
        (forall|j: int| 0 <= j < entries.len() ==> (#[trigger] entries[j]).0 != query) ==> {
            &&& after_get(entries, query) == entries
            &&& entries.len() < 256 ==> after_put(entries, query, vector) == entries + seq![
                (query, vector),
            ]
            &&& entries.len() == 256 ==> after_put(entries, query, vector) == entries.skip(1)
                + seq![(query, vector)]
        },
{
    if 0 <= i < entries.len() && entries[i].0 == query {
        assert(stands_at(entries, query, i));
        let p = place(entries, query);
        assert(stands_at(entries, query, p));
        if p < i {
            assert(entries[p].0 != entries[i].0);
        } else if i < p {
            assert(entries[i].0 != entries[p].0);
        }
        assert(after_get(entries, query) =~= entries.take(i) + entries.skip(i + 1) + seq![
            entries[i],
        ]);
        assert(after_put(entries, query, vector) =~= entries.take(i) + seq![(query, vector)]
            + entries.skip(i + 1));
    }
    if forall|j: int| 0 <= j < entries.len() ==> (#[trigger] entries[j]).0 != query {
        if holds(entries, query) {
            let p = place(entries, query);
            assert(stands_at(entries, query, p));
            assert(entries[p].0 != query);
        }
        assert(after_put(entries, query, vector) =~= if entries.len() < 256 {
            entries + seq![(query, vector)]
        } else {
            entries.skip(1) + seq![(query, vector)]
        });
    }
}

/// A row is kept up to the first token that is masked out.
pub proof fn law_unmasked(ids: Seq<u32>, mask: Seq<u32>, n: int)
    requires
        0 <= n <= ids.len(),
        ids.len() == mask.len(),
        forall|i: int| 0 <= i < n ==> (#[trigger] mask[i]) == 1,
        n < mask.len() ==> mask[n] != 1,
    ensures
        unmasked(ids, mask) == ids.take(n),
    decreases ids.len(),
{
    if n == 0 {
        assert(ids.take(0) =~= Seq::<u32>::empty());
    } else {
        assert(mask[0] == 1);
        let (a, b) = (ids.drop_first(), mask.drop_first());
        assert forall|i: int| 0 <= i < n - 1 implies (#[trigger] b[i]) == 1 by {
            assert(b[i] == mask[i + 1]);
        }
        law_unmasked(a, b, n - 1);
        assert(seq![ids[0]] + a.take(n - 1) =~= ids.take(n));
    }
}

/// A setting is a number above zero; anything else leaves the default.
pub proof fn law_settings(given: Seq<char>, n: nat, default: nat)
    requires
        0 < n <= usize::MAX,
    ensures
        setting(None, default) == default,
        setting(Some(text::decimal(n)), default) == n,
        setting(Some(text::decimal(0)), default) == default,
        text::number(given, usize::MAX as nat) is None ==> setting(Some(given), default) == default,
{
    text::law_decimal_round_trip(n, usize::MAX as nat);
    text::law_decimal_round_trip(0, usize::MAX as nat);
}

/// No batch holds more texts than the encoder takes at once, and none is empty.
pub proof fn law_batches_are_bounded(order: Seq<usize>, batch: int, j: int)
    requires
        batch > 0,
        order.len() > 0,
        0 <= j < postings::block_total(order.len() as int, batch),
    ensures
        1 <= batch_at(order, batch, j).len() <= batch,
        forall|i: int|
            0 <= i < batch_at(order, batch, j).len() ==> #[trigger] batch_at(order, batch, j)[i]
                == order[j * batch + i],
{
    postings::law_blocks_tile_the_list(order.len() as int, batch, j);
    postings::lemma_block_range(j, batch, order.len() as int);
}

} // verus!
