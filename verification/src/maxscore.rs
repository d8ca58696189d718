//! Exact top-k MaxScore query execution over BM25.
//!
//! The lists, in ascending order of their bounds, are split at the threshold.
//! The longest prefix whose summed bounds cannot beat it is non-essential:
//! those lists are only probed for documents that already look competitive.
//! The others drive the iteration, as every document that can still win holds
//! at least one of their terms. As with Block-Max WAND every skip rests on a
//! safe bound, and the result is the same top k.

use crate::block_max_wand;
use crate::block_max_wand::{
    first_positions, open_cursors, score_and_step, Cursor, SearchHit, SearchStats, TermModel, TopK,
    MAX_BOUND, MAX_TERMS,
};
use crate::bm25;
use crate::indexer::SearchableIndex;
use crate::order;
use crate::sums;
use crate::work;
use crate::work::{Pruning, Query, Run};
use vstd::prelude::*;

verus! {

/// `order` lists the cursors, each once.
pub open spec fn lists_all(cursors: Seq<Cursor>, order: Seq<usize>) -> bool {
    &&& order::covers(order, 0, cursors.len() as int)
    &&& order.no_duplicates()
}

fn order_by_bound(cursors: &Vec<Cursor>, Ghost(q): Ghost<Query>, Ghost(run): Ghost<Run>) -> (order:
    Vec<usize>)
    requires
        block_max_wand::follows(q, run, cursors@),
        forall|j: int| 0 <= j < cursors@.len() ==> (#[trigger] cursors@[j]).wf(q.lens),
    ensures
        lists_all(cursors@, order@),
        order@ == work::by_bound(q),
{
    let n: usize = cursors.len();
    let mut keys: Vec<u64> = Vec::new();
    let mut i: usize = 0;
    while i < n
        invariant
            i <= n == cursors@.len(),
            keys@.len() == i,
            forall|j: int| 0 <= j < i ==> #[trigger] keys@[j] == cursors@[j].list_bound,
        decreases n - i,
    {
        keys.push(cursors[i].list_max_score());
        i += 1;
    }
    let order = order::order_by_key(&keys);
    proof {
        order::lemma_increasing_distinct(order@, n as int, order::key_less(keys@));
        reveal(block_max_wand::follows);
        assert(keys@ =~= work::bound_keys(q)) by {
            assert forall|j: int| 0 <= j < n implies keys@[j] == q.list_bound(j) by {
                block_max_wand::lemma_doc(q, run, cursors@, j);
            }
        }
        order::lemma_key_less_total(keys@);
        order::lemma_sorted_unique(
            order@,
            work::by_bound(q),
            n as int,
            order::key_less(keys@),
        );
    }
    order
}

/// The bounds of the lists in the order of evaluation, summed up.
pub open spec fn is_cum(cum: Seq<u64>, cursors: Seq<Cursor>, order: Seq<usize>) -> bool {
    &&& cum.len() == order.len()
    &&& forall|i: int|
        0 <= i < cum.len() ==> #[trigger] cum[i] == sums::total(
            sums::along(block_max_wand::bounds(cursors), order),
            (i + 1) as nat,
        )
    &&& forall|i: int| 0 <= i < cum.len() ==> #[trigger] cum[i] <= (i + 1) * MAX_BOUND
}

fn cumulate(cursors: &Vec<Cursor>, order: &Vec<usize>, Ghost(lens): Ghost<Seq<u32>>) -> (cum: Vec<
    u64,
>)
    requires
        cursors@.len() <= MAX_TERMS,
        lists_all(cursors@, order@),
        forall|j: int| 0 <= j < cursors@.len() ==> (#[trigger] cursors@[j]).wf(lens),
    ensures
        is_cum(cum@, cursors@, order@),
{
    let ghost f = sums::along(block_max_wand::bounds(cursors@), order@);
    let mut cum: Vec<u64> = Vec::new();
    let mut acc: u64 = 0;
    let mut i: usize = 0;
    while i < order.len()
        invariant
            cursors@.len() <= MAX_TERMS,
            lists_all(cursors@, order@),
            forall|j: int| 0 <= j < cursors@.len() ==> (#[trigger] cursors@[j]).wf(lens),
            f == sums::along(block_max_wand::bounds(cursors@), order@),
            i <= order@.len(),
            cum@.len() == i,
            acc == sums::total(f, i as nat),
            acc <= i * MAX_BOUND,
            forall|q: int| 0 <= q < i ==> #[trigger] cum@[q] == sums::total(f, (q + 1) as nat),
            forall|q: int| 0 <= q < i ==> #[trigger] cum@[q] <= (q + 1) * MAX_BOUND,
        decreases order@.len() - i,
    {
        let j: usize = order[i];
        proof {
            assert(cursors@[j as int].wf(lens));
            assert(cursors@[j as int].list_bound <= MAX_BOUND);
            assert((i + 1) * MAX_BOUND == i * MAX_BOUND + MAX_BOUND);
        }
        acc = acc + cursors[j].list_max_score();
        cum.push(acc);
        i += 1;
    }
    cum
}

/// The cursors have passed nothing after `floor`, the matching documents up
/// to `floor` are covered, and the hits lie among them.
pub open spec fn scan_ok(
    cursors: Seq<Cursor>,
    top: TopK,
    models: Seq<TermModel>,
    lens: Seq<u32>,
    dead: spec_fn(u32) -> bool,
    floor: int,
) -> bool {
    &&& block_max_wand::cursors_ok(cursors, models, lens)
    &&& top.wf()
    &&& top.k > 0
    &&& block_max_wand::hits_ok(top.hits@, models, lens, dead)
    &&& forall|i: int| 0 <= i < top.hits@.len() ==> (#[trigger] top.hits@[i]).doc_id <= floor
    &&& forall|j: int, i: int|
        #![trigger cursors[j].term.list()[i]]
        0 <= j < cursors.len() && 0 <= i < cursors[j].pos ==> cursors[j].term.list()[i].doc_id
            <= floor
    &&& forall|d: u32|
        d <= floor && #[trigger] block_max_wand::matches_query(models, dead, d)
            ==> block_max_wand::covered(top.hits@, models, lens, top.k as nat, d)
}

/// The essential cursors stand after `floor`.
pub open spec fn essential_after(
    cursors: Seq<Cursor>,
    order: Seq<usize>,
    essential: int,
    floor: int,
) -> bool {
    forall|i: int|
        essential <= i < order.len() ==> cursors[#[trigger] order[i] as int].current_doc > floor
}

/// A matching document after `floor` that no essential cursor can hold is
/// covered.
proof fn lemma_unessential_covered(
    cursors: Seq<Cursor>,
    top: TopK,
    models: Seq<TermModel>,
    lens: Seq<u32>,
    dead: spec_fn(u32) -> bool,
    floor: int,
    order: Seq<usize>,
    essential: int,
    d: u32,
)
    requires
        cursors.len() <= MAX_TERMS,
        scan_ok(cursors, top, models, lens, dead, floor),
        lists_all(cursors, order),
        0 <= essential <= order.len(),
        essential > 0 ==> !block_max_wand::beats(
            sums::total(
                sums::along(block_max_wand::bounds(cursors), order),
                essential as nat,
            ),
            top.threshold_spec(),
        ),
        d > floor,
        block_max_wand::matches_query(models, dead, d),
        forall|i: int|
            essential <= i < order.len() ==> cursors[#[trigger] order[i] as int].current_doc > d,
    ensures
        block_max_wand::covered(top.hits@, models, lens, top.k as nat, d),
{
    let g = block_max_wand::bounds(cursors);
    let m = essential as nat;
    assert forall|j: int| 0 <= j < cursors.len() implies !block_max_wand::passed(
        #[trigger] cursors[j],
        d,
    ) by {
        if block_max_wand::passed(cursors[j], d) {
            let i = choose|i: int|
                0 <= i < cursors[j].pos && (#[trigger] cursors[j].term.list()[i]).doc_id == d;
            assert(cursors[j].term.list()[i].doc_id <= floor);
        }
    }
    assert forall|j: int|
        0 <= j < models.len() && block_max_wand::holds(#[trigger] models[j], d) implies exists|i: int|
        0 <= i < m && order[i] == j by {
        assert(block_max_wand::model_of(cursors[j].term) == models[j]);
        block_max_wand::lemma_ahead(cursors[j], lens, d);
        assert(order.contains(j as usize));
        let i = choose|i: int| 0 <= i < order.len() && order[i] == j as usize;
        if i >= essential {
            assert(cursors[order[i] as int].current_doc > d);
        }
    }
    let j0 = choose|j: int|
        0 <= j < models.len() && #[trigger] block_max_wand::holds(models[j], d);
    assert(block_max_wand::holds(models[j0], d));
    assert forall|j: int| 0 <= j < models.len() implies block_max_wand::term_weight(
        #[trigger] models[j],
        lens,
        d,
    ) <= g(j) by {
        assert(block_max_wand::model_of(cursors[j].term) == models[j]);
        if block_max_wand::holds(models[j], d) {
            block_max_wand::lemma_held_bounded(cursors[j], lens, d);
        }
    }
    assert forall|i: int| 0 <= i < m implies #[trigger] order[i] < models.len() by {}
    assert forall|a: int, b: int| 0 <= a < b < m implies #[trigger] order[a] != #[trigger] order[b] by {}
    block_max_wand::lemma_score_bounded(models, lens, d, g, order, m);
    block_max_wand::lemma_bounded_loses(
        top,
        models,
        lens,
        d,
        sums::total(sums::along(g, order), m),
    );
}

/// The smallest current document among the essential cursors.
fn next_candidate(cursors: &Vec<Cursor>, order: &Vec<usize>, essential: usize) -> (c: u32)
    requires
        lists_all(cursors@, order@),
        essential < order@.len(),
    ensures
        forall|i: int|
            essential <= i < order@.len() ==> c <= cursors@[#[trigger] order@[i] as int].current_doc,
        exists|i: int|
            essential <= i < order@.len() && cursors@[#[trigger] order@[i] as int].current_doc == c,
{
    let n: usize = order.len();
    let mut c: u32 = cursors[order[essential]].doc_id();
    let mut i: usize = essential + 1;
    assert(cursors@[order@[essential as int] as int].current_doc == c);
    while i < n
        invariant
            lists_all(cursors@, order@),
            n == order@.len(),
            essential < i <= n,
            forall|q: int|
                essential <= q < i ==> c <= cursors@[#[trigger] order@[q] as int].current_doc,
            exists|q: int|
                essential <= q < i && cursors@[#[trigger] order@[q] as int].current_doc == c,
        decreases n - i,
    {
        let d: u32 = cursors[order[i]].doc_id();
        assert(cursors@[order@[i as int] as int].current_doc == d);
        if d < c {
            c = d;
        }
        i += 1;
    }
    c
}

/// A cursor between two moments: same term, moved on, nothing after `c`
/// passed.
pub open spec fn probed(a: Cursor, b: Cursor, c: u32) -> bool {
    &&& b.term == a.term
    &&& a.pos <= b.pos
    &&& forall|i: int| 0 <= i < b.pos ==> (#[trigger] b.term.list()[i]).doc_id <= c
}

/// Probe the non-essential lists from the highest bound down, giving up as
/// soon as the remaining bounds cannot lift the score above the threshold.
/// `score` starts as what the standing cursors gave. The flag says whether
/// the score is complete.
fn probe(
    cursors: &mut Vec<Cursor>,
    order: &Vec<usize>,
    cum: &Vec<u64>,
    essential: usize,
    c: u32,
    doc_len: u32,
    standing_score: u64,
    threshold: block_max_wand::Threshold,
    stats: &mut SearchStats,
    Ghost(lens): Ghost<Seq<u32>>,
    Ghost(start): Ghost<Seq<Cursor>>,
    Ghost(models): Ghost<Seq<TermModel>>,
    Ghost(q): Ghost<Query>,
    Ghost(run): Ghost<Run>,
) -> (r: (u64, bool))
    requires
        q.lens == lens,
        q.models == models,
        block_max_wand::follows(q, run, old(cursors)@),
        work::counts(*old(stats), run.work),
        forall|m: nat|
            m <= start.len() ==> #[trigger] q.bounds_along(order@, m) == sums::total(
                sums::along(block_max_wand::bounds(start), order@),
                m,
            ),
        start.len() <= MAX_TERMS,
        old(cursors)@.len() == start.len(),
        lists_all(start, order@),
        is_cum(cum@, start, order@),
        essential <= order@.len(),
        c < lens.len() <= u32::MAX,
        doc_len == lens[c as int],
        block_max_wand::cursors_ok(start, models, lens),
        forall|j: int, i: int|
            #![trigger start[j].term.list()[i]]
            0 <= j < start.len() && 0 <= i < start[j].pos ==> start[j].term.list()[i].doc_id < c,
        forall|i: int|
            essential <= i < order@.len() ==> start[#[trigger] order@[i] as int].current_doc >= c,
        forall|j: int|
            0 <= j < old(cursors)@.len() ==> (#[trigger] old(cursors)@[j]).wf(lens)
                && block_max_wand::stepped(start[j], old(cursors)@[j], c),
        standing_score == sums::total(
            block_max_wand::standing_weights(start, lens, c),
            start.len(),
        ),
        standing_score <= start.len() * MAX_BOUND,
        block_max_wand::accounted(*old(stats), old(cursors)@),
    ensures
        ({
            let after = work::probed(
                q,
                run,
                order@,
                threshold,
                c,
                standing_score as nat,
                essential as nat,
            );
            &&& block_max_wand::follows(q, after.0, final(cursors)@)
            &&& after.0.hits == run.hits
            &&& work::counts(*final(stats), after.0.work)
            &&& after.1 == r.0
        }),
        final(cursors)@.len() == start.len(),
        forall|j: int|
            0 <= j < final(cursors)@.len() ==> (#[trigger] final(cursors)@[j]).wf(lens) && probed(
                start[j],
                final(cursors)@[j],
                c,
            ),
        forall|i: int|
            essential <= i < order@.len() ==> final(cursors)@[#[trigger] order@[i] as int].current_doc
                > c,
        forall|j: int|
            0 <= j < start.len() && (#[trigger] start[j]).current_doc == c ==> start[j].pos
                < final(cursors)@[j].pos,
        r.1 ==> r.0 == block_max_wand::score_of(models, lens, c),
        !r.1 ==> {
            &&& r.0 <= block_max_wand::score_of(models, lens, c)
            &&& !block_max_wand::beats(block_max_wand::score_of(models, lens, c), threshold)
        },
        block_max_wand::same_search(*old(stats), *final(stats)),
        block_max_wand::accounted(*final(stats), final(cursors)@),
{
    let ghost n = start.len();
    let ghost w = block_max_wand::weights(models, lens, c);
    let ghost st = block_max_wand::standing_weights(start, lens, c);
    let ghost wo = sums::along(w, order@);
    let ghost so = sums::along(st, order@);
    let ghost bo = sums::along(block_max_wand::bounds(start), order@);
    let mut score: u64 = standing_score;
    proof {
        lemma_full_order(w, n, order@);
        lemma_full_order(st, n, order@);
        // A cursor at or after the candidate either stands on it or does not
        // hold it.
        assert forall|i: int| essential <= i < order@.len() implies #[trigger] so(i) == wo(i) by {
            lemma_standing_or_absent(start, models, lens, c, order@[i] as int);
        }
        lemma_same_tail(so, wo, essential as nat, n);
        assert forall|j: int| 0 <= j < n implies (#[trigger] cursors@[j]).wf(lens) && probed(
            start[j],
            cursors@[j],
            c,
        ) by {
            lemma_stepped_probed(start[j], cursors@[j], lens, c);
        }
        assert forall|i: int| essential <= i < order@.len() implies cursors@[
        #[trigger] order@[i] as int].current_doc > c by {
            lemma_stepped_after(start[order@[i] as int], cursors@[order@[i] as int], lens, c);
        }
        assert forall|j: int|
            0 <= j < n && (#[trigger] start[j]).current_doc == c implies start[j].pos
            < cursors@[j].pos by {
            assert(block_max_wand::stepped(start[j], cursors@[j], c));
        }
    }
    let ghost mut cur = run;
    let ghost goal = work::probed(
        q,
        run,
        order@,
        threshold,
        c,
        standing_score as nat,
        essential as nat,
    );
    let mut i: usize = essential;
    while i > 0
        invariant
            q.lens == lens,
            q.models == models,
            block_max_wand::follows(q, cur, cursors@),
            cur.hits == run.hits,
            work::counts(*stats, cur.work),
            goal == work::probed(q, cur, order@, threshold, c, score as nat, i as nat),
            goal == work::probed(
                q,
                run,
                order@,
                threshold,
                c,
                standing_score as nat,
                essential as nat,
            ),
            forall|m: nat| m <= n ==> #[trigger] q.bounds_along(order@, m) == sums::total(bo, m),
            n == start.len(),
            n <= MAX_TERMS,
            cursors@.len() == n,
            lists_all(start, order@),
            is_cum(cum@, start, order@),
            i <= essential <= order@.len(),
            c < lens.len() <= u32::MAX,
            doc_len == lens[c as int],
            block_max_wand::cursors_ok(start, models, lens),
            forall|j: int, i: int|
                #![trigger start[j].term.list()[i]]
                0 <= j < start.len() && 0 <= i < start[j].pos ==> start[j].term.list()[i].doc_id < c,
            w == block_max_wand::weights(models, lens, c),
            st == block_max_wand::standing_weights(start, lens, c),
            wo == sums::along(w, order@),
            so == sums::along(st, order@),
            bo == sums::along(block_max_wand::bounds(start), order@),
            sums::total(w, n) == sums::total(wo, n),
            forall|j: int|
                0 <= j < n ==> (#[trigger] cursors@[j]).wf(lens) && probed(start[j], cursors@[j], c),
            forall|q: int|
                0 <= q < i ==> block_max_wand::stepped(
                    start[#[trigger] order@[q] as int],
                    cursors@[order@[q] as int],
                    c,
                ),
            forall|q: int|
                essential <= q < order@.len() ==> cursors@[#[trigger] order@[q] as int].current_doc
                    > c,
            forall|j: int|
                0 <= j < n && (#[trigger] start[j]).current_doc == c ==> start[j].pos
                    < cursors@[j].pos,
            score + sums::total(wo, i as nat) == sums::total(so, i as nat) + sums::total(wo, n),
            score <= (n + essential - i) * MAX_BOUND,
            block_max_wand::same_search(*old(stats), *stats),
            block_max_wand::accounted(*stats, cursors@),
        decreases i,
    {
        proof {
            assert forall|q: int| 0 <= q < i implies #[trigger] so(q) <= wo(q) by {
                let j = order@[q] as int;
                assert(block_max_wand::model_of(start[j].term) == models[j]);
            }
            sums::lemma_total_le(so, wo, i as nat);
            assert forall|q: int| 0 <= q < i implies #[trigger] wo(q) <= bo(q) by {
                let j = order@[q] as int;
                assert(block_max_wand::model_of(start[j].term) == models[j]);
                if block_max_wand::holds(models[j], c) {
                    block_max_wand::lemma_held_bounded(start[j], lens, c);
                }
            }
            sums::lemma_total_le(wo, bo, i as nat);
        }
        assert(cum@[i - 1] == q.bounds_along(order@, i as nat));
        if !threshold.beaten_by(score + cum[i - 1]) {
            return (score, false);
        }
        i -= 1;
        let j: usize = order[i];
        let ghost a = start[j as int];
        let ghost b = cursors@[j as int];
        let ghost mid = cursors@;
        proof {
            assert(a.wf(lens) && b.wf(lens));
            assert(block_max_wand::stepped(a, b, c));
            assert(block_max_wand::model_of(a.term) == models[j as int]);
            block_max_wand::lemma_doc(q, cur, mid, j as int);
        }
        if cursors[j].doc_id() < c {
            let ghost sofar = *stats;
            cursors[j].seek(c, stats, Ghost(lens));
            proof {
                assert(cursors@ =~= mid.update(j as int, cursors@[j as int]));
                block_max_wand::lemma_charge(
                    mid,
                    cursors@,
                    j as int,
                    cursors@[j as int].block - b.block,
                    sofar,
                    *stats,
                );
                block_max_wand::lemma_follows_seek(
                    q,
                    cur,
                    mid,
                    cursors@,
                    j as int,
                    c,
                    sofar,
                    *stats,
                );
                cur = q.sought(cur, j as int, c);
                block_max_wand::lemma_doc(q, cur, cursors@, j as int);
            }
        }
        let ghost s = cursors@[j as int];
        proof {
            lemma_sought(a, b, s, lens, c);
        }
        if cursors[j].doc_id() == c {
            let tf: u32 = cursors[j].current_tf(Ghost(lens));
            let add: u64 = bm25::term_contribution(
                cursors[j].term.idf,
                tf,
                doc_len,
                cursors[j].term.avg_doc_len,
            );
            proof {
                block_max_wand::lemma_weight_at(s.term, lens, s.pos as int);
                assert(add == wo(i as int));
                assert(so(i as int) == 0);
            }
            score = score + add;
            let ghost (found, sofar) = (cursors@, *stats);
            cursors[j].next(stats, Ghost(lens));
            proof {
                assert(cursors@ =~= found.update(j as int, cursors@[j as int]));
                block_max_wand::lemma_charge(found, cursors@, j as int, 0, sofar, *stats);
                block_max_wand::lemma_moved(
                    found[j as int],
                    cursors@[j as int],
                    false,
                    sofar,
                    *stats,
                    lens,
                    cur.work,
                );
                block_max_wand::lemma_follows_move(q, cur, found, cursors@, j as int, false);
                reveal(block_max_wand::follows);
                cur = q.moved_to(cur, j as int, cur.at[j as int] + 1, false);
                let e = cursors@[j as int];
                assert forall|x: int| 0 <= x < e.pos implies (#[trigger] e.term.list()[x]).doc_id
                    <= c by {
                    if x < s.pos {
                        assert(s.term.list()[x].doc_id <= c);
                    }
                }
            }
        } else {
            proof {
                assert(so(i as int) == wo(i as int));
            }
        }
        proof {
            assert(cursors@ =~= mid.update(j as int, cursors@[j as int]));
            assert forall|q: int| 0 <= q < i implies block_max_wand::stepped(
                start[#[trigger] order@[q] as int],
                cursors@[order@[q] as int],
                c,
            ) by {
                assert(order@[q] != order@[i as int]);
            }
            assert forall|q: int| essential <= q < order@.len() implies cursors@[
            #[trigger] order@[q] as int].current_doc > c by {
                assert(order@[q] != order@[i as int]);
            }
            assert forall|x: int| 0 <= x < n implies (#[trigger] cursors@[x]).wf(lens) && probed(
                start[x],
                cursors@[x],
                c,
            ) by {
                if x != j {
                    assert(mid[x].wf(lens) && probed(start[x], mid[x], c));
                }
            }
        }
    }
    proof {
        assert(sums::total(wo, 0) == 0 && sums::total(so, 0) == 0);
    }
    (score, true)
}

/// Summing along a full listing of the positions is summing.
proof fn lemma_full_order(f: spec_fn(int) -> nat, n: nat, order: Seq<usize>)
    requires
        n <= usize::MAX,
        order::covers(order, 0, n as int),
        order.no_duplicates(),
    ensures
        sums::total(f, n) == sums::total(sums::along(f, order), n),
{
    assert forall|j: int| 0 <= j < n && #[trigger] f(j) > 0 implies exists|i: int|
        0 <= i < n && order[i] == j by {
        assert(order.contains(j as usize));
        let i = choose|i: int| 0 <= i < order.len() && order[i] == j as usize;
        assert(order[i] == j);
    }
    sums::lemma_total_support(f, n, order, n);
}

/// Sums that agree from `m` on differ by their heads.
proof fn lemma_same_tail(f: spec_fn(int) -> nat, g: spec_fn(int) -> nat, m: nat, n: nat)
    requires
        m <= n,
        forall|i: int| m <= i < n ==> #[trigger] f(i) == g(i),
    ensures
        sums::total(f, n) + sums::total(g, m) == sums::total(f, m) + sums::total(g, n),
    decreases n,
{
    if m < n {
        lemma_same_tail(f, g, m, (n - 1) as nat);
        assert(f(n - 1) == g(n - 1));
    }
}

proof fn lemma_standing_or_absent(
    start: Seq<Cursor>,
    models: Seq<TermModel>,
    lens: Seq<u32>,
    c: u32,
    j: int,
)
    requires
        0 <= j < start.len(),
        block_max_wand::cursors_ok(start, models, lens),
        forall|i: int| 0 <= i < start[j].pos ==> (#[trigger] start[j].term.list()[i]).doc_id < c,
        start[j].current_doc >= c,
    ensures
        block_max_wand::standing_weights(start, lens, c)(j) == block_max_wand::weights(
            models,
            lens,
            c,
        )(j),
{
    let a = start[j];
    assert(a.wf(lens));
    assert(block_max_wand::model_of(a.term) == models[j]);
    if block_max_wand::holds(models[j], c) {
        assert(!block_max_wand::passed(a, c));
        block_max_wand::lemma_ahead(a, lens, c);
    }
}

proof fn lemma_stepped_probed(a: Cursor, b: Cursor, lens: Seq<u32>, c: u32)
    requires
        a.wf(lens),
        b.wf(lens),
        block_max_wand::stepped(a, b, c),
        forall|i: int| 0 <= i < a.pos ==> (#[trigger] a.term.list()[i]).doc_id < c,
        c < u32::MAX,
    ensures
        probed(a, b, c),
{
    assert forall|i: int| 0 <= i < b.pos implies (#[trigger] b.term.list()[i]).doc_id <= c by {
        if i < a.pos {
            assert(a.term.list()[i].doc_id < c);
        }
    }
}

proof fn lemma_stepped_after(a: Cursor, b: Cursor, lens: Seq<u32>, c: u32)
    requires
        a.wf(lens),
        b.wf(lens),
        block_max_wand::stepped(a, b, c),
        a.current_doc >= c,
        c < u32::MAX,
    ensures
        b.current_doc > c,
{
    if a.current_doc == c && b.pos < b.term.df {
        assert(a.term.list()[a.pos as int].doc_id < a.term.list()[b.pos as int].doc_id);
    }
}

/// What probing one list for `c` finds: a cursor that stood on `c` has moved
/// past it; any other stands on `c` exactly if the list holds it.
proof fn lemma_sought(a: Cursor, b: Cursor, s: Cursor, lens: Seq<u32>, c: u32)
    requires
        a.wf(lens),
        b.wf(lens),
        s.wf(lens),
        block_max_wand::stepped(a, b, c),
        s.term == b.term,
        b.pos <= s.pos,
        b.current_doc >= c ==> s == b,
        forall|i: int| b.pos <= i < s.pos ==> (#[trigger] b.term.list()[i]).doc_id < c,
        s.current_doc >= c,
        forall|i: int| 0 <= i < a.pos ==> (#[trigger] a.term.list()[i]).doc_id < c,
        c < u32::MAX,
    ensures
        a.current_doc == c ==> s.current_doc > c,
        a.current_doc != c && s.current_doc != c ==> !block_max_wand::holds(
            block_max_wand::model_of(a.term),
            c,
        ),
        forall|i: int| 0 <= i < s.pos ==> (#[trigger] s.term.list()[i]).doc_id <= c,
{
    assert forall|i: int| 0 <= i < s.pos implies (#[trigger] s.term.list()[i]).doc_id <= c by {
        if i < a.pos {
            assert(a.term.list()[i].doc_id < c);
        } else if i >= b.pos {
            assert(b.term.list()[i].doc_id < c);
        }
    }
    if a.current_doc == c {
        lemma_stepped_after(a, b, lens, c);
    } else if s.current_doc != c && block_max_wand::holds(block_max_wand::model_of(a.term), c) {
        assert(!block_max_wand::passed(s, c)) by {
            if block_max_wand::passed(s, c) {
                let i = choose|i: int| 0 <= i < s.pos && (#[trigger] s.term.list()[i]).doc_id == c;
                if i < a.pos {
                    assert(a.term.list()[i].doc_id < c);
                } else {
                    assert(b.term.list()[i].doc_id < c);
                }
            }
        }
        block_max_wand::lemma_ahead(s, lens, c);
    }
}

/// The state after a candidate has been dealt with.
proof fn lemma_candidate_done(
    start: Seq<Cursor>,
    after: Seq<Cursor>,
    top: TopK,
    new_top: TopK,
    models: Seq<TermModel>,
    lens: Seq<u32>,
    dead: spec_fn(u32) -> bool,
    floor: int,
    c: u32,
    score: u64,
    complete: bool,
)
    requires
        scan_ok(start, top, models, lens, dead, floor),
        floor < c < u32::MAX,
        after.len() == start.len(),
        forall|j: int|
            0 <= j < after.len() ==> (#[trigger] after[j]).wf(lens) && probed(start[j], after[j], c),
        forall|d: u32|
            floor < d < c && #[trigger] block_max_wand::matches_query(models, dead, d)
                ==> block_max_wand::covered(top.hits@, models, lens, top.k as nat, d),
        exists|j: int| 0 <= j < models.len() && #[trigger] block_max_wand::holds(models[j], c),
        complete ==> score == block_max_wand::score_of(models, lens, c),
        !complete ==> score <= block_max_wand::score_of(models, lens, c) && !block_max_wand::beats(
            block_max_wand::score_of(models, lens, c),
            top.threshold_spec(),
        ),
        new_top.wf(),
        new_top.k == top.k,
        (dead(c) || !block_max_wand::beats(score as nat, top.threshold_spec())) ==> new_top.hits@
            == top.hits@,
        !dead(c) && block_max_wand::beats(score as nat, top.threshold_spec()) ==> new_top.hits@ == ({
            let all = block_max_wand::insert_ranked(top.hits@, SearchHit { doc_id: c, score });
            if all.len() > top.k {
                all.drop_last()
            } else {
                all
            }
        }),
    ensures
        scan_ok(after, new_top, models, lens, dead, c as int),
{
    let h = SearchHit { doc_id: c, score };
    assert(!dead(c) ==> block_max_wand::matches_query(models, dead, c));
    let inserted = !dead(c) && block_max_wand::beats(score as nat, top.threshold_spec());
    if inserted {
        assert(complete);
        block_max_wand::lemma_insert_keeps_hits(top, new_top, h, models, lens, dead);
    } else if !dead(c) {
        block_max_wand::lemma_bounded_loses(
            top,
            models,
            lens,
            c,
            block_max_wand::score_of(models, lens, c),
        );
    }
    assert forall|i: int| 0 <= i < new_top.hits@.len() implies (#[trigger] new_top.hits@[i]).doc_id
        <= c by {
        if inserted && new_top.hits@[i] != h {
            assert(top.hits@.contains(new_top.hits@[i]));
            let q = choose|q: int| 0 <= q < top.hits@.len() && top.hits@[q] == new_top.hits@[i];
            assert(top.hits@[q].doc_id <= floor);
        }
        if !inserted {
            assert(top.hits@[i].doc_id <= floor);
        }
    }
    assert forall|d: u32|
        d <= c && #[trigger] block_max_wand::matches_query(models, dead, d) implies block_max_wand::covered(
        new_top.hits@,
        models,
        lens,
        new_top.k as nat,
        d,
    ) by {
        if d < c {
            assert(block_max_wand::covered(top.hits@, models, lens, top.k as nat, d));
        }
        if inserted {
            block_max_wand::lemma_insert_keeps_covered(top, new_top, h, models, lens, dead, d);
        }
    }
    assert forall|j: int| 0 <= j < after.len() implies (#[trigger] after[j]).wf(lens)
        && block_max_wand::model_of(after[j].term) == models[j] by {
        assert(probed(start[j], after[j], c));
        assert(block_max_wand::model_of(start[j].term) == models[j]);
    }
    assert forall|j: int, i: int|
        #![trigger after[j].term.list()[i]]
        0 <= j < after.len() && 0 <= i < after[j].pos implies after[j].term.list()[i].doc_id
        <= c as int by {
        assert(probed(start[j], after[j], c));
    }
}

/// A threshold that is not beaten stays unbeaten when it rises.
proof fn lemma_threshold_rises(top: TopK, new_top: TopK, h: SearchHit, x: nat)
    requires
        top.wf(),
        top.k > 0,
        new_top.k == top.k,
        !block_max_wand::beats(x, top.threshold_spec()),
        new_top.hits@ == top.hits@ || (block_max_wand::beats(h.score as nat, top.threshold_spec())
            && new_top.hits@ == ({
            let all = block_max_wand::insert_ranked(top.hits@, h);
            if all.len() > top.k {
                all.drop_last()
            } else {
                all
            }
        })),
    ensures
        !block_max_wand::beats(x, new_top.threshold_spec()),
{
    if new_top.hits@ != top.hits@ {
        let s = top.hits@;
        block_max_wand::lemma_insert_ranked(s, h);
        let all = block_max_wand::insert_ranked(s, h);
        let out = new_top.hits@;
        let last = out[out.len() - 1];
        assert(all[out.len() - 1] == last);
        assert(all.contains(last));
        if last != h {
            assert(s.contains(last));
            let q = choose|q: int| 0 <= q < s.len() && s[q] == last;
            if q < s.len() - 1 {
                assert(!block_max_wand::better(s[s.len() - 1], s[q]));
            }
        }
    }
}

#[verifier::spinoff_prover]
#[verifier::rlimit(60)]
fn evaluate<'a, I: SearchableIndex + ?Sized>(
    index: &'a I,
    cursors_in: Vec<Cursor<'a>>,
    k: usize,
    stats: &mut SearchStats,
    Ghost(models): Ghost<Seq<TermModel>>,
    Ghost(q): Ghost<Query>,
) -> (hits: Vec<SearchHit>)
    requires
        index.wf(),
        k > 0,
        q.models == models,
        q.lens == index.lens(),
        q.dead == block_max_wand::dead_of(index),
        q.k == k,
        q.pruning is MaxScore,
        block_max_wand::follows(q, work::started(q), cursors_in@),
        work::counts(*old(stats), work::started(q).work),
        cursors_in@.len() <= MAX_TERMS,
        block_max_wand::cursors_ok(cursors_in@, models, index.lens()),
        forall|j: int| 0 <= j < cursors_in@.len() ==> (#[trigger] cursors_in@[j]).pos == 0,
        old(stats).num_docs_scored == 0,
        block_max_wand::accounted(*old(stats), cursors_in@),
    ensures
        block_max_wand::is_top_k(hits@, models, index.lens(), block_max_wand::dead_of(index), k as nat),
        final(stats).num_docs_total == old(stats).num_docs_total,
        final(stats).num_query_terms == old(stats).num_query_terms,
        hits@.len() <= final(stats).num_docs_scored <= index.lens().len(),
        block_max_wand::work_bounded(*final(stats), models),
        work::counts(*final(stats), work::work_of(q)),
{
    let ghost mut rounds: nat = 0;
    let ghost mut run = work::started(q);
    let ghost lens = index.lens();
    let ghost dead = block_max_wand::dead_of(index);
    let mut cursors = cursors_in;
    let order = order_by_bound(&cursors, Ghost(q), Ghost(run));
    let cum = cumulate(&cursors, &order, Ghost(lens));
    let n: usize = cursors.len();
    let mut top_k = TopK::new(k);
    let mut essential: usize = 0;
    let ghost mut floor: int = -1;
    let ghost bo = sums::along(block_max_wand::bounds(cursors@), order@);
    let mut done: bool = false;
    while !done
        invariant
            index.wf(),
            lens == index.lens(),
            dead == block_max_wand::dead_of(index),
            top_k.k == k,
            n == cursors@.len(),
            n <= MAX_TERMS,
            lists_all(cursors@, order@),
            is_cum(cum@, cursors@, order@),
            bo == sums::along(block_max_wand::bounds(cursors@), order@),
            scan_ok(cursors@, top_k, models, lens, dead, floor),
            q.models == models,
            q.lens == lens,
            q.dead == dead,
            q.k == k,
            q.pruning is MaxScore,
            order@ == work::by_bound(q),
            run == work::after(q, rounds),
            block_max_wand::follows(q, run, cursors@),
            run.hits == top_k.hits@,
            work::counts(*stats, run.work),
            done ==> work::over(q, rounds),
            essential <= n,
            essential > 0 ==> !block_max_wand::beats(
                sums::total(bo, essential as nat),
                top_k.threshold_spec(),
            ),
            essential_after(cursors@, order@, essential as int, floor),
            -1 <= floor < u32::MAX,
            floor < lens.len(),
            block_max_wand::scored_once(*stats, top_k.hits@, floor),
            block_max_wand::accounted(*stats, cursors@),
            done ==> forall|d: u32| #[trigger]
                block_max_wand::matches_query(models, dead, d) ==> block_max_wand::covered(
                    top_k.hits@,
                    models,
                    lens,
                    k as nat,
                    d,
                ),
            stats.num_docs_total == old(stats).num_docs_total,
            stats.num_query_terms == old(stats).num_query_terms,
        decreases (if done { 0nat } else { 1nat }),
            sums::total(block_max_wand::ahead(cursors@), cursors@.len()),
    {
        let ghost start = cursors@;
        let threshold = top_k.threshold();
        proof {
            assert(threshold == q.bar(run.hits));
            assert forall|m: nat| m <= n implies #[trigger] q.bounds_along(order@, m)
                == sums::total(bo, m) by {
                block_max_wand::lemma_bounds_along(q, run, start, order@, m);
            }
        }
        while essential < n && !threshold.beaten_by(cum[essential])
            invariant
                n == cursors@.len() == order@.len(),
                cursors@ == start,
                is_cum(cum@, start, order@),
                bo == sums::along(block_max_wand::bounds(start), order@),
                threshold == top_k.threshold_spec(),
                essential <= n,
                essential > 0 ==> !block_max_wand::beats(
                    sums::total(bo, essential as nat),
                    threshold,
                ),
                essential_after(start, order@, essential as int, floor),
            decreases n - essential,
        {
            essential += 1;
        }
        let candidate: u32 = if essential < n {
            next_candidate(&cursors, &order, essential)
        } else {
            u32::MAX
        };
        proof {
            if essential > 0 {
                assert(q.bounds_along(order@, essential as nat) == sums::total(
                    bo,
                    essential as nat,
                ));
            }
            work::lemma_essential_skips(q, order@, threshold, essential as int);
            if essential < n {
                assert(q.bounds_along(order@, (essential + 1) as nat) == cum@[essential as int]);
                assert forall|j: int| 0 <= j < n implies q.doc(run.at, j) == (
                #[trigger] start[j]).current_doc by {
                    block_max_wand::lemma_doc(q, run, start, j);
                }
                let x = choose|x: int|
                    essential <= x < order@.len() && start[#[trigger] order@[x] as int].current_doc
                        == candidate;
                assert(q.doc(run.at, order@[x] as int) == candidate);
                work::lemma_least_doc(
                    q,
                    run.at,
                    order@,
                    essential as int,
                    essential as int,
                    candidate,
                );
            }
            assert(candidate == work::least_doc(q, run.at, order@, essential as int));
        }
        // Nothing between the floor and the candidate can win.
        proof {
            assert forall|d: u32|
                floor < d < candidate && #[trigger] block_max_wand::matches_query(
                    models,
                    dead,
                    d,
                ) implies block_max_wand::covered(top_k.hits@, models, lens, k as nat, d) by {
                lemma_unessential_covered(
                    start,
                    top_k,
                    models,
                    lens,
                    dead,
                    floor,
                    order@,
                    essential as int,
                    d,
                );
            }
        }
        if candidate == u32::MAX {
            proof {
                assert forall|d: u32| #[trigger] block_max_wand::matches_query(
                    models,
                    dead,
                    d,
                ) implies block_max_wand::covered(top_k.hits@, models, lens, k as nat, d) by {
                    let j = choose|j: int|
                        0 <= j < models.len() && #[trigger] block_max_wand::holds(models[j], d);
                    assert(block_max_wand::holds(models[j], d));
                    assert(start[j].wf(lens));
                    let i = choose|i: int| block_max_wand::stands_at(models[j], i, d);
                    assert(start[j].term.list()[i].doc_id == d);
                    assert(d < u32::MAX);
                }
            }
            done = true;
        } else {
            let ghost ie = choose|i: int|
                essential <= i < order@.len() && start[#[trigger] order@[i] as int].current_doc
                    == candidate;
            let ghost je = order@[ie] as int;
            proof {
                assert(start[je].wf(lens));
                assert(start[je].current_doc == candidate);
                assert(start[je].term.list()[start[je].pos as int].doc_id == candidate);
                block_max_wand::lemma_weight_at(start[je].term, lens, start[je].pos as int);
                assert(block_max_wand::holds(models[je], candidate));
                assert(floor < candidate);
                assert forall|j: int, i: int|
                    #![trigger start[j].term.list()[i]]
                    0 <= j < start.len() && 0 <= i < start[j].pos implies start[j].term.list()[i].doc_id
                    < candidate by {
                    assert(start[j].term.list()[i].doc_id <= floor);
                }
            }
            let doc_len: u32 = index.doc_len(candidate);
            let standing: u64 = score_and_step(
                &mut cursors,
                candidate,
                doc_len,
                stats,
                Ghost(lens),
                Ghost(q),
                Ghost(run),
            );
            let ghost mid = q.stepped(run, candidate, q.models.len());
            let (score, complete) = probe(
                &mut cursors,
                &order,
                &cum,
                essential,
                candidate,
                doc_len,
                standing,
                threshold,
                stats,
                Ghost(lens),
                Ghost(start),
                Ghost(models),
                Ghost(q),
                Ghost(mid),
            );
            stats.num_docs_scored = stats.num_docs_scored.saturating_add(1);
            let ghost before = top_k;
            if !index.is_deleted(candidate) {
                let _ = top_k.insert(candidate, score);
            }
            proof {
                lemma_candidate_done(
                    start,
                    cursors@,
                    before,
                    top_k,
                    models,
                    lens,
                    dead,
                    floor,
                    candidate,
                    score,
                    complete,
                );
                floor = candidate as int;
                let probing = work::probed(
                    q,
                    mid,
                    order@,
                    threshold,
                    candidate,
                    standing as nat,
                    essential as nat,
                );
                let next = q.judged(probing.0, candidate, score as nat);
                assert(block_max_wand::follows(q, next, cursors@)) by {
                    reveal(block_max_wand::follows);
                }
                assert(work::step(q, run) == Some(next));
                run = next;
                rounds = rounds + 1;
                if essential > 0 {
                    lemma_threshold_rises(
                        before,
                        top_k,
                        SearchHit { doc_id: candidate, score },
                        sums::total(bo, essential as nat),
                    );
                }
                // Bounds do not move with the cursors.
                let b2 = block_max_wand::bounds(cursors@);
                assert forall|j: int| 0 <= j < n implies cursors@[j].list_bound
                    == start[j].list_bound by {
                    assert(cursors@[j].wf(lens) && probed(start[j], cursors@[j], candidate));
                    assert(start[j].wf(lens));
                }
                assert forall|m: nat| m <= n implies #[trigger] sums::total(
                    sums::along(b2, order@),
                    m,
                ) == sums::total(bo, m) by {
                    sums::lemma_total_eq(sums::along(b2, order@), bo, m);
                }
                bo = sums::along(b2, order@);
                assert forall|j: int| 0 <= j < n implies #[trigger] block_max_wand::ahead(
                    cursors@,
                )(j) <= block_max_wand::ahead(start)(j) by {
                    assert(cursors@[j].wf(lens) && probed(start[j], cursors@[j], candidate));
                }
                assert(cursors@[je].wf(lens) && probed(start[je], cursors@[je], candidate));
                sums::lemma_total_lt(
                    block_max_wand::ahead(cursors@),
                    block_max_wand::ahead(start),
                    n as nat,
                    je,
                );
            }
        }
    }
    proof {
        work::lemma_work(q, rounds);
        block_max_wand::lemma_work_bounded(*stats, cursors@, models, lens);
        block_max_wand::lemma_finished(top_k, models, lens, dead);
    }
    top_k.into_sorted_hits()
}

/// Exact top-k MaxScore search. Repeated terms count once, as in
/// [`block_max_wand::search`].
pub fn search<I: SearchableIndex + ?Sized>(index: &I, terms: &[String], k: usize) -> (r: (
    Vec<SearchHit>,
    SearchStats,
))
    requires
        index.wf(),
    ensures
        block_max_wand::answers_search(
            index,
            block_max_wand::texts(terms@),
            k as nat,
            Pruning::MaxScore,
            r.0@,
            r.1,
        ),
{
    let unique = first_positions(terms);
    let mut stats = SearchStats::default();
    stats.num_docs_total = index.num_docs();
    stats.num_query_terms = unique.len();
    let ghost models = block_max_wand::query_models(index, block_max_wand::texts(terms@));
    if k == 0 {
        let none: Vec<SearchHit> = Vec::new();
        proof {
            block_max_wand::lemma_no_hits(models, index.lens(), block_max_wand::dead_of(index));
        }
        return (none, stats);
    }
    proof {
        block_max_wand::lemma_firsts_len(block_max_wand::texts(terms@));
    }
    let cursors = open_cursors(index, terms, &unique, &mut stats);
    let ghost q = block_max_wand::query_of(
        index,
        block_max_wand::texts(terms@),
        k as nat,
        Pruning::MaxScore,
    );
    let hits = evaluate(index, cursors, k, &mut stats, Ghost(models), Ghost(q));
    (hits, stats)
}

} // verus!
