//! The inverted index in memory.

use crate::block_max_wand;
use crate::bm25;
use crate::hash;
use crate::hash::Fnv1a;
use crate::interner;
use crate::interner::Interner;
use crate::order;
use crate::postings;
use crate::postings::{BlockSource, Posting, PostingList, TermPostings};
use crate::reorder;
use crate::reorder::ReorderStrategy;
use crate::sums;
use crate::text;
use std::collections::HashMap;
use vstd::prelude::*;
use vstd::utf8::encode_utf8;

verus! {

/// One document to be indexed.
pub struct InputDoc {
    pub id: String,
    pub title: String,
    pub body: String,
}

/// The fields of a document needed to present a search hit.
pub struct DocSummary {
    pub id: String,
    pub title: String,
}

/// Read-only interface of everything that can be searched.
pub trait SearchableIndex {
    /// Length in tokens of each document.
    spec fn lens(&self) -> Seq<u32>;

    /// Tombstoned documents.
    spec fn dead(&self, doc_id: u32) -> bool;

    /// The postings of a term that occurs, with the statistics it is scored
    /// with.
    spec fn model(&self, term: Seq<char>) -> Option<block_max_wand::TermModel>;

    /// Postings per block.
    spec fn block_len(&self) -> int;

    /// External id and title of a document.
    spec fn summary(&self, doc_id: u32) -> (Seq<char>, Seq<char>);

    spec fn wf(&self) -> bool;

    /// The postings of a term are of documents of the index.
    proof fn lemma_docs_exist(&self, term: Seq<char>)
        requires
            self.wf(),
        ensures
            self.model(term) matches Some(m) ==> forall|i: int|
                0 <= i < m.list.len() ==> (#[trigger] m.list[i]).doc_id < self.lens().len(),
    ;

    /// There are no more terms than 32-bit ids.
    proof fn lemma_terms_bounded(&self, terms: Seq<Seq<char>>)
        requires
            self.wf(),
            terms.no_duplicates(),
            forall|i: int| 0 <= i < terms.len() ==> self.model(#[trigger] terms[i]) is Some,
        ensures
            terms.len() <= u32::MAX,
    ;

    fn num_docs(&self) -> (n: usize)
        requires
            self.wf(),
        ensures
            n == self.lens().len(),
    ;

    /// Length in tokens of one document.
    fn doc_len(&self, doc_id: u32) -> (len: u32)
        requires
            self.wf(),
            doc_id < self.lens().len(),
        ensures
            len == self.lens()[doc_id as int],
    ;

    /// External id and title of one document.
    fn doc_summary(&self, doc_id: u32) -> (s: DocSummary)
        requires
            self.wf(),
            doc_id < self.lens().len(),
        ensures
            s.id@ == self.summary(doc_id).0,
            s.title@ == self.summary(doc_id).1,
    ;

    /// Is the document tombstoned?
    fn is_deleted(&self, doc_id: u32) -> (d: bool)
        requires
            self.wf(),
        ensures
            d == self.dead(doc_id),
    ;

    /// Posting data of one term, `None` if the term does not occur.
    fn term_postings(&self, term: &str) -> (t: Option<TermPostings<'_>>)
        requires
            self.wf(),
        ensures
            t is Some <==> self.model(term@) is Some,
            t matches Some(p) ==> {
                &&& p.wf(self.lens())
                &&& p.df > 0
                &&& p.tight(self.lens())
                &&& p.block_size == self.block_len()
                &&& self.model(term@) == Some(block_max_wand::model_of(p))
            },
    ;
}

/// Per-document metadata stored in the index.
pub struct DocMeta {
    /// External document id.
    pub external_id: String,
    pub title: String,
    /// The first characters of the body.
    pub snippet: String,
    /// Document length in tokens.
    pub doc_len: u32,
    /// Hash of title and body, by which changes are noticed.
    pub content_hash: u64,
}

/// Characters of the body kept as snippet.
pub const SNIPPET_CHARS: usize = 200;

/// What the content hash is taken of. The separator occurs in no UTF-8 text.
pub open spec fn content_bytes(title: Seq<char>, body: Seq<char>) -> Seq<u8> {
    encode_utf8(title) + seq![0xFFu8] + encode_utf8(body)
}

/// Content hash over title and body.
pub fn content_hash(title: &str, body: &str) -> (h: u64)
    ensures
        h == hash::fnv1a_spec(content_bytes(title@, body@)),
{
    let mut h = Fnv1a::new();
    let sep: [u8; 1] = [0xFF];
    h.write(title.as_bytes());
    h.write(&sep);
    h.write(body.as_bytes());
    proof {
        let a = encode_utf8(title@);
        let b = seq![0xFFu8];
        let c = encode_utf8(body@);
        assert(sep@ =~= b);
        hash::law_fold_concat(hash::OFFSET_BASIS, a, b);
        hash::law_fold_concat(hash::OFFSET_BASIS, a + b, c);
    }
    h.finish()
}

proof fn lemma_scalar_bytes(c: u32)
    by (bit_vector)
    ensures
        (c & 0x7F) as u8 != 0xFF,
        0xC0u8 | ((c >> 6) & 0x1F) as u8 != 0xFF,
        0xE0u8 | ((c >> 12) & 0x0F) as u8 != 0xFF,
        0xF0u8 | ((c >> 18) & 0x7) as u8 != 0xFF,
        0x80u8 | (c & 0x3F) as u8 != 0xFF,
        0x80u8 | ((c >> 6) & 0x3F) as u8 != 0xFF,
        0x80u8 | ((c >> 12) & 0x3F) as u8 != 0xFF,
{
}

/// No byte of a UTF-8 text is the separator.
proof fn lemma_no_separator(s: Seq<char>)
    ensures
        forall|i: int| 0 <= i < encode_utf8(s).len() ==> #[trigger] encode_utf8(s)[i] != 0xFF,
    decreases s.len(),
{
    if s.len() > 0 {
        let c = s[0] as u32;
        lemma_scalar_bytes(c);
        lemma_no_separator(s.drop_first());
        let head = vstd::utf8::encode_scalar(c);
        assert forall|i: int| 0 <= i < head.len() implies #[trigger] head[i] != 0xFF by {}
        let rest = encode_utf8(s.drop_first());
        assert(encode_utf8(s) == head + rest);
        assert forall|i: int| 0 <= i < encode_utf8(s).len() implies #[trigger] encode_utf8(s)[i]
            != 0xFF by {
            if i < head.len() {
                assert(encode_utf8(s)[i] == head[i]);
            } else {
                assert(encode_utf8(s)[i] == rest[i - head.len()]);
            }
        }
    }
}

/// The content hash is taken of different bytes whenever the title or the
/// body differs: text does not move unseen from one into the other.
pub proof fn law_content_is_separated(
    title1: Seq<char>,
    body1: Seq<char>,
    title2: Seq<char>,
    body2: Seq<char>,
)
    requires
        content_bytes(title1, body1) == content_bytes(title2, body2),
    ensures
        title1 == title2,
        body1 == body2,
{
    broadcast use vstd::utf8::encode_utf8_decode_utf8;

    let (a, b) = (encode_utf8(title1), encode_utf8(title2));
    let (x, y) = (encode_utf8(body1), encode_utf8(body2));
    let all = content_bytes(title1, body1);
    lemma_no_separator(title1);
    lemma_no_separator(title2);
    assert(all[a.len() as int] == 0xFF);
    assert(all[b.len() as int] == 0xFF);
    if a.len() < b.len() {
        assert(all[a.len() as int] == b[a.len() as int]);
    } else if b.len() < a.len() {
        assert(all[b.len() as int] == a[b.len() as int]);
    }
    assert(a =~= all.take(a.len() as int));
    assert(b =~= all.take(a.len() as int));
    assert(x =~= all.skip((a.len() + 1) as int));
    assert(y =~= all.skip((a.len() + 1) as int));
    assert(vstd::utf8::decode_utf8(a) == vstd::utf8::decode_utf8(b));
    assert(vstd::utf8::decode_utf8(x) == vstd::utf8::decode_utf8(y));
}

/// A document and the tokens of its title and body.
pub struct DocTokens {
    pub doc: InputDoc,
    pub title_tokens: Vec<String>,
    pub body_tokens: Vec<String>,
}

/// The tokens of a document.
pub struct TokenModel {
    pub title: Seq<Seq<char>>,
    pub body: Seq<Seq<char>>,
}

impl View for DocTokens {
    type V = TokenModel;

    open spec fn view(&self) -> TokenModel {
        TokenModel {
            title: interner::name_views(self.title_tokens@),
            body: interner::name_views(self.body_tokens@),
        }
    }
}

/// How often `t` occurs among `tokens`.
pub open spec fn occurrences(tokens: Seq<Seq<char>>, t: Seq<char>) -> nat
    decreases tokens.len(),
{
    if tokens.len() == 0 {
        0
    } else if tokens.last() == t {
        occurrences(tokens.drop_last(), t) + 1
    } else {
        occurrences(tokens.drop_last(), t)
    }
}

/// The frequency of `t` in a document: an occurrence in the title counts
/// `weight` times.
pub open spec fn folded_tf(doc: TokenModel, weight: nat, t: Seq<char>) -> nat {
    weight * occurrences(doc.title, t) + occurrences(doc.body, t)
}

/// Document length in tokens; the title weight does not count here.
pub open spec fn token_len(doc: TokenModel) -> nat {
    doc.title.len() + doc.body.len()
}

/// The postings of `t` in the first `n` documents.
pub open spec fn term_list(docs: Seq<TokenModel>, weight: nat, t: Seq<char>, n: int) -> Seq<Posting>
    decreases n,
{
    if n <= 0 {
        Seq::empty()
    } else {
        let tf = folded_tf(docs[n - 1], weight, t);
        if tf > 0 {
            term_list(docs, weight, t, n - 1).push(
                Posting { doc_id: (n - 1) as u32, tf: tf as u32 },
            )
        } else {
            term_list(docs, weight, t, n - 1)
        }
    }
}

/// The metadata of a document.
pub open spec fn is_meta(m: DocMeta, d: InputDoc, tokens: TokenModel) -> bool {
    &&& m.external_id@ == d.id@
    &&& m.title@ == d.title@
    &&& m.snippet@ == (if d.body@.len() <= SNIPPET_CHARS {
        d.body@
    } else {
        d.body@.take(SNIPPET_CHARS as int)
    })
    &&& m.doc_len == token_len(tokens)
    &&& m.content_hash == hash::fnv1a_spec(content_bytes(d.title@, d.body@))
}

/// One tokenized document: metadata and its distinct terms with their
/// frequencies, ascending by term id.
pub struct TokenizedDoc {
    pub meta: DocMeta,
    pub pairs: Vec<(u32, u32)>,
}

/// `pairs` lists the terms of a document with their frequencies.
pub open spec fn lists_terms(
    pairs: Seq<(u32, u32)>,
    names: Seq<Seq<char>>,
    doc: TokenModel,
    weight: nat,
) -> bool {
    &&& forall|i: int, j: int| 0 <= i < j < pairs.len() ==> (#[trigger] pairs[i]).0 < (#[trigger] pairs[j]).0
    &&& forall|k: int|
        0 <= k < pairs.len() ==> {
            &&& (#[trigger] pairs[k]).0 < names.len()
            &&& pairs[k].1 == folded_tf(doc, weight, names[pairs[k].0 as int])
            &&& pairs[k].1 > 0
        }
    &&& forall|t: Seq<char>| #[trigger]
        folded_tf(doc, weight, t) > 0 ==> exists|k: int|
            0 <= k < pairs.len() && names[(#[trigger] pairs[k]).0 as int] == t
}

/// The running counts of the terms of one document: `f` of each term, by id,
/// and the ids in the order in which they came up.
spec fn counts(
    names: Seq<Seq<char>>,
    by_id: Map<u32, u32>,
    ids: Seq<u32>,
    f: spec_fn(Seq<char>) -> nat,
) -> bool {
    &&& forall|id: u32| #[trigger]
        by_id.contains_key(id) ==> id < names.len() && by_id[id] == f(names[id as int]) && by_id[id]
            > 0
    &&& forall|t: Seq<char>| #[trigger]
        f(t) > 0 ==> exists|id: u32| #[trigger]
            by_id.contains_key(id) && id < names.len() && names[id as int] == t
    &&& forall|id: u32| #[trigger] by_id.contains_key(id) <==> ids.contains(id)
    &&& ids.no_duplicates()
}

spec fn more(f: spec_fn(Seq<char>) -> nat, w: nat, tokens: Seq<Seq<char>>) -> spec_fn(
    Seq<char>,
) -> nat {
    |t: Seq<char>| f(t) + w * occurrences(tokens, t)
}

pub proof fn lemma_occurrences_bound(tokens: Seq<Seq<char>>, t: Seq<char>)
    ensures
        occurrences(tokens, t) <= tokens.len(),
    decreases tokens.len(),
{
    if tokens.len() > 0 {
        lemma_occurrences_bound(tokens.drop_last(), t);
    }
}

/// Count `tokens`, each as `w` occurrences.
fn count_tokens(
    terms: &mut Interner,
    tokens: &Vec<String>,
    w: u32,
    by_id: &mut HashMap<u32, u32>,
    ids: &mut Vec<u32>,
    Ghost(f): Ghost<spec_fn(Seq<char>) -> nat>,
    Ghost(room): Ghost<nat>,
)
    requires
        old(terms).wf(),
        noted(old(terms)@, interner::name_views(tokens@)).len() <= u32::MAX,
        w > 0,
        counts(old(terms)@, old(by_id)@, old(ids)@, f),
        forall|t: Seq<char>| #[trigger] f(t) <= room,
        room + w * tokens@.len() <= u32::MAX,
    ensures
        final(terms).wf(),
        final(terms)@ == noted(old(terms)@, interner::name_views(tokens@)),
        counts(
            final(terms)@,
            final(by_id)@,
            final(ids)@,
            more(f, w as nat, interner::name_views(tokens@)),
        ),
{
    broadcast use vstd::std_specs::hash::group_hash_axioms;

    let ghost names0 = terms@;
    let ghost all = interner::name_views(tokens@);
    let mut i: usize = 0;
    proof {
        assert(all.take(0) =~= Seq::<Seq<char>>::empty());
        assert forall|t: Seq<char>| #[trigger] more(f, w as nat, all.take(0))(t) == f(t) by {
            assert(w * occurrences(all.take(0), t) == 0) by (nonlinear_arith)
                requires
                    occurrences(all.take(0), t) == 0,
            ;
        }
        lemma_counts_eq(terms@, by_id@, ids@, f, more(f, w as nat, all.take(0)));
    }
    while i < tokens.len()
        invariant
            all == interner::name_views(tokens@),
            terms.wf(),
            noted(names0, all).len() <= u32::MAX,
            terms@ == noted(names0, all.take(i as int)),
            w > 0,
            i <= tokens@.len(),
            counts(terms@, by_id@, ids@, more(f, w as nat, all.take(i as int))),
            forall|t: Seq<char>| #[trigger] f(t) <= room,
            room + w * tokens@.len() <= u32::MAX,
        decreases tokens@.len() - i,
    {
        broadcast use vstd::std_specs::hash::group_hash_axioms;

        let ghost names1 = terms@;
        let ghost by1 = by_id@;
        let ghost ids1 = ids@;
        let ghost f1 = more(f, w as nat, all.take(i as int));
        let ghost f2 = more(f, w as nat, all.take(i + 1));
        let ghost tok = all[i as int];
        proof {
            assert(all.take(i + 1).drop_last() =~= all.take(i as int));
            lemma_noted_grows(names0, all, i + 1);
        }
        let id: u32 = terms.get_or_insert(tokens[i].as_str());
        let prev: u32 = match by_id.get(&id) {
            Some(c) => *c,
            None => 0,
        };
        proof {
            assert(all.take(i + 1).drop_last() =~= all.take(i as int));
            assert(all.take(i + 1).last() == tok);
            assert forall|t: Seq<char>| #[trigger] f2(t) == f1(t) + (if t == tok {
                w as int
            } else {
                0
            }) by {
                let o = occurrences(all.take(i as int), t);
                assert(w * (o + 1) == w * o + w) by (nonlinear_arith);
            }
            lemma_occurrences_bound(all.take(i as int), tok);
            let o = occurrences(all.take(i as int), tok);
            assert(w * o + w <= w * tokens@.len()) by (nonlinear_arith)
                requires
                    o + 1 <= tokens@.len(),
            ;
            assert(f(tok) <= room);
            assert(terms@[id as int] == tok);
            // The count so far under this id is the count so far of the term.
            assert(prev == f1(tok)) by {
                if by1.contains_key(id) {
                    assert(names1[id as int] == terms@[id as int]);
                } else if f1(tok) > 0 {
                    let j = choose|j: u32| #[trigger]
                        by1.contains_key(j) && j < names1.len() && names1[j as int] == tok;
                    assert(terms@[j as int] == terms@[id as int]);
                    assert(j == id);
                }
            }
        }
        if prev == 0 {
            ids.push(id);
        }
        by_id.insert(id, prev + w);
        proof {
            assert forall|x: u32| #[trigger] by_id@.contains_key(x) implies x < terms@.len()
                && by_id@[x] == f2(terms@[x as int]) && by_id@[x] > 0 by {
                if x != id {
                    assert(by1.contains_key(x));
                    assert(terms@[x as int] == names1[x as int]);
                    assert(terms@[x as int] != terms@[id as int]);
                }
            }
            assert forall|t: Seq<char>| #[trigger] f2(t) > 0 implies exists|x: u32| #[trigger]
                by_id@.contains_key(x) && x < terms@.len() && terms@[x as int] == t by {
                if t == tok {
                    assert(by_id@.contains_key(id));
                } else {
                    assert(f1(t) > 0);
                    let x = choose|x: u32| #[trigger]
                        by1.contains_key(x) && x < names1.len() && names1[x as int] == t;
                    assert(by_id@.contains_key(x));
                    assert(terms@[x as int] == names1[x as int]);
                }
            }
            assert forall|x: u32| #[trigger] by_id@.contains_key(x) <==> ids@.contains(x) by {
                if prev == 0 {
                    assert(!by1.contains_key(id));
                    lemma_contains_push(ids1, id, x);
                }
            }
            assert(ids@.no_duplicates()) by {
                if prev == 0 {
                    assert(!ids1.contains(id));
                    lemma_push_distinct(ids1, id);
                }
            }
            assert(counts(terms@, by_id@, ids@, f2));
        }
        i += 1;
    }
    assert(all.take(i as int) =~= all);
}

proof fn lemma_contains_push(s: Seq<u32>, v: u32, x: u32)
    ensures
        s.push(v).contains(x) <==> s.contains(x) || x == v,
{
    if s.contains(x) {
        let j = choose|j: int| 0 <= j < s.len() && s[j] == x;
        assert(s.push(v)[j] == x);
    }
    if x == v {
        assert(s.push(v)[s.len() as int] == x);
    }
}

proof fn lemma_push_distinct(s: Seq<u32>, v: u32)
    requires
        s.no_duplicates(),
        !s.contains(v),
    ensures
        s.push(v).no_duplicates(),
{
    let p = s.push(v);
    assert forall|i: int, j: int| 0 <= i < p.len() && 0 <= j < p.len() && i != j implies p[i]
        != p[j] by {
        if i == s.len() {
            assert(s[j] != v) by {
                if s[j] == v {
                    assert(s.contains(v));
                }
            }
        } else if j == s.len() {
            assert(s[i] != v) by {
                if s[i] == v {
                    assert(s.contains(v));
                }
            }
        }
    }
}

proof fn lemma_counts_eq(
    names: Seq<Seq<char>>,
    by_id: Map<u32, u32>,
    ids: Seq<u32>,
    f: spec_fn(Seq<char>) -> nat,
    g: spec_fn(Seq<char>) -> nat,
)
    requires
        counts(names, by_id, ids, f),
        forall|t: Seq<char>| #[trigger] g(t) == f(t),
    ensures
        counts(names, by_id, ids, g),
{
    assert forall|id: u32| #[trigger] by_id.contains_key(id) implies id < names.len() && by_id[id]
        == g(names[id as int]) && by_id[id] > 0 by {
        assert(g(names[id as int]) == f(names[id as int]));
    }
    assert forall|t: Seq<char>| #[trigger] g(t) > 0 implies exists|id: u32| #[trigger]
        by_id.contains_key(id) && id < names.len() && names[id as int] == t by {
        assert(f(t) > 0);
    }
}

/// The distinct terms of a document with their frequencies, by ascending id.
pub(crate) fn term_pairs(terms: &mut Interner, doc: &DocTokens, title_weight: u32) -> (pairs: Vec<(u32, u32)>)
    requires
        old(terms).wf(),
        title_weight > 0,
        doc_fits(doc@, old(terms)@, title_weight as nat),
    ensures
        final(terms).wf(),
        final(terms)@ == noted_doc(old(terms)@, doc@),
        pairs@.len() == distinct_words(doc@),
        lists_terms(pairs@, final(terms)@, doc@, title_weight as nat),
{
    broadcast use vstd::std_specs::hash::group_hash_axioms;

    let ghost names0 = terms@;
    let mut by_id: HashMap<u32, u32> = HashMap::new();
    let mut ids: Vec<u32> = Vec::new();
    let ghost zero = |t: Seq<char>| 0nat;
    let ghost titled = more(zero, title_weight as nat, doc@.title);
    let ghost whole = more(titled, 1, doc@.body);
    let ghost room = title_weight as nat * doc@.title.len();
    proof {
        assert(counts(terms@, by_id@, ids@, zero));
        assert forall|t: Seq<char>| #[trigger] titled(t) <= room by {
            lemma_occurrences_bound(doc@.title, t);
            let o = occurrences(doc@.title, t);
            assert(title_weight as nat * o <= room) by (nonlinear_arith)
                requires
                    o <= doc@.title.len(),
                    room == title_weight as nat * doc@.title.len(),
            ;
        }
        assert(1 * doc@.body.len() == doc@.body.len());
    }
    proof {
        lemma_noted_prefix(noted(names0, doc@.title), doc@.body);
    }
    count_tokens(terms, &doc.title_tokens, title_weight, &mut by_id, &mut ids, Ghost(zero), Ghost(0));
    count_tokens(terms, &doc.body_tokens, 1, &mut by_id, &mut ids, Ghost(titled), Ghost(room));
    proof {
        assert forall|t: Seq<char>| #[trigger] whole(t) == folded_tf(
            doc@,
            title_weight as nat,
            t,
        ) by {}
    }
    let n: usize = ids.len();
    let mut keys: Vec<u64> = Vec::new();
    let mut i: usize = 0;
    while i < n
        invariant
            i <= n == ids@.len(),
            keys@.len() == i,
            forall|j: int| 0 <= j < i ==> #[trigger] keys@[j] == ids@[j],
        decreases n - i,
    {
        keys.push(ids[i] as u64);
        i += 1;
    }
    let by_key = order::order_by_key(keys.as_slice());
    let mut pairs: Vec<(u32, u32)> = Vec::new();
    let mut k: usize = 0;
    proof {
        assert forall|j: int| 0 <= j < n implies by_id@.contains_key(#[trigger] ids@[j]) by {
            assert(ids@.contains(ids@[j]));
        }
    }
    while k < n
        invariant
            k <= n == ids@.len(),
            by_key@.len() == n,
            forall|j: int| 0 <= j < n ==> #[trigger] by_key@[j] < n,
            forall|j: int| 0 <= j < n ==> by_id@.contains_key(#[trigger] ids@[j]),
            pairs@.len() == k,
            forall|j: int|
                0 <= j < k ==> #[trigger] pairs@[j] == (
                    ids@[by_key@[j] as int],
                    by_id@[ids@[by_key@[j] as int]],
                ),
        decreases n - k,
    {
        broadcast use vstd::std_specs::hash::group_hash_axioms;

        let id: u32 = ids[by_key[k]];
        assert(by_id@.contains_key(id));
        let tf: u32 = match by_id.get(&id) {
            Some(c) => *c,
            None => 0,
        };
        pairs.push((id, tf));
        k += 1;
    }
    proof {
        let w = title_weight as nat;
        assert forall|a: int, b: int| 0 <= a < b < pairs@.len() implies (#[trigger] pairs@[a]).0 < (
        #[trigger] pairs@[b]).0 by {
            let x = by_key@[a] as int;
            let y = by_key@[b] as int;
            assert(order::key_less(keys@)(x, y));
            if ids@[x] == ids@[y] {
                assert(x == y);
            }
        }
        assert forall|j: int| 0 <= j < pairs@.len() implies {
            &&& (#[trigger] pairs@[j]).0 < terms@.len()
            &&& pairs@[j].1 == folded_tf(doc@, w, terms@[pairs@[j].0 as int])
            &&& pairs@[j].1 > 0
        } by {
            let id = ids@[by_key@[j] as int];
            assert(by_id@.contains_key(id));
            assert(whole(terms@[id as int]) == folded_tf(doc@, w, terms@[id as int]));
        }
        assert forall|t: Seq<char>| #[trigger] folded_tf(doc@, w, t) > 0 implies exists|j: int|
            0 <= j < pairs@.len() && terms@[(#[trigger] pairs@[j]).0 as int] == t by {
            assert(whole(t) > 0);
            let id = choose|id: u32| #[trigger]
                by_id@.contains_key(id) && id < terms@.len() && terms@[id as int] == t;
            assert(ids@.contains(id));
            let a = choose|a: int| 0 <= a < ids@.len() && ids@[a] == id;
            assert(by_key@.contains(a as usize));
            let j = choose|j: int| 0 <= j < by_key@.len() && by_key@[j] == a as usize;
            assert(pairs@[j].0 == id);
        }
        lemma_pair_count(pairs@, terms@, doc@, w);
    }
    pairs
}

/// As many pairs as distinct words.
proof fn lemma_pair_count(
    pairs: Seq<(u32, u32)>,
    names: Seq<Seq<char>>,
    doc: TokenModel,
    weight: nat,
)
    requires
        lists_terms(pairs, names, doc, weight),
        names.no_duplicates(),
        weight > 0,
    ensures
        pairs.len() == distinct_words(doc),
{
    let a = Seq::new(pairs.len(), |k: int| names[pairs[k].0 as int]);
    let b = noted_doc(Seq::empty(), doc);
    lemma_noted_prefix(Seq::<Seq<char>>::empty(), doc.title);
    lemma_noted_prefix(noted(Seq::empty(), doc.title), doc.body);
    assert(a.no_duplicates()) by {
        assert forall|i: int, j: int| 0 <= i < a.len() && 0 <= j < a.len() && i != j implies a[i]
            != a[j] by {
            if i < j {
                assert(pairs[i].0 < pairs[j].0);
            } else {
                assert(pairs[j].0 < pairs[i].0);
            }
        }
    }
    assert forall|t: Seq<char>| a.contains(t) <==> b.contains(t) by {
        lemma_noted_doc(Seq::empty(), doc, weight, t);
        if a.contains(t) {
            let k = choose|k: int| 0 <= k < a.len() && a[k] == t;
            assert(pairs[k].1 > 0);
        }
        if b.contains(t) {
            let k = choose|k: int| 0 <= k < pairs.len() && names[(#[trigger] pairs[k]).0 as int] == t;
            assert(a[k] == t);
        }
    }
    assert(a.to_set() =~= b.to_set());
    a.unique_seq_to_set();
    b.unique_seq_to_set();
}

/// The names, and after them the words that are not among them, in the order
/// in which they come up.
pub open spec fn noted(names: Seq<Seq<char>>, words: Seq<Seq<char>>) -> Seq<Seq<char>>
    decreases words.len(),
{
    if words.len() == 0 {
        names
    } else {
        let before = noted(names, words.drop_last());
        if before.contains(words.last()) {
            before
        } else {
            before.push(words.last())
        }
    }
}

/// The names, and after them the new words of the document, title first.
pub open spec fn noted_doc(names: Seq<Seq<char>>, doc: TokenModel) -> Seq<Seq<char>> {
    noted(noted(names, doc.title), doc.body)
}

/// The names, and after them the new words of all documents.
pub open spec fn noted_all(names: Seq<Seq<char>>, docs: Seq<TokenModel>) -> Seq<Seq<char>>
    decreases docs.len(),
{
    if docs.len() == 0 {
        names
    } else {
        noted_doc(noted_all(names, docs.drop_last()), docs.last())
    }
}

/// The words of the documents, each once, in the order in which they come up.
pub open spec fn first_seen(docs: Seq<TokenModel>) -> Seq<Seq<char>> {
    noted_all(Seq::empty(), docs)
}

/// How many different words a document has.
pub open spec fn distinct_words(doc: TokenModel) -> nat {
    noted_doc(Seq::empty(), doc).len()
}

pub proof fn lemma_noted(names: Seq<Seq<char>>, words: Seq<Seq<char>>, t: Seq<char>)
    ensures
        noted(names, words).contains(t) <==> names.contains(t) || occurrences(words, t) > 0,
    decreases words.len(),
{
    if words.len() > 0 {
        lemma_noted(names, words.drop_last(), t);
        let before = noted(names, words.drop_last());
        let after = before.push(words.last());
        assert(after.last() == words.last());
        if before.contains(t) {
            let i = choose|i: int| 0 <= i < before.len() && before[i] == t;
            assert(after[i] == t);
        }
        if after.contains(t) && t != words.last() {
            let i = choose|i: int| 0 <= i < after.len() && after[i] == t;
            assert(before[i] == t);
        }
    }
}

pub proof fn lemma_occurs(words: Seq<Seq<char>>, t: Seq<char>)
    ensures
        occurrences(words, t) > 0 <==> words.contains(t),
    decreases words.len(),
{
    if words.len() > 0 {
        let front = words.drop_last();
        lemma_occurs(front, t);
        if front.contains(t) {
            let i = choose|i: int| 0 <= i < front.len() && front[i] == t;
            assert(words[i] == t);
        } else if words.contains(t) {
            let i = choose|i: int| 0 <= i < words.len() && words[i] == t;
            if i < front.len() {
                assert(front[i] == t);
            }
        }
        assert(words[words.len() - 1] == words.last());
    }
}

pub proof fn lemma_noted_prefix(names: Seq<Seq<char>>, words: Seq<Seq<char>>)
    ensures
        names.len() <= noted(names, words).len(),
        noted(names, words).take(names.len() as int) == names,
        names.no_duplicates() ==> noted(names, words).no_duplicates(),
        noted(names, words).len() <= names.len() + words.len(),
    decreases words.len(),
{
    if words.len() == 0 {
        assert(names.take(names.len() as int) =~= names);
    } else {
        lemma_noted_prefix(names, words.drop_last());
        let before = noted(names, words.drop_last());
        let after = before.push(words.last());
        assert(after.take(names.len() as int) =~= before.take(names.len() as int));
        if names.no_duplicates() && !before.contains(words.last()) {
            assert forall|i: int, j: int|
                0 <= i < after.len() && 0 <= j < after.len() && i != j implies after[i] != after[j] by {
                if i == before.len() {
                    assert(before.contains(before[j]));
                } else if j == before.len() {
                    assert(before.contains(before[i]));
                }
            }
        }
    }
}

proof fn lemma_noted_grows(names: Seq<Seq<char>>, words: Seq<Seq<char>>, i: int)
    requires
        0 <= i <= words.len(),
    ensures
        noted(names, words.take(i)).len() <= noted(names, words).len(),
    decreases words.len(),
{
    if i == words.len() {
        assert(words.take(i) =~= words);
    } else {
        lemma_noted_grows(names, words.drop_last(), i);
        assert(words.drop_last().take(i) =~= words.take(i));
    }
}

pub proof fn lemma_noted_doc(names: Seq<Seq<char>>, doc: TokenModel, weight: nat, t: Seq<char>)
    requires
        weight > 0,
    ensures
        noted_doc(names, doc).contains(t) <==> names.contains(t) || folded_tf(doc, weight, t) > 0,
{
    lemma_noted(names, doc.title, t);
    lemma_noted(noted(names, doc.title), doc.body, t);
    let o = occurrences(doc.title, t);
    assert(o > 0 <==> weight * o > 0) by (nonlinear_arith)
        requires
            weight > 0,
            o >= 0,
    ;
}

/// What is noted are the terms that have postings, each once.
pub proof fn lemma_first_seen(docs: Seq<TokenModel>, weight: nat)
    requires
        weight > 0,
    ensures
        first_seen(docs).no_duplicates(),
        forall|t: Seq<char>| #[trigger]
            first_seen(docs).contains(t) <==> term_list(docs, weight, t, docs.len() as int).len() > 0,
    decreases docs.len(),
{
    if docs.len() > 0 {
        let front = docs.drop_last();
        let doc = docs.last();
        lemma_first_seen(front, weight);
        lemma_noted_prefix(first_seen(front), doc.title);
        lemma_noted_prefix(noted(first_seen(front), doc.title), doc.body);
        assert forall|t: Seq<char>| #[trigger]
            first_seen(docs).contains(t) <==> term_list(docs, weight, t, docs.len() as int).len() > 0 by {
            lemma_noted_doc(first_seen(front), doc, weight, t);
            lemma_term_list_prefix(docs, front, weight, t, front.len() as int);
            assert(first_seen(front).contains(t) <==> term_list(
                front,
                weight,
                t,
                front.len() as int,
            ).len() > 0);
        }
    }
}

/// What is noted are the words of the documents.
pub proof fn lemma_first_seen_words(docs: Seq<TokenModel>, weight: nat, t: Seq<char>)
    requires
        weight > 0,
    ensures
        first_seen(docs).contains(t) <==> exists|d: int|
            0 <= d < docs.len() && folded_tf(#[trigger] docs[d], weight, t) > 0,
    decreases docs.len(),
{
    if docs.len() > 0 {
        let front = docs.drop_last();
        lemma_first_seen_words(front, weight, t);
        lemma_noted_doc(first_seen(front), docs.last(), weight, t);
        if first_seen(front).contains(t) {
            let d = choose|d: int|
                0 <= d < front.len() && folded_tf(#[trigger] front[d], weight, t) > 0;
            assert(docs[d] == front[d]);
        } else if exists|d: int| 0 <= d < docs.len() && folded_tf(#[trigger] docs[d], weight, t) > 0 {
            let d = choose|d: int|
                0 <= d < docs.len() && folded_tf(#[trigger] docs[d], weight, t) > 0;
            if d < front.len() {
                assert(front[d] == docs[d]);
            }
        }
        assert(docs[docs.len() - 1] == docs.last());
    }
}

/// Fewer documents do not have more words.
pub proof fn lemma_fewer_words(a: Seq<TokenModel>, b: Seq<TokenModel>)
    requires
        forall|i: int| 0 <= i < a.len() ==> b.contains(#[trigger] a[i]),
    ensures
        first_seen(a).len() <= first_seen(b).len(),
        forall|t: Seq<char>| #[trigger] first_seen(a).contains(t) ==> first_seen(b).contains(t),
{
    let (x, y) = (first_seen(a), first_seen(b));
    lemma_first_seen(a, 1);
    lemma_first_seen(b, 1);
    assert forall|t: Seq<char>| #[trigger] x.contains(t) implies y.contains(t) by {
        lemma_first_seen_words(a, 1, t);
        lemma_first_seen_words(b, 1, t);
        let d = choose|d: int| 0 <= d < a.len() && folded_tf(#[trigger] a[d], 1, t) > 0;
        assert(b.contains(a[d]));
        let e = choose|e: int| 0 <= e < b.len() && b[e] == a[d];
        assert(folded_tf(b[e], 1, t) > 0);
    }
    assert(x.to_set().subset_of(y.to_set())) by {
        assert forall|t: Seq<char>| x.to_set().contains(t) implies y.to_set().contains(t) by {
            assert(x.contains(t));
        }
    }
    x.unique_seq_to_set();
    y.unique_seq_to_set();
    vstd::set_lib::lemma_len_subset(x.to_set(), y.to_set());
}

/// Take up the tokens, unless the names become too many.
pub(crate) fn note(names: &mut Interner, tokens: &Vec<String>) -> (r: bool)
    requires
        old(names).wf(),
    ensures
        final(names).wf(),
        r == (noted(old(names)@, interner::name_views(tokens@)).len() <= u32::MAX),
        r ==> final(names)@ == noted(old(names)@, interner::name_views(tokens@)),
{
    let ghost start = names@;
    let ghost all = interner::name_views(tokens@);
    let mut i: usize = 0;
    assert(all.take(0) =~= Seq::<Seq<char>>::empty());
    while i < tokens.len()
        invariant
            start == old(names)@,
            all == interner::name_views(tokens@),
            i <= tokens@.len(),
            names.wf(),
            names@ == noted(start, all.take(i as int)),
        decreases tokens@.len() - i,
    {
        proof {
            assert(all.take(i + 1).drop_last() =~= all.take(i as int));
            assert(all.take(i + 1).last() == tokens@[i as int]@);
            lemma_noted_grows(start, all, i + 1);
        }
        if names.len() >= u32::MAX as usize {
            if names.get(tokens[i].as_str()).is_none() {
                assert(!names@.contains(all[i as int]));
                assert(noted(start, all.take(i + 1)).len() > u32::MAX);
                return false;
            }
        }
        let _ = names.get_or_insert(tokens[i].as_str());
        i += 1;
    }
    assert(all.take(i as int) =~= all);
    let size: usize = names.len();
    size <= u32::MAX as usize
}

/// Can the terms of the documents be numbered?
pub fn terms_fit(docs: &[DocTokens]) -> (r: bool)
    ensures
        r == (first_seen(doc_views(docs@)).len() <= u32::MAX),
{
    let ghost all = doc_views(docs@);
    let mut names = Interner::new();
    let mut i: usize = 0;
    assert(all.take(0) =~= Seq::<TokenModel>::empty());
    assert(names@ =~= Seq::<Seq<char>>::empty());
    while i < docs.len()
        invariant
            all == doc_views(docs@),
            i <= docs@.len(),
            names.wf(),
            names@ == first_seen(all.take(i as int)),
            names@.len() <= u32::MAX,
        decreases docs@.len() - i,
    {
        proof {
            assert(all.take(i + 1).drop_last() =~= all.take(i as int));
            assert(all.take(i + 1).last() == docs@[i as int]@);
            lemma_noted_all_grows(Seq::empty(), all, i + 1);
            lemma_noted_prefix(noted(names@, docs@[i as int]@.title), docs@[i as int]@.body);
        }
        if !note(&mut names, &docs[i].title_tokens) || !note(&mut names, &docs[i].body_tokens) {
            return false;
        }
        i += 1;
    }
    assert(all.take(i as int) =~= all);
    true
}

/// Nothing noted is forgotten.
pub proof fn lemma_noted_all_grows(names: Seq<Seq<char>>, docs: Seq<TokenModel>, i: int)
    requires
        0 <= i <= docs.len(),
    ensures
        noted_all(names, docs.take(i)).len() <= noted_all(names, docs).len(),
        names.len() <= noted_all(names, docs).len() <= names.len() + total_len(docs),
    decreases docs.len(),
{
    if docs.len() > 0 {
        let front = docs.drop_last();
        let doc = docs.last();
        let before = noted_all(names, front);
        lemma_noted_prefix(before, doc.title);
        lemma_noted_prefix(noted(before, doc.title), doc.body);
        sums::lemma_total_eq(lens_fn(front), lens_fn(docs), front.len());
        if i == docs.len() {
            assert(docs.take(i) =~= docs);
            lemma_noted_all_grows(names, front, 0);
        } else {
            lemma_noted_all_grows(names, front, i);
            assert(front.take(i) =~= docs.take(i));
        }
    } else {
        assert(docs.take(i) =~= docs);
    }
}

/// Noting goes on where it stopped.
pub proof fn lemma_noted_all_concat(
    names: Seq<Seq<char>>,
    a: Seq<TokenModel>,
    b: Seq<TokenModel>,
)
    ensures
        noted_all(names, a + b) == noted_all(noted_all(names, a), b),
    decreases b.len(),
{
    if b.len() == 0 {
        assert(a + b =~= a);
    } else {
        lemma_noted_all_concat(names, a, b.drop_last());
        assert((a + b).drop_last() =~= a + b.drop_last());
    }
}

/// The ids, the frequencies and the length of the document fit in 32 bits.
pub open spec fn doc_fits(doc: TokenModel, known: Seq<Seq<char>>, weight: nat) -> bool {
    &&& noted_doc(known, doc).len() <= u32::MAX
    &&& weight * doc.title.len() + doc.body.len() <= u32::MAX
}

/// Where the frequencies fit, so does the length.
pub proof fn lemma_len_fits(doc: TokenModel, weight: nat)
    requires
        weight > 0,
        weight * doc.title.len() + doc.body.len() <= u32::MAX,
    ensures
        token_len(doc) <= u32::MAX,
{
    let n = doc.title.len();
    assert(n <= weight * n) by (nonlinear_arith)
        requires
            weight > 0,
            n >= 0,
    ;
}

/// A larger dictionary lists the terms of the document as before.
proof fn lemma_lists_terms_extend(
    pairs: Seq<(u32, u32)>,
    names: Seq<Seq<char>>,
    wider: Seq<Seq<char>>,
    doc: TokenModel,
    weight: nat,
)
    requires
        lists_terms(pairs, names, doc, weight),
        names.len() <= wider.len(),
        wider.take(names.len() as int) == names,
    ensures
        lists_terms(pairs, wider, doc, weight),
{
    assert forall|i: int| 0 <= i < names.len() implies names[i] == wider[i] by {
        assert(wider.take(names.len() as int)[i] == names[i]);
    }
    assert forall|t: Seq<char>| #[trigger] folded_tf(doc, weight, t) > 0 implies exists|k: int|
        0 <= k < pairs.len() && wider[(#[trigger] pairs[k]).0 as int] == t by {
        let k = choose|k: int| 0 <= k < pairs.len() && names[(#[trigger] pairs[k]).0 as int] == t;
        assert(wider[pairs[k].0 as int] == t);
    }
}

/// Incremental index builder: feed it tokenized documents, then `finish`.
pub struct IndexBuilder {
    pub terms: Interner,
    pub docs: Vec<TokenizedDoc>,
    pub remove_stopwords: bool,
    pub title_weight: u32,
    pub block_size: usize,
    pub reorder: ReorderStrategy,
    /// The tokens of the documents so far.
    pub tokens: Ghost<Seq<TokenModel>>,
}

impl IndexBuilder {
    pub open spec fn wf(&self) -> bool {
        &&& self.terms.wf()
        &&& self.title_weight > 0
        &&& self.block_size > 0
        &&& self.docs@.len() == self.tokens@.len()
        &&& self.docs@.len() <= u32::MAX
        &&& self.terms@ == first_seen(self.tokens@)
        &&& forall|d: int|
            0 <= d < self.docs@.len() ==> {
                &&& lists_terms(
                    (#[trigger] self.docs@[d]).pairs@,
                    self.terms@,
                    self.tokens@[d],
                    self.title_weight as nat,
                )
                &&& self.docs@[d].meta.doc_len == token_len(self.tokens@[d])
            }
    }

    /// A title weight of 0 counts as 1.
    pub fn new(
        remove_stopwords: bool,
        title_weight: u32,
        block_size: usize,
        reorder: ReorderStrategy,
    ) -> (b: Self)
        requires
            block_size > 0,
        ensures
            b.wf(),
            b.docs@.len() == 0,
            b.remove_stopwords == remove_stopwords,
            b.title_weight == (if title_weight == 0 {
                1
            } else {
                title_weight
            }),
            b.block_size == block_size,
            b.reorder == reorder,
    {
        let weight: u32 = if title_weight == 0 { 1 } else { title_weight };
        IndexBuilder {
            terms: Interner::new(),
            docs: Vec::new(),
            remove_stopwords,
            title_weight: weight,
            block_size,
            reorder,
            tokens: Ghost(Seq::empty()),
        }
    }

    /// Add one document.
    pub fn add_document(&mut self, doc: &DocTokens)
        requires
            old(self).wf(),
            old(self).docs@.len() < u32::MAX,
            doc_fits(doc@, old(self).terms@, old(self).title_weight as nat),
        ensures
            final(self).wf(),
            final(self).tokens@ == old(self).tokens@.push(doc@),
            final(self).docs@.len() == old(self).docs@.len() + 1,
            final(self).docs@.drop_last() == old(self).docs@,
            is_meta(final(self).docs@.last().meta, doc.doc, doc@),
            final(self).title_weight == old(self).title_weight,
            final(self).remove_stopwords == old(self).remove_stopwords,
            final(self).block_size == old(self).block_size,
            final(self).reorder == old(self).reorder,
    {
        let ghost before = *self;
        let pairs = term_pairs(&mut self.terms, doc, self.title_weight);
        proof {
            lemma_len_fits(doc@, self.title_weight as nat);
        }
        let n1: usize = doc.title_tokens.len();
        let n2: usize = doc.body_tokens.len();
        let chars = text::chars_of(doc.doc.body.as_str());
        let keep: usize = if chars.len() < SNIPPET_CHARS { chars.len() } else { SNIPPET_CHARS };
        let head: &[char] = vstd::slice::slice_subrange(chars.as_slice(), 0, keep);
        proof {
            if doc.doc.body@.len() <= SNIPPET_CHARS {
                assert(head@ =~= doc.doc.body@);
            } else {
                assert(head@ =~= doc.doc.body@.take(SNIPPET_CHARS as int));
            }
        }
        let meta = DocMeta {
            external_id: doc.doc.id.clone(),
            title: doc.doc.title.clone(),
            snippet: text::string_of(head),
            doc_len: (n1 + n2) as u32,
            content_hash: content_hash(doc.doc.title.as_str(), doc.doc.body.as_str()),
        };
        self.docs.push(TokenizedDoc { meta, pairs });
        proof {
            self.tokens@ = self.tokens@.push(doc@);
            assert(self.tokens@.drop_last() =~= before.tokens@);
            lemma_noted_prefix(before.terms@, doc@.title);
            lemma_noted_prefix(noted(before.terms@, doc@.title), doc@.body);
            assert(self.terms@.take(before.terms@.len() as int) =~= before.terms@) by {
                let mid = noted(before.terms@, doc@.title);
                assert forall|i: int| 0 <= i < before.terms@.len() implies self.terms@[i]
                    == before.terms@[i] by {
                    assert(self.terms@.take(mid.len() as int)[i] == mid[i]);
                    assert(mid.take(before.terms@.len() as int)[i] == before.terms@[i]);
                }
            }
            assert(self.docs@.drop_last() =~= before.docs@);
            assert forall|d: int| 0 <= d < self.docs@.len() implies {
                &&& lists_terms(
                    (#[trigger] self.docs@[d]).pairs@,
                    self.terms@,
                    self.tokens@[d],
                    self.title_weight as nat,
                )
                &&& self.docs@[d].meta.doc_len == token_len(self.tokens@[d])
            } by {
                if d < before.docs@.len() {
                    assert(self.docs@[d] == before.docs@[d]);
                    lemma_lists_terms_extend(
                        before.docs@[d].pairs@,
                        before.terms@,
                        self.terms@,
                        before.tokens@[d],
                        self.title_weight as nat,
                    );
                }
            }
        }
    }
}

/// The average length of `n` documents with `total` tokens, rounded down to
/// the unit it is stored in and kept positive; one token if there are none.
pub open spec fn average_len(total: nat, n: nat) -> nat {
    if total == 0 {
        bm25::AVG_UNIT as nat
    } else {
        let a = total * bm25::AVG_UNIT as nat / n;
        if a == 0 {
            1
        } else if a > u32::MAX {
            u32::MAX as nat
        } else {
            a
        }
    }
}

pub open spec fn lens_fn(tokens: Seq<TokenModel>) -> spec_fn(int) -> nat {
    |d: int| token_len(tokens[d])
}

/// Tokens of all documents together.
pub open spec fn total_len(tokens: Seq<TokenModel>) -> nat {
    sums::total(lens_fn(tokens), tokens.len())
}

/// The immutable, searchable index.
pub struct Index {
    pub docs: Vec<DocMeta>,
    pub avg_doc_len: u32,
    /// Terms in lexicographic order; ids index `posting_lists`.
    pub terms: Interner,
    pub posting_lists: Vec<PostingList>,
    /// Tokenizer setting used at index time; queries must match it.
    pub remove_stopwords: bool,
    /// Postings per block.
    pub block_size: usize,
}

/// The lengths recorded in the metadata.
pub open spec fn meta_lens(docs: Seq<DocMeta>) -> Seq<u32> {
    Seq::new(docs.len(), |d: int| docs[d].doc_len)
}

/// Document ids ascend and stay below `n`.
pub open spec fn ascending(list: Seq<Posting>, n: int) -> bool {
    &&& forall|i: int, j: int|
        0 <= i < j < list.len() ==> (#[trigger] list[i]).doc_id < (#[trigger] list[j]).doc_id
    &&& forall|i: int| 0 <= i < list.len() ==> (#[trigger] list[i]).doc_id < n
}

/// The view of a posting list that is searched.
pub open spec fn view_of(list: PostingList, avg_doc_len: u32) -> block_max_wand::TermModel {
    block_max_wand::TermModel {
        list: list.postings@,
        idf: list.idf as nat,
        avg_doc_len: avg_doc_len as nat,
    }
}

impl Index {
    /// The postings of a term; none if it does not occur.
    pub open spec fn postings_of(&self, t: Seq<char>) -> Seq<Posting> {
        match interner::id_of(self.terms@, t) {
            Some(id) => self.posting_lists@[id as int].postings@,
            None => Seq::empty(),
        }
    }

    pub fn docs(&self) -> (d: &Vec<DocMeta>)
        ensures
            *d == self.docs,
    {
        &self.docs
    }

    pub fn term_id(&self, term: &str) -> (id: Option<u32>)
        requires
            self.wf(),
        ensures
            id == interner::id_of(self.terms@, term@),
    {
        self.terms.get(term)
    }

    pub fn posting_list(&self, term_id: u32) -> (list: &PostingList)
        requires
            term_id < self.posting_lists@.len(),
        ensures
            *list == self.posting_lists@[term_id as int],
    {
        &self.posting_lists[term_id as usize]
    }

    pub fn posting_list_for(&self, term: &str) -> (list: Option<&PostingList>)
        requires
            self.wf(),
        ensures
            list is Some <==> interner::id_of(self.terms@, term@) is Some,
            list matches Some(l) ==> l.postings@ == self.postings_of(term@),
    {
        match self.term_id(term) {
            Some(id) => Some(self.posting_list(id)),
            None => None,
        }
    }

    pub fn block_size(&self) -> (n: usize)
        ensures
            n == self.block_size,
    {
        self.block_size
    }

    pub fn num_terms(&self) -> (n: usize)
        ensures
            n == self.posting_lists@.len(),
    {
        self.posting_lists.len()
    }

    pub fn avg_doc_len(&self) -> (a: u32)
        ensures
            a == self.avg_doc_len,
    {
        self.avg_doc_len
    }

    pub fn remove_stopwords(&self) -> (r: bool)
        ensures
            r == self.remove_stopwords,
    {
        self.remove_stopwords
    }

    /// Postings of all terms together.
    pub fn total_postings(&self) -> (n: u64)
        requires
            self.wf(),
        ensures
            n == sums::total(list_lens(self.posting_lists@), self.posting_lists@.len()),
    {
        let mut n: u64 = 0;
        let mut i: usize = 0;
        while i < self.posting_lists.len()
            invariant
                self.wf(),
                i <= self.posting_lists@.len(),
                n == sums::total(list_lens(self.posting_lists@), i as nat),
                n <= i * 0xffff_ffff,
            decreases self.posting_lists@.len() - i,
        {
            proof {
                assert(self.posting_lists@[i as int].postings@.len() <= u32::MAX);
                assert((i + 1) * 0xffff_ffff == i * 0xffff_ffff + 0xffff_ffff);
            }
            n = n + self.posting_lists[i].postings.len() as u64;
            i += 1;
        }
        n
    }
}

pub open spec fn list_lens(lists: Seq<PostingList>) -> spec_fn(int) -> nat {
    |i: int| lists[i].postings@.len()
}

impl SearchableIndex for Index {
    open spec fn lens(&self) -> Seq<u32> {
        meta_lens(self.docs@)
    }

    open spec fn dead(&self, doc_id: u32) -> bool {
        false
    }

    open spec fn model(&self, term: Seq<char>) -> Option<block_max_wand::TermModel> {
        match interner::id_of(self.terms@, term) {
            Some(id) => if self.posting_lists@[id as int].postings@.len() > 0 {
                Some(view_of(self.posting_lists@[id as int], self.avg_doc_len))
            } else {
                None
            },
            None => None,
        }
    }

    open spec fn block_len(&self) -> int {
        self.block_size as int
    }

    open spec fn summary(&self, doc_id: u32) -> (Seq<char>, Seq<char>) {
        let m = self.docs@[doc_id as int];
        (m.external_id@, m.title@)
    }

    open spec fn wf(&self) -> bool {
        &&& self.terms.wf()
        &&& self.posting_lists@.len() == self.terms@.len()
        &&& self.block_size > 0
        &&& self.avg_doc_len > 0
        &&& self.docs@.len() <= u32::MAX
        &&& forall|i: int|
            0 <= i < self.posting_lists@.len() ==> {
                &&& (#[trigger] self.posting_lists@[i]).wf(
                    meta_lens(self.docs@),
                    self.block_size as int,
                )
                &&& ascending(self.posting_lists@[i].postings@, self.docs@.len() as int)
                &&& self.posting_lists@[i].postings@.len() <= u32::MAX
                &&& self.posting_lists@[i].idf <= bm25::MAX_IDF
            }
    }

    proof fn lemma_terms_bounded(&self, terms: Seq<Seq<char>>) {
        let names = self.terms@;
        assert(terms.to_set().subset_of(names.to_set())) by {
            assert forall|t: Seq<char>| terms.to_set().contains(t) implies names.to_set().contains(
                t,
            ) by {
                let i = choose|i: int| 0 <= i < terms.len() && terms[i] == t;
                assert(self.model(terms[i]) is Some);
                assert(names.contains(t));
            }
        }
        terms.unique_seq_to_set();
        names.unique_seq_to_set();
        vstd::set_lib::lemma_len_subset(terms.to_set(), names.to_set());
    }

    proof fn lemma_docs_exist(&self, term: Seq<char>) {
        if let Some(id) = interner::id_of(self.terms@, term) {
            assert(self.terms@.contains(term));
            let at = self.terms@.index_of(term);
            assert(ascending(self.posting_lists@[at].postings@, self.docs@.len() as int));
        }
    }

    fn num_docs(&self) -> (n: usize) {
        self.docs.len()
    }

    fn doc_len(&self, doc_id: u32) -> (len: u32) {
        self.docs[doc_id as usize].doc_len
    }

    fn doc_summary(&self, doc_id: u32) -> (s: DocSummary) {
        let meta = &self.docs[doc_id as usize];
        DocSummary { id: meta.external_id.clone(), title: meta.title.clone() }
    }

    fn is_deleted(&self, doc_id: u32) -> (d: bool) {
        false
    }

    fn term_postings(&self, term: &str) -> (t: Option<TermPostings<'_>>) {
        let id: u32 = match self.terms.get(term) {
            Some(id) => id,
            None => {
                return None;
            },
        };
        let list = &self.posting_lists[id as usize];
        assert(self.posting_lists@[id as int] == *list);
        if list.postings.len() == 0 {
            return None;
        }
        let t = TermPostings {
            idf: list.idf,
            avg_doc_len: self.avg_doc_len,
            df: list.postings.len(),
            block_size: self.block_size,
            block_max_doc_ids: list.block_max_doc_ids.as_slice(),
            block_max_tfs: list.block_max_tfs.as_slice(),
            block_min_lens: list.block_min_lens.as_slice(),
            term_max_tf: list.term_max_tf,
            term_min_len: list.term_min_len,
            source: BlockSource::Memory(list.postings.as_slice()),
        };
        proof {
            assert(t.list() =~= list.postings@);
            lemma_memory_view_wf(t, *list, self.lens());
            lemma_memory_view_tight(t, *list, self.lens());
        }
        Some(t)
    }
}

/// The view of a well-formed list in memory has its impact pairs.
proof fn lemma_memory_view_tight(t: TermPostings, list: PostingList, lens: Seq<u32>)
    requires
        t.block_size > 0,
        list.wf(lens, t.block_size as int),
        t.df == list.postings@.len(),
        t.df > 0,
        t.list() == list.postings@,
        t.block_max_tfs@ == list.block_max_tfs@,
        t.block_min_lens@ == list.block_min_lens@,
        t.term_max_tf == list.term_max_tf,
        t.term_min_len == list.term_min_len,
    ensures
        t.tight(lens),
{
    let p = list.postings@;
    let bs = t.block_size as int;
    let n = p.len() as int;
    postings::lemma_block_of(0, bs, n);
    assert forall|b: int|
        #![trigger t.block_max_tfs@[b]]
        #![trigger t.block_min_lens@[b]]
        0 <= b < t.blocks() implies {
        &&& postings::is_max_tf(p, t.lo(b), t.hi(b), t.block_max_tfs@[b])
        &&& postings::is_min_len(p, lens, t.lo(b), t.hi(b), t.block_min_lens@[b])
    } by {
        assert(list.block_max_tfs@[b] == t.block_max_tfs@[b]);
    }
    let (mt, ml) = (t.term_max_tf, t.term_min_len);
    assert forall|i: int| 0 <= i < n implies (#[trigger] p[i]).tf <= mt && ml
        <= lens[p[i].doc_id as int] by {
        postings::lemma_block_of(i, bs, n);
        let b = i / bs;
        assert(postings::is_max_tf(p, t.lo(b), t.hi(b), list.block_max_tfs@[b]));
        assert(postings::is_min_len(p, lens, t.lo(b), t.hi(b), list.block_min_lens@[b]));
    }
    let b = choose|b: int| 0 <= b < list.block_max_tfs@.len() && list.block_max_tfs@[b] == mt;
    postings::lemma_block_range(b, bs, n);
    assert(postings::is_max_tf(p, t.lo(b), t.hi(b), list.block_max_tfs@[b]));
    let i = choose|i: int| t.lo(b) <= i < t.hi(b) && (#[trigger] p[i]).tf == mt;
    assert(0 <= i < n && p[i].tf == mt);
    let c = choose|c: int| 0 <= c < list.block_min_lens@.len() && list.block_min_lens@[c] == ml;
    postings::lemma_block_range(c, bs, n);
    assert(postings::is_min_len(p, lens, t.lo(c), t.hi(c), list.block_min_lens@[c]));
    let j = choose|j: int|
        t.lo(c) <= j < t.hi(c) && lens[(#[trigger] p[j]).doc_id as int] == ml;
    assert(0 <= j < n && lens[p[j].doc_id as int] == ml);
}

/// The view of a well-formed list in memory is well-formed.
proof fn lemma_memory_view_wf(t: TermPostings, list: PostingList, lens: Seq<u32>)
    requires
        t.block_size > 0,
        t.avg_doc_len > 0,
        t.idf <= bm25::MAX_IDF,
        list.wf(lens, t.block_size as int),
        lens.len() <= u32::MAX,
        ascending(list.postings@, lens.len() as int),
        t.df == list.postings@.len(),
        t.list() == list.postings@,
        t.block_max_doc_ids@ == list.block_max_doc_ids@,
        t.block_max_tfs@ == list.block_max_tfs@,
        t.block_min_lens@ == list.block_min_lens@,
        t.term_max_tf == list.term_max_tf,
        t.term_min_len == list.term_min_len,
        t.source matches BlockSource::Memory(p) && p@.len() == t.df,
    ensures
        t.wf(lens),
{
    let p = list.postings@;
    let bs = t.block_size as int;
    let n = p.len() as int;
    assert forall|i: int| 0 <= i < p.len() implies {
        &&& (#[trigger] p[i]).doc_id < lens.len()
        &&& p[i].tf <= t.term_max_tf
        &&& t.term_min_len <= lens[p[i].doc_id as int]
    } by {
        postings::lemma_block_of(i, bs, n);
        let b = i / bs;
        assert(postings::is_max_tf(
            p,
            postings::block_lo(b, bs),
            postings::block_hi(b, bs, n),
            list.block_max_tfs@[b],
        ));
        assert(postings::is_min_len(
            p,
            lens,
            postings::block_lo(b, bs),
            postings::block_hi(b, bs, n),
            list.block_min_lens@[b],
        ));
    }
    assert forall|b: int, i: int|
        #![trigger t.block_max_tfs@[b], p[i]]
        0 <= b < t.blocks() && t.lo(b) <= i < t.hi(b) implies {
        &&& p[i].tf <= t.block_max_tfs@[b]
        &&& t.block_min_lens@[b] <= lens[p[i].doc_id as int]
    } by {
        assert(postings::is_max_tf(p, t.lo(b), t.hi(b), list.block_max_tfs@[b]));
        assert(postings::is_min_len(p, lens, t.lo(b), t.hi(b), list.block_min_lens@[b]));
    }
}

pub proof fn lemma_term_list(docs: Seq<TokenModel>, weight: nat, t: Seq<char>, n: int)
    requires
        0 <= n <= docs.len() <= u32::MAX,
    ensures
        term_list(docs, weight, t, n).len() <= n,
        ascending(term_list(docs, weight, t, n), n),
    decreases n,
{
    if n > 0 {
        lemma_term_list(docs, weight, t, n - 1);
    }
}

/// No posting has the frequency zero, if frequencies fit.
pub proof fn lemma_term_list_counts(docs: Seq<TokenModel>, weight: nat, t: Seq<char>, n: int)
    requires
        0 <= n <= docs.len(),
        forall|d: int|
            0 <= d < docs.len() ==> weight * (#[trigger] docs[d]).title.len() + docs[d].body.len()
                <= u32::MAX,
    ensures
        forall|i: int|
            0 <= i < term_list(docs, weight, t, n).len() ==> (#[trigger] term_list(
                docs,
                weight,
                t,
                n,
            )[i]).tf >= 1,
    decreases n,
{
    if n > 0 {
        lemma_term_list_counts(docs, weight, t, n - 1);
        let doc = docs[n - 1];
        lemma_occurrences_bound(doc.title, t);
        lemma_occurrences_bound(doc.body, t);
        let o = occurrences(doc.title, t);
        assert(weight * o <= weight * doc.title.len()) by (nonlinear_arith)
            requires
                o <= doc.title.len(),
        ;
        let front = term_list(docs, weight, t, n - 1);
        let list = term_list(docs, weight, t, n);
        assert forall|i: int| 0 <= i < list.len() implies (#[trigger] list[i]).tf >= 1 by {
            if i < front.len() {
                assert(front[i].tf >= 1);
            }
        }
    }
}

/// The term stands among the first `k` pairs.
spec fn touched(pairs: Seq<(u32, u32)>, remap: Seq<u32>, new_id: int, k: int) -> bool {
    exists|j: int| 0 <= j < k && remap[(#[trigger] pairs[j]).0 as int] == new_id
}

/// `remap` takes each name to its place in `sorted`, and `by_name` back.
pub open spec fn renames(
    names: Seq<Seq<char>>,
    sorted: Seq<Seq<char>>,
    remap: Seq<u32>,
    by_name: Seq<usize>,
) -> bool {
    &&& names.no_duplicates()
    &&& remap.len() == names.len()
    &&& sorted.len() == names.len()
    &&& by_name.len() == names.len()
    &&& forall|i: int|
        0 <= i < names.len() ==> (#[trigger] remap[i]) < sorted.len() && sorted[remap[i] as int]
            == names[i] && by_name[remap[i] as int] == i
    &&& forall|i: int|
        0 <= i < sorted.len() ==> (#[trigger] by_name[i]) < names.len() && remap[by_name[i] as int]
            == i && sorted[i] == names[by_name[i] as int]
}

/// The posting lists of all terms, in the order of the sorted names.
fn scatter(
    docs: &Vec<TokenizedDoc>,
    remap: &Vec<u32>,
    Ghost(names): Ghost<Seq<Seq<char>>>,
    Ghost(sorted): Ghost<Seq<Seq<char>>>,
    Ghost(by_name): Ghost<Seq<usize>>,
    Ghost(tokens): Ghost<Seq<TokenModel>>,
    Ghost(weight): Ghost<nat>,
) -> (lists: Vec<Vec<Posting>>)
    requires
        renames(names, sorted, remap@, by_name),
        docs@.len() == tokens.len(),
        docs@.len() <= u32::MAX,
        forall|d: int|
            0 <= d < docs@.len() ==> lists_terms(
                (#[trigger] docs@[d]).pairs@,
                names,
                tokens[d],
                weight,
            ),
    ensures
        lists@.len() == sorted.len(),
        forall|i: int|
            0 <= i < lists@.len() ==> (#[trigger] lists@[i])@ == term_list(
                tokens,
                weight,
                sorted[i],
                tokens.len() as int,
            ),
{
    let n: usize = docs.len();
    let m: usize = remap.len();
    let mut lists: Vec<Vec<Posting>> = Vec::new();
    let mut a: usize = 0;
    while a < m
        invariant
            a <= m,
            lists@.len() == a,
            forall|i: int| 0 <= i < a ==> (#[trigger] lists@[i])@ == Seq::<Posting>::empty(),
        decreases m - a,
    {
        lists.push(Vec::new());
        a += 1;
    }
    let mut d: usize = 0;
    while d < n
        invariant
            n == docs@.len(),
            n == tokens.len(),
            n <= u32::MAX,
            renames(names, sorted, remap@, by_name),
            forall|d: int|
                0 <= d < docs@.len() ==> lists_terms(
                    (#[trigger] docs@[d]).pairs@,
                    names,
                    tokens[d],
                    weight,
                ),
            d <= n,
            lists@.len() == sorted.len(),
            forall|i: int|
                0 <= i < lists@.len() ==> (#[trigger] lists@[i])@ == term_list(
                    tokens,
                    weight,
                    sorted[i],
                    d as int,
                ),
        decreases n - d,
    {
        let pairs = &docs[d].pairs;
        assert(lists_terms(docs@[d as int].pairs@, names, tokens[d as int], weight));
        let ghost tok = tokens[d as int];
        let mut k: usize = 0;
        while k < pairs.len()
            invariant
                d < n,
                n == tokens.len(),
                n <= u32::MAX,
                renames(names, sorted, remap@, by_name),
                lists_terms(pairs@, names, tok, weight),
                k <= pairs@.len(),
                lists@.len() == sorted.len(),
                forall|i: int|
                    0 <= i < lists@.len() ==> (#[trigger] lists@[i])@ == (if touched(
                        pairs@,
                        remap@,
                        i,
                        k as int,
                    ) {
                        term_list(tokens, weight, sorted[i], d as int).push(
                            Posting {
                                doc_id: d as u32,
                                tf: folded_tf(tok, weight, sorted[i]) as u32,
                            },
                        )
                    } else {
                        term_list(tokens, weight, sorted[i], d as int)
                    }),
            decreases pairs@.len() - k,
        {
            let pair: (u32, u32) = pairs[k];
            assert(pairs@[k as int] == pair);
            let at: u32 = remap[pair.0 as usize];
            assert(remap@[pair.0 as int] == at);
            let ghost before = lists@;
            proof {
                assert(!touched(pairs@, remap@, at as int, k as int)) by {
                    if touched(pairs@, remap@, at as int, k as int) {
                        let j = choose|j: int|
                            0 <= j < k && remap@[(#[trigger] pairs@[j]).0 as int] == at;
                        assert(by_name[remap@[pairs@[j].0 as int] as int] == pairs@[j].0);
                        assert(by_name[remap@[pair.0 as int] as int] == pair.0);
                        assert(pairs@[j].0 < pairs@[k as int].0);
                    }
                }
            }
            lists[at as usize].push(Posting { doc_id: d as u32, tf: pair.1 });
            proof {
                assert forall|i: int| 0 <= i < lists@.len() implies (#[trigger] lists@[i])@ == (
                if touched(pairs@, remap@, i, k + 1) {
                    term_list(tokens, weight, sorted[i], d as int).push(
                        Posting {
                            doc_id: d as u32,
                            tf: folded_tf(tok, weight, sorted[i]) as u32,
                        },
                    )
                } else {
                    term_list(tokens, weight, sorted[i], d as int)
                }) by {
                    assert(before[i]@ == before[i]@);
                    if i == at {
                        assert(remap@[pairs@[k as int].0 as int] == i);
                        assert(touched(pairs@, remap@, i, k + 1));
                    } else {
                        if touched(pairs@, remap@, i, k + 1) {
                            let j = choose|j: int|
                                0 <= j < k + 1 && remap@[(#[trigger] pairs@[j]).0 as int] == i;
                            assert(j < k);
                            assert(touched(pairs@, remap@, i, k as int));
                        }
                        if touched(pairs@, remap@, i, k as int) {
                            let j = choose|j: int|
                                0 <= j < k && remap@[(#[trigger] pairs@[j]).0 as int] == i;
                            assert(touched(pairs@, remap@, i, k + 1));
                        }
                    }
                }
            }
            k += 1;
        }
        proof {
            assert forall|i: int| 0 <= i < lists@.len() implies (#[trigger] lists@[i])@ == term_list(
                tokens,
                weight,
                sorted[i],
                d + 1,
            ) by {
                let tf = folded_tf(tok, weight, sorted[i]);
                if touched(pairs@, remap@, i, k as int) {
                    let j = choose|j: int|
                        0 <= j < k && remap@[(#[trigger] pairs@[j]).0 as int] == i;
                    assert(names[pairs@[j].0 as int] == sorted[i]);
                    assert(tf > 0);
                } else if tf > 0 {
                    let j = choose|j: int|
                        0 <= j < pairs@.len() && names[(#[trigger] pairs@[j]).0 as int]
                            == sorted[i];
                    assert(names[by_name[i] as int] == names[pairs@[j].0 as int]);
                    assert(by_name[i] == pairs@[j].0);
                    assert(remap@[by_name[i] as int] == i);
                    assert(touched(pairs@, remap@, i, k as int));
                }
            }
        }
        d += 1;
    }
    lists
}

/// What the index of `tokens` knows of the term `t`.
pub open spec fn indexed_term(tokens: Seq<TokenModel>, weight: nat, t: Seq<char>) -> Option<
    block_max_wand::TermModel,
> {
    let n = tokens.len();
    let list = term_list(tokens, weight, t, n as int);
    if list.len() == 0 {
        None
    } else {
        Some(
            block_max_wand::TermModel {
                list,
                idf: bm25::idf_spec(n, list.len()),
                avg_doc_len: average_len(total_len(tokens), n),
            },
        )
    }
}

/// `index` is the index of documents with these tokens and metadata.
pub open spec fn indexes(
    index: Index,
    tokens: Seq<TokenModel>,
    weight: nat,
    metas: Seq<DocMeta>,
) -> bool {
    &&& index.wf()
    &&& index.docs@ == metas
    &&& index.avg_doc_len == average_len(total_len(tokens), tokens.len())
    &&& forall|i: int, j: int|
        0 <= i < j < index.terms@.len() ==> order::lex_less(
            #[trigger] index.terms@[i],
            #[trigger] index.terms@[j],
        )
    &&& forall|t: Seq<char>| #[trigger]
        index.postings_of(t) == term_list(tokens, weight, t, tokens.len() as int)
    &&& forall|t: Seq<char>| #[trigger] index.model(t) == indexed_term(tokens, weight, t)
    &&& only_terms(index, tokens, weight)
}

/// The dictionary holds the terms that have postings, and no others.
pub open spec fn only_terms(index: Index, tokens: Seq<TokenModel>, weight: nat) -> bool {
    forall|t: Seq<char>| #[trigger]
        index.terms@.contains(t) <==> term_list(tokens, weight, t, tokens.len() as int).len() > 0
}

/// The metadata of tokenized documents.
pub open spec fn metas_of(docs: Seq<TokenizedDoc>) -> Seq<DocMeta> {
    Seq::new(docs.len(), |d: int| docs[d].meta)
}

pub(crate) fn average(lens: &Vec<u32>, Ghost(tokens): Ghost<Seq<TokenModel>>) -> (avg: u32)
    requires
        lens@.len() == tokens.len(),
        lens@.len() <= u32::MAX,
        forall|d: int| 0 <= d < lens@.len() ==> #[trigger] lens@[d] == token_len(tokens[d]),
    ensures
        avg == average_len(total_len(tokens), tokens.len()),
        avg > 0,
{
    let n: usize = lens.len();
    let mut total: u64 = 0;
    let mut d: usize = 0;
    while d < n
        invariant
            n == lens@.len(),
            n == tokens.len(),
            n <= u32::MAX,
            forall|d: int| 0 <= d < lens@.len() ==> #[trigger] lens@[d] == token_len(tokens[d]),
            d <= n,
            total == sums::total(lens_fn(tokens), d as nat),
            total <= d * 0xffff_ffff,
        decreases n - d,
    {
        proof {
            assert((d + 1) * 0xffff_ffff == d * 0xffff_ffff + 0xffff_ffff);
        }
        total = total + lens[d] as u64;
        d += 1;
    }
    if total == 0 {
        return bm25::AVG_UNIT;
    }
    let a: u128 = (total as u128 * bm25::AVG_UNIT as u128) / (n as u128);
    if a == 0 {
        1
    } else if a > 0xffff_ffff {
        u32::MAX
    } else {
        a as u32
    }
}

/// `names` in lexicographic order as a dictionary, and where each name went.
pub(crate) fn sort_names(names: &Vec<String>) -> (r: (Interner, Vec<u32>, Ghost<Seq<usize>>))
    requires
        names@.len() <= u32::MAX,
        interner::name_views(names@).no_duplicates(),
    ensures
        r.0.wf(),
        renames(interner::name_views(names@), r.0@, r.1@, r.2@),
        forall|i: int, j: int|
            0 <= i < j < r.0@.len() ==> order::lex_less(#[trigger] r.0@[i], #[trigger] r.0@[j]),
{
    let n: usize = names.len();
    let ghost all = interner::name_views(names@);
    let mut texts: Vec<Vec<char>> = Vec::new();
    let mut i: usize = 0;
    while i < n
        invariant
            i <= n == names@.len(),
            texts@.len() == i,
            forall|j: int| 0 <= j < i ==> (#[trigger] texts@[j])@ == names@[j]@,
        decreases n - i,
    {
        texts.push(text::chars_of(names[i].as_str()));
        i += 1;
    }
    assert(text::views(texts@) =~= all);
    let by_name = order::order_by_text(&texts);
    let ghost less = order::text_less(all);
    proof {
        order::lemma_text_less_total(all);
        order::lemma_increasing_distinct(by_name@, n as int, less);
    }
    let mut dict = Interner::new();
    let mut remap: Vec<u32> = Vec::new();
    let mut z: usize = 0;
    while z < n
        invariant
            z <= n,
            remap@.len() == z,
        decreases n - z,
    {
        remap.push(0);
        z += 1;
    }
    let mut k: usize = 0;
    while k < n
        invariant
            n == names@.len(),
            n <= u32::MAX,
            all == interner::name_views(names@),
            all.no_duplicates(),
            order::covers(by_name@, 0, n as int),
            by_name@.no_duplicates(),
            k <= n,
            dict.wf(),
            dict@.len() == k,
            forall|j: int| 0 <= j < k ==> #[trigger] dict@[j] == all[by_name@[j] as int],
            remap@.len() == n,
            forall|j: int| 0 <= j < k ==> remap@[#[trigger] by_name@[j] as int] == j,
        decreases n - k,
    {
        let at: usize = by_name[k];
        assert(by_name@[k as int] == at);
        let ghost dict0 = dict@;
        proof {
            assert(!dict@.contains(all[at as int])) by {
                if dict@.contains(all[at as int]) {
                    let j = choose|j: int| 0 <= j < dict@.len() && dict@[j] == all[at as int];
                    assert(all[by_name@[j] as int] == all[at as int]);
                    assert(by_name@[j] == by_name@[k as int]);
                }
            }
            assert(names@[at as int]@ == all[at as int]);
        }
        let id: u32 = dict.get_or_insert(names[at].as_str());
        remap.set(at, k as u32);
        proof {
            assert forall|j: int| 0 <= j < k + 1 implies remap@[#[trigger] by_name@[j] as int] == j by {
                if j < k {
                    assert(by_name@[j] != by_name@[k as int]);
                }
            }
        }
        k += 1;
    }
    proof {
        assert forall|a: int| 0 <= a < n implies (#[trigger] remap@[a]) < n && dict@[remap@[a] as int]
            == all[a] && by_name@[remap@[a] as int] == a by {
            assert(by_name@.contains(a as usize));
            let j = choose|j: int| 0 <= j < by_name@.len() && by_name@[j] == a as usize;
            assert(remap@[by_name@[j] as int] == j);
        }
        assert forall|a: int, b: int| 0 <= a < b < dict@.len() implies order::lex_less(
            #[trigger] dict@[a],
            #[trigger] dict@[b],
        ) by {
            assert(less(by_name@[a] as int, by_name@[b] as int));
            if all[by_name@[a] as int] == all[by_name@[b] as int] {
                assert(by_name@[a] == by_name@[b]);
            }
        }
    }
    (dict, remap, Ghost(by_name@))
}

/// An index whose lists are those of its terms, and that lacks no term, is
/// the index of the documents.
pub proof fn lemma_index_models(index: Index, tokens: Seq<TokenModel>, weight: nat)
    requires
        index.wf(),
        index.docs@.len() == tokens.len(),
        index.avg_doc_len == average_len(total_len(tokens), tokens.len()),
        forall|t: Seq<char>|
            !index.terms@.contains(t) ==> (#[trigger] term_list(
                tokens,
                weight,
                t,
                tokens.len() as int,
            )).len() == 0,
        forall|i: int|
            0 <= i < index.posting_lists@.len() ==> {
                &&& (#[trigger] index.posting_lists@[i]).postings@ == term_list(
                    tokens,
                    weight,
                    index.terms@[i],
                    tokens.len() as int,
                )
                &&& index.posting_lists@[i].idf == bm25::idf_spec(
                    tokens.len(),
                    index.posting_lists@[i].postings@.len(),
                )
            },
    ensures
        forall|t: Seq<char>| #[trigger]
            index.postings_of(t) == term_list(tokens, weight, t, tokens.len() as int),
        forall|t: Seq<char>| #[trigger] index.model(t) == indexed_term(tokens, weight, t),
{
    assert forall|t: Seq<char>|
        index.postings_of(t) == term_list(tokens, weight, t, tokens.len() as int) && index.model(t)
            == indexed_term(tokens, weight, t) by {
        let list = term_list(tokens, weight, t, tokens.len() as int);
        match interner::id_of(index.terms@, t) {
            Some(id) => {
                let at = index.terms@.index_of(t);
                assert(index.terms@[at] == t);
                assert(index.posting_lists@[at].postings@ == list);
            },
            None => {
                assert(list =~= Seq::<Posting>::empty());
            },
        }
    }
}

proof fn lemma_unlisted(
    tokens: Seq<TokenModel>,
    weight: nat,
    names: Seq<Seq<char>>,
    docs: Seq<TokenizedDoc>,
    t: Seq<char>,
    n: int,
)
    requires
        0 <= n <= tokens.len(),
        docs.len() == tokens.len(),
        !names.contains(t),
        forall|d: int|
            0 <= d < docs.len() ==> lists_terms((#[trigger] docs[d]).pairs@, names, tokens[d], weight),
    ensures
        term_list(tokens, weight, t, n) == Seq::<Posting>::empty(),
    decreases n,
{
    if n > 0 {
        lemma_unlisted(tokens, weight, names, docs, t, n - 1);
        let d = n - 1;
        assert(lists_terms(docs[d].pairs@, names, tokens[d], weight));
        if folded_tf(tokens[d], weight, t) > 0 {
            let k = choose|k: int|
                0 <= k < docs[d].pairs@.len() && names[(#[trigger] docs[d].pairs@[k]).0 as int] == t;
            assert(names.contains(t));
        }
    }
}

impl IndexBuilder {
    /// Finish with the documents in the given order.
    #[verifier::rlimit(40)]
    pub fn finish_ordered(self, order: Vec<usize>) -> (index: Index)
        requires
            self.wf(),
            order::covers(order@, 0, self.docs@.len() as int),
            order@.no_duplicates(),
        ensures
            indexes(
                index,
                order::arranged(self.tokens@, order@),
                self.title_weight as nat,
                order::arranged(metas_of(self.docs@), order@),
            ),
            index.remove_stopwords == self.remove_stopwords,
            index.block_size == self.block_size,
    {
        let ghost weight = self.title_weight as nat;
        let ghost tokens = order::arranged(self.tokens@, order@);
        let ghost old_docs = self.docs@;
        let docs = order::permute(self.docs, &order);
        let n: usize = docs.len();
        let ghost names = self.terms@;
        proof {
            assert forall|d: int| 0 <= d < docs@.len() implies lists_terms(
                (#[trigger] docs@[d]).pairs@,
                names,
                tokens[d],
                weight,
            ) && docs@[d].meta.doc_len == token_len(tokens[d]) by {
                assert(docs@[d] == old_docs[order@[d] as int]);
            }
        }
        let (dict, remap, by_name) = sort_names(&self.terms.names);
        let lists = scatter(
            &docs,
            &remap,
            Ghost(names),
            Ghost(dict@),
            Ghost(by_name@),
            Ghost(tokens),
            Ghost(weight),
        );
        let mut doc_lens: Vec<u32> = Vec::new();
        let mut d: usize = 0;
        while d < n
            invariant
                d <= n == docs@.len(),
                doc_lens@.len() == d,
                forall|j: int| 0 <= j < d ==> #[trigger] doc_lens@[j] == docs@[j].meta.doc_len,
            decreases n - d,
        {
            doc_lens.push(docs[d].meta.doc_len);
            d += 1;
        }
        let avg_doc_len: u32 = average(&doc_lens, Ghost(tokens));
        let ghost metas = metas_of(docs@);
        assert(doc_lens@ =~= meta_lens(metas));
        let num_terms: usize = lists.len();
        let ghost all_lists = lists@;
        let mut posting_lists: Vec<PostingList> = Vec::new();
        // Lists are taken from the back of the remaining ones, so they are
        // first turned around.
        let mut waiting: Vec<Vec<Posting>> = Vec::new();
        let mut lists = lists;
        while lists.len() > 0
            invariant
                all_lists.len() == num_terms,
                lists@.len() + waiting@.len() == num_terms,
                lists@ == all_lists.take(lists@.len() as int),
                forall|j: int|
                    0 <= j < waiting@.len() ==> #[trigger] waiting@[j] == all_lists[num_terms - 1
                        - j],
            decreases lists@.len(),
        {
            if let Some(l) = lists.pop() {
                waiting.push(l);
            }
        }
        while waiting.len() > 0
            invariant
                all_lists.len() == num_terms,
                num_terms == dict@.len(),
                n == docs@.len(),
                n == tokens.len(),
                n <= u32::MAX,
                self.block_size > 0,
                doc_lens@.len() == n,
                posting_lists@.len() + waiting@.len() == num_terms,
                forall|j: int|
                    0 <= j < waiting@.len() ==> #[trigger] waiting@[j] == all_lists[num_terms - 1
                        - j],
                forall|i: int|
                    0 <= i < all_lists.len() ==> (#[trigger] all_lists[i])@ == term_list(
                        tokens,
                        weight,
                        dict@[i],
                        tokens.len() as int,
                    ),
                forall|i: int|
                    0 <= i < posting_lists@.len() ==> {
                        &&& (#[trigger] posting_lists@[i]).wf(
                            doc_lens@,
                            self.block_size as int,
                        )
                        &&& posting_lists@[i].postings@ == all_lists[i]@
                        &&& posting_lists@[i].postings@.len() <= n
                        &&& ascending(posting_lists@[i].postings@, n as int)
                        &&& posting_lists@[i].idf == bm25::idf_spec(
                            n as nat,
                            posting_lists@[i].postings@.len(),
                        )
                    },
            decreases waiting@.len(),
        {
            let ghost at = posting_lists@.len() as int;
            if let Some(l) = waiting.pop() {
                proof {
                    assert(l == all_lists[at]);
                    lemma_term_list(tokens, weight, dict@[at], tokens.len() as int);
                }
                let built = PostingList::build(l, n, doc_lens.as_slice(), self.block_size);
                posting_lists.push(built);
            }
        }
        let ghost doc_seq = docs@;
        let metas_vec = take_metas(docs);
        let index = Index {
            docs: metas_vec,
            avg_doc_len,
            terms: dict,
            posting_lists,
            remove_stopwords: self.remove_stopwords,
            block_size: self.block_size,
        };
        proof {
            assert(index.docs@ =~= order::arranged(metas_of(old_docs), order@));
            assert(index.docs@ == metas);
            assert forall|i: int| 0 <= i < index.posting_lists@.len() implies {
                &&& (#[trigger] index.posting_lists@[i]).wf(
                    meta_lens(index.docs@),
                    index.block_size as int,
                )
                &&& ascending(index.posting_lists@[i].postings@, index.docs@.len() as int)
                &&& index.posting_lists@[i].postings@.len() <= u32::MAX
                &&& index.posting_lists@[i].idf <= bm25::MAX_IDF
            } by {
                bm25::law_idf_bounded(n as nat, index.posting_lists@[i].postings@.len());
            }
            assert(index.wf());
            assert forall|t: Seq<char>| names.contains(t) implies #[trigger] index.terms@.contains(
                t,
            ) by {
                let a = choose|a: int| 0 <= a < names.len() && names[a] == t;
                assert(index.terms@[remap@[a] as int] == t);
            }
            assert forall|t: Seq<char>| !index.terms@.contains(t) implies (#[trigger] term_list(
                tokens,
                weight,
                t,
                tokens.len() as int,
            )).len() == 0 by {
                lemma_unlisted(tokens, weight, names, doc_seq, t, tokens.len() as int);
            }
            lemma_index_models(index, tokens, weight);
            lemma_first_seen(tokens, weight);
            assert forall|t: Seq<char>| #[trigger] index.terms@.contains(t) implies term_list(
                tokens,
                weight,
                t,
                tokens.len() as int,
            ).len() > 0 by {
                let i = choose|i: int| 0 <= i < index.terms@.len() && index.terms@[i] == t;
                assert(by_name@[i] < names.len());
                assert(names[by_name@[i] as int] == t);
                lemma_first_seen_words(self.tokens@, weight, t);
                let d = choose|d: int|
                    0 <= d < self.tokens@.len() && folded_tf(
                        #[trigger] self.tokens@[d],
                        weight,
                        t,
                    ) > 0;
                assert(order@.contains(d as usize));
                let k = choose|k: int| 0 <= k < order@.len() && order@[k] == d as usize;
                assert(tokens[k] == self.tokens@[d]);
                lemma_first_seen_words(tokens, weight, t);
                assert(first_seen(tokens).contains(t));
            }
        }
        index
    }
}

/// The metadata of the documents.
fn take_metas(docs: Vec<TokenizedDoc>) -> (metas: Vec<DocMeta>)
    ensures
        metas@ == metas_of(docs@),
{
    let ghost all = docs@;
    let n: usize = docs.len();
    let mut docs = docs;
    let mut back: Vec<DocMeta> = Vec::new();
    while docs.len() > 0
        invariant
            n == all.len(),
            docs@.len() + back@.len() == n,
            docs@ == all.take(docs@.len() as int),
            forall|j: int| 0 <= j < back@.len() ==> #[trigger] back@[j] == all[n - 1 - j].meta,
        decreases docs@.len(),
    {
        if let Some(d) = docs.pop() {
            back.push(d.meta);
        }
    }
    let mut metas: Vec<DocMeta> = Vec::new();
    while back.len() > 0
        invariant
            n == all.len(),
            metas@.len() + back@.len() == n,
            forall|j: int| 0 <= j < back@.len() ==> #[trigger] back@[j] == all[n - 1 - j].meta,
            forall|j: int| 0 <= j < metas@.len() ==> #[trigger] metas@[j] == all[j].meta,
        decreases back@.len(),
    {
        let ghost at = metas@.len() as int;
        if let Some(m) = back.pop() {
            assert(m == all[at].meta);
            metas.push(m);
        }
    }
    assert(metas@ =~= metas_of(all));
    metas
}

/// The external ids of tokenized documents.
pub open spec fn ids_of(docs: Seq<TokenizedDoc>) -> Seq<Seq<char>> {
    Seq::new(docs.len(), |d: int| docs[d].meta.external_id@)
}

/// The terms of each document, as ids.
pub open spec fn pair_terms(docs: Seq<TokenizedDoc>) -> Seq<Seq<u32>> {
    Seq::new(docs.len(), |d: int| Seq::new(docs[d].pairs@.len(), |k: int| docs[d].pairs@[k].0))
}

/// Positions as 32-bit numbers.
pub open spec fn narrow(order: Seq<usize>) -> Seq<u32> {
    Seq::new(order.len(), |i: int| order[i] as u32)
}

/// `order` is how the strategy arranges the documents.
pub open spec fn chosen_order(
    strategy: ReorderStrategy,
    docs: Seq<TokenizedDoc>,
    order: Seq<usize>,
) -> bool {
    let n = docs.len();
    &&& order::covers(order, 0, n as int)
    &&& match strategy {
        ReorderStrategy::Keep => forall|i: int| 0 <= i < n ==> #[trigger] order[i] == i,
        ReorderStrategy::Path => order::sorted_indices(
            order,
            n as int,
            order::text_less(ids_of(docs)),
        ),
        _ => reorder::bisected(pair_terms(docs), reorder::identity(n), 0, narrow(order)),
    }
}

proof fn lemma_increasing_ids(pairs: Seq<(u32, u32)>, i: int)
    requires
        0 <= i < pairs.len(),
        forall|i: int, j: int|
            0 <= i < j < pairs.len() ==> (#[trigger] pairs[i]).0 < (#[trigger] pairs[j]).0,
    ensures
        pairs[i].0 >= i,
    decreases i,
{
    if i > 0 {
        lemma_increasing_ids(pairs, i - 1);
    }
}

/// A rearrangement of the first `n` numbers names each of them once.
proof fn lemma_permutation_covers(order: Seq<u32>, n: nat)
    requires
        n <= u32::MAX,
        order.len() == n,
        order.to_multiset() == reorder::identity(n).to_multiset(),
    ensures
        order.no_duplicates(),
        forall|i: int| 0 <= i < n ==> #[trigger] order[i] < n,
        forall|v: u32| v < n ==> #[trigger] order.contains(v),
{
    broadcast use vstd::seq_lib::group_to_multiset_ensures;

    let id = reorder::identity(n);
    assert(id.no_duplicates());
    id.lemma_multiset_has_no_duplicates();
    order.lemma_multiset_has_no_duplicates_conv();
    assert forall|i: int| 0 <= i < n implies #[trigger] order[i] < n by {
        assert(order.to_multiset().count(order[i]) > 0);
        assert(id.to_multiset().count(order[i]) > 0);
        assert(id.contains(order[i]));
    }
    assert forall|v: u32| v < n implies #[trigger] order.contains(v) by {
        assert(id[v as int] == v);
        assert(id.contains(v));
        assert(id.to_multiset().count(v) > 0);
        assert(order.to_multiset().count(v) > 0);
    }
}

impl IndexBuilder {
    /// The order in which the strategy arranges the documents.
    pub fn arrange(&self) -> (order: Vec<usize>)
        requires
            self.wf(),
            self.reorder != ReorderStrategy::BpGpu,
        ensures
            chosen_order(self.reorder, self.docs@, order@),
            order@.no_duplicates(),
    {
        let n: usize = self.docs.len();
        match self.reorder {
            ReorderStrategy::Keep => {
                let mut order: Vec<usize> = Vec::new();
                let mut i: usize = 0;
                while i < n
                    invariant
                        i <= n,
                        order@.len() == i,
                        forall|j: int| 0 <= j < i ==> #[trigger] order@[j] == j,
                    decreases n - i,
                {
                    order.push(i);
                    i += 1;
                }
                assert forall|v: usize| 0 <= v < n implies #[trigger] order@.contains(v) by {
                    assert(order@[v as int] == v);
                }
                order
            },
            ReorderStrategy::Path => {
                let mut texts: Vec<Vec<char>> = Vec::new();
                let mut i: usize = 0;
                while i < n
                    invariant
                        n == self.docs@.len(),
                        i <= n,
                        texts@.len() == i,
                        forall|j: int|
                            0 <= j < i ==> (#[trigger] texts@[j])@
                                == self.docs@[j].meta.external_id@,
                    decreases n - i,
                {
                    texts.push(text::chars_of(self.docs[i].meta.external_id.as_str()));
                    i += 1;
                }
                assert(text::views(texts@) =~= ids_of(self.docs@));
                let order = order::order_by_text(&texts);
                proof {
                    let less = order::text_less(ids_of(self.docs@));
                    order::lemma_text_less_total(ids_of(self.docs@));
                    order::lemma_increasing_distinct(order@, n as int, less);
                }
                order
            },
            _ => {
                let mut doc_terms: Vec<Vec<u32>> = Vec::new();
                let mut i: usize = 0;
                while i < n
                    invariant
                        self.wf(),
                        n == self.docs@.len(),
                        i <= n,
                        doc_terms@.len() == i,
                        forall|j: int|
                            0 <= j < i ==> (#[trigger] doc_terms@[j])@ == pair_terms(self.docs@)[j],
                    decreases n - i,
                {
                    let pairs = &self.docs[i].pairs;
                    let mut ids: Vec<u32> = Vec::new();
                    let mut k: usize = 0;
                    while k < pairs.len()
                        invariant
                            k <= pairs@.len(),
                            ids@.len() == k,
                            forall|j: int| 0 <= j < k ==> #[trigger] ids@[j] == pairs@[j].0,
                        decreases pairs@.len() - k,
                    {
                        ids.push(pairs[k].0);
                        k += 1;
                    }
                    assert(ids@ =~= pair_terms(self.docs@)[i as int]);
                    doc_terms.push(ids);
                    i += 1;
                }
                assert(reorder::term_views(doc_terms@) =~= pair_terms(self.docs@));
                assert forall|d: int| 0 <= d < doc_terms@.len() implies (
                #[trigger] doc_terms@[d])@.no_duplicates() && doc_terms@[d]@.len() <= u32::MAX by {
                    let pairs = self.docs@[d].pairs@;
                    assert(lists_terms(
                        pairs,
                        self.terms@,
                        self.tokens@[d],
                        self.title_weight as nat,
                    ));
                    if pairs.len() > 0 {
                        lemma_increasing_ids(pairs, pairs.len() - 1);
                    }
                }
                let found = reorder::bp_order(&doc_terms);
                proof {
                    reorder::law_bisection_permutes(
                        pair_terms(self.docs@),
                        reorder::identity(n as nat),
                        0,
                        found@,
                    );
                    lemma_permutation_covers(found@, n as nat);
                }
                let mut order: Vec<usize> = Vec::new();
                let mut j: usize = 0;
                while j < n
                    invariant
                        n == found@.len(),
                        j <= n,
                        order@.len() == j,
                        forall|k: int| 0 <= k < j ==> #[trigger] order@[k] == found@[k],
                    decreases n - j,
                {
                    order.push(found[j] as usize);
                    j += 1;
                }
                proof {
                    assert(narrow(order@) =~= found@);
                    assert forall|v: usize| 0 <= v < n implies #[trigger] order@.contains(v) by {
                        assert(found@.contains(v as u32));
                        let k = choose|k: int| 0 <= k < found@.len() && found@[k] == v as u32;
                        assert(order@[k] == v);
                    }
                }
                order
            },
        }
    }

    /// Build the index, with documents in the order of the strategy.
    pub fn finish(self) -> (index: Index)
        requires
            self.wf(),
            self.reorder != ReorderStrategy::BpGpu,
        ensures
            exists|order: Seq<usize>| #[trigger]
                chosen_order(self.reorder, self.docs@, order) && indexes(
                    index,
                    order::arranged(self.tokens@, order),
                    self.title_weight as nat,
                    order::arranged(metas_of(self.docs@), order),
                ),
            index.remove_stopwords == self.remove_stopwords,
            index.block_size == self.block_size,
    {
        let order = self.arrange();
        self.finish_ordered(order)
    }

    /// Add documents one by one.
    pub fn add_documents(&mut self, chunk: &[DocTokens])
        requires
            old(self).wf(),
            batch_fits(
                doc_views(chunk@),
                old(self).docs@.len(),
                old(self).terms@,
                old(self).title_weight as nat,
            ),
        ensures
            final(self).wf(),
            final(self).tokens@ == old(self).tokens@ + doc_views(chunk@),
            final(self).docs@.len() == old(self).docs@.len() + chunk@.len(),
            final(self).docs@.take(old(self).docs@.len() as int) == old(self).docs@,
            forall|i: int|
                0 <= i < chunk@.len() ==> is_meta(
                    final(self).docs@[old(self).docs@.len() + i].meta,
                    (#[trigger] chunk@[i]).doc,
                    chunk@[i]@,
                ),
            final(self).title_weight == old(self).title_weight,
            final(self).remove_stopwords == old(self).remove_stopwords,
            final(self).block_size == old(self).block_size,
            final(self).reorder == old(self).reorder,
    {
        let ghost start = *self;
        let ghost all = doc_views(chunk@);
        let mut i: usize = 0;
        proof {
            assert(all.take(0) =~= Seq::<TokenModel>::empty());
            assert(self.tokens@ =~= start.tokens@ + all.take(0));
            assert(self.docs@.take(start.docs@.len() as int) =~= start.docs@);
        }
        while i < chunk.len()
            invariant
                all == doc_views(chunk@),
                batch_fits(
                    all,
                    start.docs@.len(),
                    start.terms@,
                    start.title_weight as nat,
                ),
                i <= chunk@.len(),
                start.terms@ == first_seen(start.tokens@),
                self.wf(),
                self.tokens@ == start.tokens@ + all.take(i as int),
                self.docs@.len() == start.docs@.len() + i,
                self.docs@.take(start.docs@.len() as int) == start.docs@,
                forall|j: int|
                    0 <= j < i ==> is_meta(
                        self.docs@[start.docs@.len() + j].meta,
                        (#[trigger] chunk@[j]).doc,
                        chunk@[j]@,
                    ),
                self.title_weight == start.title_weight,
                self.remove_stopwords == start.remove_stopwords,
                self.block_size == start.block_size,
                self.reorder == start.reorder,
            decreases chunk@.len() - i,
        {
            let ghost before = *self;
            proof {
                assert(all[i as int] == chunk@[i as int]@);
                lemma_noted_all_concat(Seq::empty(), start.tokens@, all.take(i as int));
                assert(all.take(i + 1).drop_last() =~= all.take(i as int));
                lemma_noted_all_grows(start.terms@, all, i + 1);
            }
            self.add_document(&chunk[i]);
            proof {
                assert(all.take(i + 1) =~= all.take(i as int).push(all[i as int]));
                assert(self.tokens@ =~= start.tokens@ + all.take(i + 1));
                assert forall|j: int| 0 <= j < before.docs@.len() implies self.docs@[j]
                    == before.docs@[j] by {
                    assert(self.docs@.drop_last()[j] == before.docs@[j]);
                }
                assert(self.docs@.take(start.docs@.len() as int) =~= start.docs@) by {
                    assert forall|j: int| 0 <= j < start.docs@.len() implies self.docs@[j]
                        == start.docs@[j] by {
                        assert(before.docs@.take(start.docs@.len() as int)[j] == start.docs@[j]);
                    }
                }
            }
            i += 1;
        }
        assert(all.take(i as int) =~= all);
    }
}

/// The tokens of each document.
pub open spec fn doc_views(docs: Seq<DocTokens>) -> Seq<TokenModel> {
    Seq::new(docs.len(), |i: int| docs[i]@)
}

/// The documents fit beside those already there: the documents, the
/// different terms, and the frequencies of each document stay within 32 bits.
pub open spec fn batch_fits(
    docs: Seq<TokenModel>,
    known_docs: nat,
    known: Seq<Seq<char>>,
    weight: nat,
) -> bool {
    &&& known_docs + docs.len() <= u32::MAX
    &&& noted_all(known, docs).len() <= u32::MAX
    &&& forall|i: int|
        0 <= i < docs.len() ==> weight * (#[trigger] docs[i]).title.len() + docs[i].body.len()
            <= u32::MAX
}

/// Build the index of tokenized documents. Each title occurrence of a term
/// counts as `title_weight` occurrences; document length stays the plain
/// token count.
pub fn build_index_weighted(
    docs: &[DocTokens],
    remove_stopwords: bool,
    title_weight: u32,
    block_size: usize,
    reorder: ReorderStrategy,
) -> (index: Index)
    requires
        block_size > 0,
        reorder != ReorderStrategy::BpGpu,
        batch_fits(
            doc_views(docs@),
            0,
            Seq::empty(),
            if title_weight == 0 {
                1
            } else {
                title_weight as nat
            },
        ),
    ensures
        index.wf(),
        index.remove_stopwords == remove_stopwords,
        index.block_size == block_size,
        exists|order: Seq<usize>| #[trigger]
            order::covers(order, 0, docs@.len() as int) && built(
                index,
                docs@,
                if title_weight == 0 {
                    1
                } else {
                    title_weight as nat
                },
                order,
            ) && (reorder == ReorderStrategy::Keep ==> forall|i: int|
                0 <= i < docs@.len() ==> order[i] == i),
{
    let mut builder = IndexBuilder::new(remove_stopwords, title_weight, block_size, reorder);
    builder.add_documents(docs);
    let order = builder.arrange();
    let ghost made = builder.docs@;
    let ghost tokens = builder.tokens@;
    let ghost by = order@;
    let index = builder.finish_ordered(order);
    proof {
        assert(tokens =~= doc_views(docs@));
        assert forall|i: int| 0 <= i < by.len() implies is_meta(
            index.docs@[i],
            docs@[#[trigger] by[i] as int].doc,
            docs@[by[i] as int]@,
        ) by {
            let d = by[i] as int;
            assert(index.docs@[i] == made[d].meta);
            assert(docs@[d]@ == docs@[d]@);
            assert(made[0 + d] == made[d]);
        }
        assert(built(index, docs@, builder.title_weight as nat, by));
    }
    index
}

/// `index` is the index of `docs` in the given order.
pub open spec fn built(index: Index, docs: Seq<DocTokens>, weight: nat, order: Seq<usize>) -> bool {
    let tokens = order::arranged(doc_views(docs), order);
    &&& index.docs@.len() == docs.len()
    &&& forall|i: int|
        0 <= i < order.len() ==> is_meta(
            index.docs@[i],
            docs[#[trigger] order[i] as int].doc,
            docs[order[i] as int]@,
        )
    &&& forall|t: Seq<char>| #[trigger] index.model(t) == indexed_term(tokens, weight, t)
    &&& forall|t: Seq<char>| #[trigger]
        index.postings_of(t) == term_list(tokens, weight, t, tokens.len() as int)
    &&& only_terms(index, tokens, weight)
}

/// Build the index of tokenized documents without a title weight.
pub fn build_index(
    docs: &[DocTokens],
    remove_stopwords: bool,
    block_size: usize,
    reorder: ReorderStrategy,
) -> (index: Index)
    requires
        block_size > 0,
        reorder != ReorderStrategy::BpGpu,
        batch_fits(doc_views(docs@), 0, Seq::empty(), 1),
    ensures
        index.wf(),
        index.remove_stopwords == remove_stopwords,
        index.block_size == block_size,
        exists|order: Seq<usize>| #[trigger]
            order::covers(order, 0, docs@.len() as int) && built(index, docs@, 1, order) && (reorder
                == ReorderStrategy::Keep ==> forall|i: int| 0 <= i < docs@.len() ==> order[i] == i),
{
    build_index_weighted(docs, remove_stopwords, 1, block_size, reorder)
}

/// The lines of a text that hold a document: those that are not blank, with
/// their 1-based numbers.
pub open spec fn document_lines(lines: Seq<Seq<char>>, n: int) -> Seq<(int, Seq<char>)>
    decreases n,
{
    if n <= 0 {
        Seq::empty()
    } else if text::trimmed(lines[n - 1]).len() == 0 {
        document_lines(lines, n - 1)
    } else {
        document_lines(lines, n - 1).push((n, lines[n - 1]))
    }
}

pub open spec fn numbered(out: Seq<(usize, String)>) -> Seq<(int, Seq<char>)> {
    Seq::new(out.len(), |i: int| (out[i].0 as int, out[i].1@))
}

/// The lines of JSONL text that hold a document, with their numbers.
pub fn jsonl_lines(text: &str) -> (out: Vec<(usize, String)>)
    ensures
        numbered(out@) == document_lines(
            text::lines(text@),
            text::lines(text@).len() as int,
        ),
{
    let chars = text::chars_of(text);
    let lines = text::split_lines(chars.as_slice());
    let ghost all = text::lines(text@);
    let mut out: Vec<(usize, String)> = Vec::new();
    let mut i: usize = 0;
    let n: usize = lines.len();
    assert(numbered(out@) =~= Seq::<(int, Seq<char>)>::empty());
    while i < n
        invariant
            n == lines@.len(),
            all == text::views(lines@),
            i <= n,
            numbered(out@) == document_lines(all, i as int),
        decreases n - i,
    {
        let ghost before = numbered(out@);
        assert(all[i as int] == lines@[i as int]@);
        let line: &[char] = lines[i].as_slice();
        let trimmed: &[char] = text::trim(line);
        if trimmed.len() > 0 {
            out.push((i + 1, text::string_of(line)));
            assert(numbered(out@) =~= before.push((i + 1, line@)));
        }
        i += 1;
    }
    out
}

// ---------------------------------------------------------------------------
// Renumbering
// ---------------------------------------------------------------------------

/// One where the document holds the term, else zero.
spec fn held_fn(tokens: Seq<TokenModel>, weight: nat, t: Seq<char>) -> spec_fn(int) -> nat {
    |d: int|
        if folded_tf(tokens[d], weight, t) > 0 {
            1nat
        } else {
            0nat
        }
}

proof fn lemma_df_is_sum(tokens: Seq<TokenModel>, weight: nat, t: Seq<char>, n: int)
    requires
        0 <= n <= tokens.len(),
    ensures
        term_list(tokens, weight, t, n).len() == sums::total(held_fn(tokens, weight, t), n as nat),
    decreases n,
{
    if n > 0 {
        lemma_df_is_sum(tokens, weight, t, n - 1);
    }
}

/// A sum over all documents does not depend on their order.
proof fn lemma_sum_renumbered(
    f: spec_fn(int) -> nat,
    g: spec_fn(int) -> nat,
    n: nat,
    order: Seq<usize>,
)
    requires
        n <= usize::MAX,
        order::covers(order, 0, n as int),
        order.no_duplicates(),
        forall|i: int| 0 <= i < n ==> #[trigger] g(i) == f(order[i] as int),
    ensures
        sums::total(g, n) == sums::total(f, n),
{
    assert forall|j: int| 0 <= j < n && #[trigger] f(j) > 0 implies exists|i: int|
        0 <= i < n && order[i] == j by {
        assert(order.contains(j as usize));
        let i = choose|i: int| 0 <= i < order.len() && order[i] == j as usize;
        assert(order[i] == j);
    }
    sums::lemma_total_support(f, n, order, n);
    assert forall|i: int| 0 <= i < n implies #[trigger] g(i) == sums::along(f, order)(i) by {}
    sums::lemma_total_eq(g, sums::along(f, order), n);
}

/// A document stands in the list of a term iff it holds it, with its
/// frequency.
proof fn lemma_term_list_holds(tokens: Seq<TokenModel>, weight: nat, t: Seq<char>, n: int, d: int)
    requires
        0 <= n <= tokens.len() <= u32::MAX,
        0 <= d < n,
    ensures
        folded_tf(tokens[d], weight, t) > 0 <==> exists|i: int|
            0 <= i < term_list(tokens, weight, t, n).len() && (#[trigger] term_list(
                tokens,
                weight,
                t,
                n,
            )[i]).doc_id == d,
        forall|i: int|
            0 <= i < term_list(tokens, weight, t, n).len() && (#[trigger] term_list(
                tokens,
                weight,
                t,
                n,
            )[i]).doc_id == d ==> term_list(tokens, weight, t, n)[i].tf == folded_tf(
                tokens[d],
                weight,
                t,
            ) as u32,
    decreases n,
{
    let now = term_list(tokens, weight, t, n);
    let before = term_list(tokens, weight, t, n - 1);
    lemma_term_list(tokens, weight, t, n - 1);
    if d < n - 1 {
        lemma_term_list_holds(tokens, weight, t, n - 1, d);
        if folded_tf(tokens[d], weight, t) > 0 {
            let i = choose|i: int| 0 <= i < before.len() && (#[trigger] before[i]).doc_id == d;
            assert(now[i].doc_id == d);
        }
        assert forall|i: int| 0 <= i < now.len() && (#[trigger] now[i]).doc_id == d implies i
            < before.len() && before[i] == now[i] by {}
    } else {
        if folded_tf(tokens[d], weight, t) > 0 {
            assert(now[before.len() as int].doc_id == d);
        }
        assert forall|i: int| 0 <= i < now.len() && (#[trigger] now[i]).doc_id == d implies i
            == before.len() by {
            if i < before.len() {
                assert(before[i].doc_id < n - 1);
            }
        }
    }
}

/// The lengths of documents with these tokens.
pub open spec fn token_lens(tokens: Seq<TokenModel>) -> Seq<u32> {
    Seq::new(tokens.len(), |d: int| token_len(tokens[d]) as u32)
}

/// What an indexed term adds to the score of a document.
pub open spec fn indexed_weight(tokens: Seq<TokenModel>, weight: nat, t: Seq<char>, d: u32) -> nat {
    match indexed_term(tokens, weight, t) {
        Some(m) => block_max_wand::term_weight(m, token_lens(tokens), d),
        None => 0,
    }
}

proof fn lemma_indexed_weight(tokens: Seq<TokenModel>, weight: nat, t: Seq<char>, d: u32)
    requires
        tokens.len() <= u32::MAX,
        d < tokens.len(),
    ensures
        indexed_weight(tokens, weight, t, d) == if folded_tf(tokens[d as int], weight, t) == 0 {
            0
        } else {
            bm25::contribution(
                bm25::idf_spec(
                    tokens.len(),
                    term_list(tokens, weight, t, tokens.len() as int).len(),
                ),
                folded_tf(tokens[d as int], weight, t) as u32 as nat,
                token_len(tokens[d as int]) as u32 as nat,
                average_len(total_len(tokens), tokens.len()),
            )
        },
{
    let n = tokens.len() as int;
    lemma_term_list_holds(tokens, weight, t, n, d as int);
    let list = term_list(tokens, weight, t, n);
    if let Some(m) = indexed_term(tokens, weight, t) {
        if folded_tf(tokens[d as int], weight, t) > 0 {
            let i = choose|i: int| 0 <= i < list.len() && (#[trigger] list[i]).doc_id == d;
            assert(block_max_wand::stands_at(m, i, d));
        }
        if block_max_wand::holds(m, d) {
            let i = choose|i: int| block_max_wand::stands_at(m, i, d);
            assert(list[i].doc_id == d);
        }
    } else {
        if folded_tf(tokens[d as int], weight, t) > 0 {
            let i = choose|i: int| 0 <= i < list.len() && (#[trigger] list[i]).doc_id == d;
        }
    }
}

/// Reordering is a pure renumbering: every term adds to the score of a
/// document at its new place what it added at the old one.
pub proof fn law_renumbering_keeps_weights(
    tokens: Seq<TokenModel>,
    order: Seq<usize>,
    weight: nat,
    t: Seq<char>,
    i: u32,
)
    requires
        tokens.len() <= u32::MAX,
        tokens.len() <= usize::MAX,
        order::covers(order, 0, tokens.len() as int),
        order.no_duplicates(),
        i < tokens.len(),
    ensures
        indexed_weight(order::arranged(tokens, order), weight, t, i) == indexed_weight(
            tokens,
            weight,
            t,
            order[i as int] as u32,
        ),
{
    let n = tokens.len();
    let new = order::arranged(tokens, order);
    lemma_sum_renumbered(lens_fn(tokens), lens_fn(new), n, order);
    lemma_sum_renumbered(held_fn(tokens, weight, t), held_fn(new, weight, t), n, order);
    lemma_df_is_sum(tokens, weight, t, n as int);
    lemma_df_is_sum(new, weight, t, n as int);
    assert(order[i as int] < n);
    lemma_indexed_weight(new, weight, t, i);
    lemma_indexed_weight(tokens, weight, t, order[i as int] as u32);
}

/// Later documents do not change the postings in earlier ones.
pub proof fn lemma_term_list_prefix(
    a: Seq<TokenModel>,
    b: Seq<TokenModel>,
    weight: nat,
    t: Seq<char>,
    n: int,
)
    requires
        0 <= n <= a.len(),
        n <= b.len(),
        forall|d: int| 0 <= d < n ==> #[trigger] a[d] == b[d],
    ensures
        term_list(a, weight, t, n) == term_list(b, weight, t, n),
    decreases n,
{
    if n > 0 {
        lemma_term_list_prefix(a, b, weight, t, n - 1);
        assert(a[n - 1] == b[n - 1]);
    }
}

// ---------------------------------------------------------------------------
// One index for one list of documents
// ---------------------------------------------------------------------------

/// The lists agree in postings, weight and block bounds.
pub open spec fn same_list(a: PostingList, b: PostingList) -> bool {
    &&& a.postings@ == b.postings@
    &&& a.block_max_doc_ids@ == b.block_max_doc_ids@
    &&& a.block_max_tfs@ == b.block_max_tfs@
    &&& a.block_min_lens@ == b.block_min_lens@
    &&& a.term_max_tf == b.term_max_tf
    &&& a.term_min_len == b.term_min_len
    &&& a.idf == b.idf
}

/// The indexes agree in everything that is stored of terms and postings.
pub open spec fn same_index(a: Index, b: Index) -> bool {
    &&& a.terms@ == b.terms@
    &&& a.avg_doc_len == b.avg_doc_len
    &&& a.posting_lists@.len() == b.posting_lists@.len()
    &&& forall|i: int|
        0 <= i < a.posting_lists@.len() ==> same_list(
            #[trigger] a.posting_lists@[i],
            b.posting_lists@[i],
        )
}

/// Documents have one index: the same terms under the same ids, the same
/// postings, weights and block bounds, however it was built.
pub proof fn law_one_index_per_document_list(
    a: Index,
    b: Index,
    tokens: Seq<TokenModel>,
    weight: nat,
)
    requires
        indexes(a, tokens, weight, a.docs@),
        indexes(b, tokens, weight, b.docs@),
        meta_lens(a.docs@) == meta_lens(b.docs@),
        a.block_size == b.block_size,
    ensures
        same_index(a, b),
{
    order::lemma_lex_sorted_unique(a.terms@, b.terms@);
    assert forall|i: int| 0 <= i < a.posting_lists@.len() implies same_list(
        #[trigger] a.posting_lists@[i],
        b.posting_lists@[i],
    ) by {
        let t = a.terms@[i];
        assert(a.terms@.contains(t));
        assert(a.terms@.index_of(t) == i);
        assert(b.terms@.index_of(t) == i);
        assert(a.postings_of(t) == b.postings_of(t));
        assert(a.model(t) == b.model(t));
        let (x, y) = (a.posting_lists@[i], b.posting_lists@[i]);
        assert(x.wf(meta_lens(a.docs@), a.block_size as int));
        assert(y.wf(meta_lens(b.docs@), b.block_size as int));
        postings::lemma_one_block_meta(
            x.postings@,
            meta_lens(a.docs@),
            a.block_size as int,
            (x.block_max_doc_ids@, x.block_max_tfs@, x.block_min_lens@),
            (y.block_max_doc_ids@, y.block_max_tfs@, y.block_min_lens@),
        );
        assert(x.term_max_tf == y.term_max_tf);
        assert(x.term_min_len == y.term_min_len);
    }
}

/// Documents that are added in two chunks give the index of one build.
pub proof fn law_chunks_are_one_build(
    chunked: Index,
    whole: Index,
    first: Seq<DocTokens>,
    second: Seq<DocTokens>,
    weight: nat,
)
    requires
        indexes(chunked, doc_views(first) + doc_views(second), weight, chunked.docs@),
        indexes(whole, doc_views(first + second), weight, whole.docs@),
        meta_lens(chunked.docs@) == meta_lens(whole.docs@),
        chunked.block_size == whole.block_size,
    ensures
        same_index(chunked, whole),
{
    assert(doc_views(first) + doc_views(second) =~= doc_views(first + second));
    law_one_index_per_document_list(chunked, whole, doc_views(first + second), weight);
}

/// Counting occurrences is counting in the bag of the tokens.
proof fn lemma_occurrences_count(tokens: Seq<Seq<char>>, t: Seq<char>)
    ensures
        occurrences(tokens, t) == tokens.to_multiset().count(t),
    decreases tokens.len(),
{
    broadcast use vstd::seq_lib::group_to_multiset_ensures;

    if tokens.len() > 0 {
        let front = tokens.drop_last();
        lemma_occurrences_count(front, t);
        assert(tokens =~= front.push(tokens.last()));
    }
}

/// The postings of an index: a document is listed under a term exactly if the
/// term occurs in its title or its body, with the number of times that it
/// occurs, an occurrence in the title counting `weight` times; the documents
/// ascend.
pub proof fn law_postings_count_occurrences(
    index: Index,
    tokens: Seq<TokenModel>,
    weight: nat,
    metas: Seq<DocMeta>,
    t: Seq<char>,
    d: u32,
)
    requires
        indexes(index, tokens, weight, metas),
        d < tokens.len() <= u32::MAX,
        weight * tokens[d as int].title.len() + tokens[d as int].body.len() <= u32::MAX,
    ensures
        ({
            let list = index.postings_of(t);
            let n = weight * tokens[d as int].title.to_multiset().count(t)
                + tokens[d as int].body.to_multiset().count(t);
            &&& forall|i: int, j: int|
                0 <= i < j < list.len() ==> (#[trigger] list[i]).doc_id < (#[trigger] list[j]).doc_id
            &&& n > 0 <==> exists|i: int| 0 <= i < list.len() && (#[trigger] list[i]).doc_id == d
            &&& forall|i: int|
                0 <= i < list.len() && (#[trigger] list[i]).doc_id == d ==> list[i].tf == n
        }),
{
    let doc = tokens[d as int];
    let n = tokens.len() as int;
    lemma_occurrences_count(doc.title, t);
    lemma_occurrences_count(doc.body, t);
    lemma_occurrences_bound(doc.title, t);
    lemma_occurrences_bound(doc.body, t);
    let o = occurrences(doc.title, t);
    assert(weight * o <= weight * doc.title.len()) by (nonlinear_arith)
        requires
            o <= doc.title.len(),
    ;
    lemma_term_list(tokens, weight, t, n);
    lemma_term_list_holds(tokens, weight, t, n, d as int);
    assert(index.postings_of(t) == term_list(tokens, weight, t, n));
}

/// The terms of an index are the tokens of its documents, each once, in
/// alphabetical order.
pub proof fn law_terms_are_the_tokens(
    index: Index,
    tokens: Seq<TokenModel>,
    weight: nat,
    metas: Seq<DocMeta>,
    t: Seq<char>,
)
    requires
        indexes(index, tokens, weight, metas),
        weight > 0,
        tokens.len() <= u32::MAX,
    ensures
        index.terms@.contains(t) <==> exists|d: int|
            0 <= d < tokens.len() && ((#[trigger] tokens[d]).title.contains(t)
                || tokens[d].body.contains(t)),
        index.terms@.no_duplicates(),
{
    let n = tokens.len() as int;
    let list = term_list(tokens, weight, t, n);
    assert(index.terms@.contains(t) <==> list.len() > 0);
    lemma_term_list(tokens, weight, t, n);
    if list.len() > 0 {
        let d = list[0].doc_id as int;
        lemma_term_list_holds(tokens, weight, t, n, d);
        lemma_occurs(tokens[d].title, t);
        lemma_occurs(tokens[d].body, t);
        assert(folded_tf(tokens[d], weight, t) > 0);
        if occurrences(tokens[d].title, t) == 0 {
            assert(weight * 0 == 0);
        }
        assert(tokens[d].title.contains(t) || tokens[d].body.contains(t));
    }
    if exists|d: int|
        0 <= d < tokens.len() && ((#[trigger] tokens[d]).title.contains(t)
            || tokens[d].body.contains(t)) {
        let d = choose|d: int|
            0 <= d < tokens.len() && ((#[trigger] tokens[d]).title.contains(t)
                || tokens[d].body.contains(t));
        lemma_occurs(tokens[d].title, t);
        lemma_occurs(tokens[d].body, t);
        let o = occurrences(tokens[d].title, t);
        assert(o > 0 ==> weight * o > 0) by (nonlinear_arith)
            requires
                weight > 0,
        ;
        lemma_term_list_holds(tokens, weight, t, n, d);
    }
    assert(index.terms.wf());
}

/// Count the tokens of a document, title and body.
pub open spec fn counting() -> spec_fn(nat, TokenModel) -> nat {
    |sum: nat, doc: TokenModel| sum + doc.title.len() + doc.body.len()
}

proof fn lemma_total_folds(tokens: Seq<TokenModel>, n: nat)
    requires
        n <= tokens.len(),
    ensures
        sums::total(lens_fn(tokens), n) == tokens.take(n as int).fold_left(0nat, counting()),
    decreases n,
{
    if n > 0 {
        lemma_total_folds(tokens, (n - 1) as nat);
        assert(tokens.take(n as int).drop_last() =~= tokens.take(n - 1));
        assert(tokens.take(n as int).last() == tokens[n - 1]);
    }
}

/// The average length of an index is that of its documents, in units of
/// 1 / 1024 token and rounded down: the tokens of all titles and bodies over the
/// number of documents. It is at least one unit, and one token if there are no
/// tokens.
pub proof fn law_average_length(
    index: Index,
    tokens: Seq<TokenModel>,
    weight: nat,
    metas: Seq<DocMeta>,
)
    requires
        indexes(index, tokens, weight, metas),
    ensures
        ({
            let all = tokens.fold_left(0nat, counting());
            let n = tokens.len();
            let a = index.avg_doc_len as nat;
            &&& all == 0 ==> a == 1024
            &&& 0 < 1024 * all < n ==> a == 1
            &&& 0 < n <= 1024 * all && a < u32::MAX ==> a * n <= 1024 * all < (a + 1) * n
        }),
{
    let n = tokens.len();
    lemma_total_folds(tokens, n);
    assert(tokens.take(n as int) =~= tokens);
    let all = total_len(tokens);
    if all > 0 {
        assert(n > 0) by {
            if n == 0 {
                assert(sums::total(lens_fn(tokens), 0) == 0);
            }
        }
        let top = (1024 * all) as int;
        let q = top / n as int;
        assert(all * bm25::AVG_UNIT as nat == top) by (nonlinear_arith)
            requires
                top == 1024 * all,
                bm25::AVG_UNIT == 1024,
        ;
        vstd::arithmetic::div_mod::lemma_fundamental_div_mod(top, n as int);
        vstd::arithmetic::div_mod::lemma_mod_bound(top, n as int);
        assert(q * n <= top < (q + 1) * n) by (nonlinear_arith)
            requires
                top == n * q + top % (n as int),
                0 <= top % (n as int) < n,
        ;
        if top < n {
            vstd::arithmetic::div_mod::lemma_basic_div(top, n as int);
        } else {
            assert(q > 0) by (nonlinear_arith)
                requires
                    top >= n,
                    top < (q + 1) * n,
                    n > 0,
            ;
            let a = index.avg_doc_len as nat;
            if a < u32::MAX {
                assert(a == q);
                assert(a * n == q * n && (a + 1) * n == (q + 1) * n);
            }
        }
    }
}

/// What is kept of a document: its id and title, the beginning of its body, how
/// many tokens it has, title and body together, and a hash of its content.
pub proof fn law_document_record(m: DocMeta, d: InputDoc, tokens: TokenModel)
    requires
        is_meta(m, d, tokens),
    ensures
        m.external_id@ == d.id@,
        m.title@ == d.title@,
        m.doc_len == tokens.title.len() + tokens.body.len(),
        m.snippet@.len() <= d.body@.len(),
        m.snippet@ == d.body@.take(m.snippet@.len() as int),
        m.snippet@.len() < d.body@.len() ==> m.snippet@.len() == 200,
        m.snippet@.len() <= 200,
{
    assert(d.body@.take(d.body@.len() as int) =~= d.body@);
}

/// A term weighs by how many of the documents hold it: those in whose title or
/// body it occurs.
pub proof fn law_terms_weigh_by_the_documents(
    index: Index,
    tokens: Seq<TokenModel>,
    weight: nat,
    metas: Seq<DocMeta>,
    t: Seq<char>,
)
    requires
        indexes(index, tokens, weight, metas),
        weight > 0,
    ensures
        index.model(t) is None <==> forall|d: int|
            0 <= d < tokens.len() ==> !(#[trigger] tokens[d]).title.contains(t)
                && !tokens[d].body.contains(t),
        index.model(t) matches Some(m) ==> {
            &&& m.list == index.postings_of(t)
            &&& m.idf == bm25::idf_spec(tokens.len(), m.list.len())
            &&& m.avg_doc_len == index.avg_doc_len
            &&& m.list.len() == Seq::new(tokens.len(), |d: int| d).filter(
                |d: int| tokens[d].title.contains(t) || tokens[d].body.contains(t),
            ).len()
        },
{
    assert(index.model(t) == indexed_term(tokens, weight, t));
    assert(index.postings_of(t) == term_list(tokens, weight, t, tokens.len() as int));
    lemma_holders(tokens, weight, t, tokens.len());
}

proof fn lemma_holders(tokens: Seq<TokenModel>, weight: nat, t: Seq<char>, n: nat)
    requires
        weight > 0,
        n <= tokens.len(),
    ensures
        term_list(tokens, weight, t, n as int).len() == Seq::new(n, |d: int| d).filter(
            |d: int| tokens[d].title.contains(t) || tokens[d].body.contains(t),
        ).len(),
        term_list(tokens, weight, t, n as int).len() == 0 <==> forall|d: int|
            0 <= d < n ==> !(#[trigger] tokens[d]).title.contains(t) && !tokens[d].body.contains(t),
    decreases n,
{
    reveal(Seq::filter);
    if n > 0 {
        lemma_holders(tokens, weight, t, (n - 1) as nat);
        assert(Seq::new(n, |d: int| d).drop_last() =~= Seq::new((n - 1) as nat, |d: int| d));
        let doc = tokens[n - 1];
        lemma_occurs(doc.title, t);
        lemma_occurs(doc.body, t);
        let a = occurrences(doc.title, t);
        let b = occurrences(doc.body, t);
        assert(weight * a + b > 0 <==> a > 0 || b > 0) by (nonlinear_arith)
            requires
                weight > 0,
                a >= 0,
                b >= 0,
        ;
    }
}

/// A file of documents has one on each line that is not blank; each is known by
/// the number of its line, counted from one.
pub proof fn law_document_lines(lines: Seq<Seq<char>>, n: int, l: int)
    requires
        0 <= n <= lines.len(),
    ensures
        forall|i: int, j: int|
            0 <= i < j < document_lines(lines, n).len() ==> (#[trigger] document_lines(lines, n)[i]).0
                < (#[trigger] document_lines(lines, n)[j]).0,
        forall|i: int|
            0 <= i < document_lines(lines, n).len() ==> {
                let (at, line) = #[trigger] document_lines(lines, n)[i];
                1 <= at <= n && line == lines[at - 1] && text::trimmed(line).len() > 0
            },
        1 <= l <= n && text::trimmed(lines[l - 1]).len() > 0 ==> document_lines(lines, n).contains(
            (l, lines[l - 1]),
        ),
    decreases n,
{
    if n > 0 {
        law_document_lines(lines, n - 1, l);
        let front = document_lines(lines, n - 1);
        let all = document_lines(lines, n);
        if front.contains((l, lines[l - 1])) {
            let i = choose|i: int| 0 <= i < front.len() && front[i] == (l, lines[l - 1]);
            assert(all[i] == front[i]);
        }
        if l == n && text::trimmed(lines[n - 1]).len() > 0 {
            assert(all[front.len() as int] == (l, lines[l - 1]));
        }
        if all.len() > front.len() {
            assert(all[front.len() as int].0 == n);
        }
    }
}

} // verus!
