//! Term dictionary: strings to dense ids.

use crate::hash;
use crate::text;
use std::collections::HashMap;
use vstd::prelude::*;
use vstd::utf8::encode_utf8;

verus! {

/// The terms seen so far, each with the id of its position. Lookups go
/// through buckets of ids with the same hash.
pub struct Interner {
    pub names: Vec<String>,
    pub buckets: HashMap<u64, Vec<u32>>,
}

/// The characters of each name.
pub open spec fn name_views(names: Seq<String>) -> Seq<Seq<char>> {
    Seq::new(names.len(), |i: int| names[i]@)
}

/// The hash that a term is filed under.
pub open spec fn term_hash(t: Seq<char>) -> u64 {
    hash::fnv1a_spec(encode_utf8(t))
}

/// The id `i` is filed under the hash `h`.
pub open spec fn filed(buckets: Map<u64, Vec<u32>>, h: u64, i: u32) -> bool {
    buckets.contains_key(h) && buckets[h]@.contains(i)
}

/// The id of a term among `names`.
pub open spec fn id_of(names: Seq<Seq<char>>, t: Seq<char>) -> Option<u32> {
    if names.contains(t) {
        Some(names.index_of(t) as u32)
    } else {
        None
    }
}

impl View for Interner {
    type V = Seq<Seq<char>>;

    open spec fn view(&self) -> Seq<Seq<char>> {
        name_views(self.names@)
    }
}

impl Interner {
    /// No term has two ids, and every id can be found.
    pub open spec fn wf(&self) -> bool {
        &&& self.names@.len() <= u32::MAX
        &&& self@.no_duplicates()
        &&& forall|i: int|
            0 <= i < self.names@.len() ==> filed(
                self.buckets@,
                term_hash((#[trigger] self.names@[i])@),
                i as u32,
            )
        &&& forall|h: u64, k: int|
            #![trigger self.buckets@[h]@[k]]
            self.buckets@.contains_key(h) && 0 <= k < self.buckets@[h]@.len()
                ==> self.buckets@[h]@[k] < self.names@.len()
    }

    pub fn new() -> (d: Self)
        ensures
            d.wf(),
            d@ == Seq::<Seq<char>>::empty(),
    {
        broadcast use vstd::std_specs::hash::group_hash_axioms;

        let d = Interner { names: Vec::new(), buckets: HashMap::new() };
        assert(d@ =~= Seq::<Seq<char>>::empty());
        d
    }

    /// How many terms have an id.
    pub fn len(&self) -> (n: usize)
        ensures
            n == self@.len(),
    {
        self.names.len()
    }

    /// The id of `term`, if it has one.
    pub fn get(&self, term: &str) -> (id: Option<u32>)
        requires
            self.wf(),
        ensures
            id == id_of(self@, term@),
            id matches Some(i) ==> i < self@.len() && self@[i as int] == term@,
    {
        broadcast use vstd::std_specs::hash::group_hash_axioms;

        let h: u64 = hash::fnv1a(term.as_bytes());
        let bucket = match self.buckets.get(&h) {
            Some(b) => b,
            None => {
                proof {
                    if self@.contains(term@) {
                        let i = choose|i: int| 0 <= i < self@.len() && self@[i] == term@;
                        assert(filed(self.buckets@, term_hash(self.names@[i]@), i as u32));
                    }
                }
                return None;
            },
        };
        let chars = text::chars_of(term);
        let wanted = text::string_of(chars.as_slice());
        let mut k: usize = 0;
        while k < bucket.len()
            invariant
                self.wf(),
                h == term_hash(term@),
                self.buckets@.contains_key(h),
                *bucket == self.buckets@[h],
                wanted@ == term@,
                k <= bucket@.len(),
                forall|j: int| 0 <= j < k ==> self@[#[trigger] bucket@[j] as int] != term@,
            decreases bucket@.len() - k,
        {
            let id: u32 = bucket[k];
            assert(self.buckets@[h]@[k as int] == id);
            if self.names[id as usize] == wanted {
                proof {
                    assert(self@[id as int] == term@);
                    assert(self@.contains(term@));
                    let at = self@.index_of(term@);
                    assert(self@[at] == self@[id as int]);
                }
                return Some(id);
            }
            assert(self@[id as int] == self.names@[id as int]@);
            k += 1;
        }
        proof {
            if self@.contains(term@) {
                let i = choose|i: int| 0 <= i < self@.len() && self@[i] == term@;
                assert(filed(self.buckets@, term_hash(self.names@[i]@), i as u32));
                let j = choose|j: int| 0 <= j < bucket@.len() && bucket@[j] == i as u32;
                assert(self@[bucket@[j] as int] != term@);
            }
        }
        None
    }

    /// The id of `term`, which gets the next one if it has none.
    pub fn get_or_insert(&mut self, term: &str) -> (id: u32)
        requires
            old(self).wf(),
            old(self)@.contains(term@) || old(self)@.len() < u32::MAX,
        ensures
            final(self).wf(),
            final(self)@ == if old(self)@.contains(term@) {
                old(self)@
            } else {
                old(self)@.push(term@)
            },
            id < final(self)@.len(),
            final(self)@[id as int] == term@,
    {
        broadcast use vstd::std_specs::hash::group_hash_axioms;

        if let Some(id) = self.get(term) {
            return id;
        }
        let ghost before = *self;
        let id: u32 = self.names.len() as u32;
        let h: u64 = hash::fnv1a(term.as_bytes());
        let mut bucket: Vec<u32> = match self.buckets.remove(&h) {
            Some(b) => b,
            None => Vec::new(),
        };
        let ghost bucket0 = bucket@;
        bucket.push(id);
        self.buckets.insert(h, bucket);
        let chars = text::chars_of(term);
        self.names.push(text::string_of(chars.as_slice()));
        proof {
            assert(self@ =~= before@.push(term@));
            assert(self@.no_duplicates()) by {
                assert forall|i: int, j: int|
                    0 <= i < self@.len() && 0 <= j < self@.len() && i != j implies self@[i]
                    != self@[j] by {
                    if i == id {
                        if self@[i] == self@[j] {
                            assert(before@[j] == term@);
                            assert(before@.contains(term@));
                        }
                    } else if j == id {
                        if self@[i] == self@[j] {
                            assert(before@[i] == term@);
                            assert(before@.contains(term@));
                        }
                    } else {
                        assert(before@[i] != before@[j]);
                    }
                }
            }
            assert forall|i: int| 0 <= i < self.names@.len() implies filed(
                self.buckets@,
                term_hash((#[trigger] self.names@[i])@),
                i as u32,
            ) by {
                if i < id {
                    let g = term_hash(before.names@[i]@);
                    assert(filed(before.buckets@, g, i as u32));
                    if g == h {
                        let k = choose|k: int| 0 <= k < bucket0.len() && bucket0[k] == i as u32;
                        assert(self.buckets@[h]@[k] == i as u32);
                    }
                } else {
                    assert(self.buckets@[h]@[bucket0.len() as int] == id);
                }
            }
            assert forall|g: u64, k: int|
                #![trigger self.buckets@[g]@[k]]
                self.buckets@.contains_key(g) && 0 <= k < self.buckets@[g]@.len() implies self.buckets@[g]@[k]
                < self.names@.len() by {
                if g == h {
                    if k < bucket0.len() {
                        assert(before.buckets@.contains_key(h));
                        assert(before.buckets@[h]@[k] == bucket0[k]);
                    }
                } else {
                    assert(before.buckets@[g]@[k] == self.buckets@[g]@[k]);
                }
            }
        }
        id
    }
}

} // verus!
