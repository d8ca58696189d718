//! Finding texts in a list: where one occurs for the last time.

use crate::hash;
use crate::interner;
use crate::text;
use std::collections::HashMap;
use vstd::prelude::*;

verus! {

/// The last position below `n` at which `t` stands.
pub open spec fn last_of(names: Seq<Seq<char>>, t: Seq<char>, n: int) -> Option<int>
    decreases n,
{
    if n <= 0 {
        None
    } else if names[n - 1] == t {
        Some(n - 1)
    } else {
        last_of(names, t, n - 1)
    }
}

/// The last position of `t` in the whole list.
pub open spec fn last_in(names: Seq<Seq<char>>, t: Seq<char>) -> Option<int> {
    last_of(names, t, names.len() as int)
}

/// A list has a last position of `t` iff it contains `t`.
pub proof fn lemma_last_in(names: Seq<Seq<char>>, t: Seq<char>, n: int)
    requires
        0 <= n <= names.len(),
    ensures
        last_of(names, t, n) is None ==> forall|j: int|
            0 <= j < n ==> #[trigger] names[j] != t,
        last_of(names, t, n) matches Some(i) ==> 0 <= i < n && names[i] == t && forall|j: int|
            i < j < n ==> #[trigger] names[j] != t,
    decreases n,
{
    if n > 0 && names[n - 1] != t {
        lemma_last_in(names, t, n - 1);
    }
}

/// Texts with their positions filed by hash.
pub struct Lookup {
    names: Vec<String>,
    buckets: HashMap<u64, Vec<usize>>,
}

/// The position `i` is filed under the hash `h`.
pub open spec fn filed(buckets: Map<u64, Vec<usize>>, h: u64, i: usize) -> bool {
    buckets.contains_key(h) && buckets[h]@.contains(i)
}

impl View for Lookup {
    type V = Seq<Seq<char>>;

    closed spec fn view(&self) -> Seq<Seq<char>> {
        interner::name_views(self.names@)
    }
}

impl Lookup {
    /// The first `n` positions are filed, and no others.
    closed spec fn files(&self, n: int) -> bool {
        &&& forall|i: int|
            0 <= i < n ==> filed(
                self.buckets@,
                interner::term_hash((#[trigger] self.names@[i])@),
                i as usize,
            )
        &&& forall|h: u64, k: int|
            #![trigger self.buckets@[h]@[k]]
            self.buckets@.contains_key(h) && 0 <= k < self.buckets@[h]@.len()
                ==> self.buckets@[h]@[k] < n
    }

    pub closed spec fn wf(&self) -> bool {
        self.files(self.names@.len() as int)
    }

    /// File the positions of `names`.
    pub fn new(names: Vec<String>) -> (l: Lookup)
        ensures
            l.wf(),
            l@ == interner::name_views(names@),
    {
        broadcast use vstd::std_specs::hash::group_hash_axioms;

        let n: usize = names.len();
        let mut l = Lookup { names, buckets: HashMap::new() };
        let mut i: usize = 0;
        while i < n
            invariant
                i <= n,
                n == names@.len(),
                l.names@ == names@,
                l.files(i as int),
            decreases n - i,
        {
            broadcast use vstd::std_specs::hash::group_hash_axioms;

            let ghost before = l;
            let h: u64 = hash::fnv1a(l.names[i].as_str().as_bytes());
            let mut bucket: Vec<usize> = match l.buckets.remove(&h) {
                Some(b) => b,
                None => Vec::new(),
            };
            let ghost bucket0 = bucket@;
            bucket.push(i);
            l.buckets.insert(h, bucket);
            proof {
                assert forall|x: int| 0 <= x <= i implies filed(
                    l.buckets@,
                    interner::term_hash((#[trigger] l.names@[x])@),
                    x as usize,
                ) by {
                    if x < i {
                        let g = interner::term_hash(before.names@[x]@);
                        assert(filed(before.buckets@, g, x as usize));
                        if g == h {
                            let k = choose|k: int|
                                0 <= k < bucket0.len() && bucket0[k] == x as usize;
                            assert(l.buckets@[h]@[k] == x as usize);
                        }
                    } else {
                        assert(l.buckets@[h]@[bucket0.len() as int] == i);
                    }
                }
                assert forall|g: u64, k: int|
                    #![trigger l.buckets@[g]@[k]]
                    l.buckets@.contains_key(g) && 0 <= k
                        < l.buckets@[g]@.len() implies l.buckets@[g]@[k] < i + 1 by {
                    if g == h {
                        if k < bucket0.len() {
                            assert(before.buckets@.contains_key(h));
                            assert(before.buckets@[h]@[k] == bucket0[k]);
                        }
                    } else {
                        assert(before.buckets@[g]@[k] == l.buckets@[g]@[k]);
                    }
                }
            }
            i += 1;
        }
        l
    }

    /// Where `name` stands for the last time.
    pub fn find(&self, name: &str) -> (r: Option<usize>)
        requires
            self.wf(),
        ensures
            match r {
                Some(i) => last_in(self@, name@) == Some(i as int) && i < self@.len(),
                None => last_in(self@, name@) is None,
            },
    {
        broadcast use vstd::std_specs::hash::group_hash_axioms;

        let n: usize = self.names.len();
        let h: u64 = hash::fnv1a(name.as_bytes());
        let mut best: Option<usize> = None;
        if let Some(bucket) = self.buckets.get(&h) {
            let chars = text::chars_of(name);
            let wanted = text::string_of(chars.as_slice());
            let mut k: usize = 0;
            while k < bucket.len()
                invariant
                    self.wf(),
                    self.buckets@.contains_key(h),
                    *bucket == self.buckets@[h],
                    wanted@ == name@,
                    k <= bucket@.len(),
                    best matches Some(i) ==> i < self@.len() && self@[i as int] == name@,
                    forall|j: int|
                        0 <= j < k && self@[#[trigger] bucket@[j] as int] == name@ ==> best
                            is Some && bucket@[j] <= best->Some_0,
                decreases bucket@.len() - k,
            {
                let i: usize = bucket[k];
                assert(self.buckets@[h]@[k as int] == i);
                assert(self@[i as int] == self.names@[i as int]@);
                if self.names[i] == wanted {
                    let later: bool = match best {
                        Some(b) => b < i,
                        None => true,
                    };
                    if later {
                        best = Some(i);
                    }
                }
                k += 1;
            }
        }
        proof {
            lemma_last_in(self@, name@, n as int);
            if let Some(i) = last_in(self@, name@) {
                assert(filed(
                    self.buckets@,
                    interner::term_hash(self.names@[i]@),
                    i as usize,
                ));
                let b = self.buckets@[h]@;
                let j = choose|j: int| 0 <= j < b.len() && b[j] == i as usize;
                assert(self@[b[j] as int] == name@);
            }
        }
        best
    }

    /// Does `name` stand in the list?
    pub fn contains(&self, name: &str) -> (r: bool)
        requires
            self.wf(),
        ensures
            r == self@.contains(name@),
    {
        let found = self.find(name);
        proof {
            lemma_last_in(self@, name@, self@.len() as int);
        }
        found.is_some()
    }
}

/// The place of a name is the last one at which it stands; a name that stands
/// nowhere has none.
pub proof fn law_last_place(names: Seq<Seq<char>>, t: Seq<char>)
    ensures
        last_in(names, t) is Some <==> names.contains(t),
        last_in(names, t) matches Some(i) ==> 0 <= i < names.len() && names[i] == t && forall|j: int|
            i < j < names.len() ==> #[trigger] names[j] != t,
{
    lemma_last_place(names, t, names.len() as int);
    if names.contains(t) {
        let i = choose|i: int| 0 <= i < names.len() && names[i] == t;
        assert(names[i] == t);
    }
}

proof fn lemma_last_place(names: Seq<Seq<char>>, t: Seq<char>, n: int)
    requires
        0 <= n <= names.len(),
    ensures
        last_of(names, t, n) is None ==> forall|j: int| 0 <= j < n ==> #[trigger] names[j] != t,
        last_of(names, t, n) matches Some(i) ==> 0 <= i < n && names[i] == t && forall|j: int|
            i < j < n ==> #[trigger] names[j] != t,
    decreases n,
{
    if n > 0 && names[n - 1] != t {
        lemma_last_place(names, t, n - 1);
    }
}

} // verus!
