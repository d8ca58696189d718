//! Paths as text, with `/` between their components.

use crate::text;
use vstd::prelude::*;
use vstd::slice::slice_subrange;

verus! {

/// A path without trailing separators and trailing `.` components. The root
/// comes out empty.
pub open spec fn tidy(p: Seq<char>) -> Seq<char>
    decreases p.len(),
{
    if p.len() > 0 && p.last() == '/' {
        tidy(p.drop_last())
    } else if p.len() > 1 && p.last() == '.' && p[p.len() - 2] == '/' {
        tidy(p.take(p.len() - 2))
    } else {
        p
    }
}

/// Where the last component of a tidy path begins.
pub open spec fn tail_at(p: Seq<char>) -> int
    decreases p.len(),
{
    if p.len() == 0 || p.last() == '/' {
        p.len() as int
    } else {
        tail_at(p.drop_last())
    }
}

/// The last component.
pub open spec fn tail(p: Seq<char>) -> Seq<char> {
    tidy(p).skip(tail_at(tidy(p)))
}

/// The name of the file or directory: the last component, unless that is
/// missing or one of `.` and `..`.
pub open spec fn name_of(p: Seq<char>) -> Option<Seq<char>> {
    if tail(p) == ""@ || tail(p) == "."@ || tail(p) == ".."@ {
        None
    } else {
        Some(tail(p))
    }
}

/// The path without its last component.
pub open spec fn parent_of(p: Seq<char>) -> Option<Seq<char>> {
    let t = tidy(p);
    let rest = tidy(t.take(tail_at(t)));
    if t.len() == 0 {
        None
    } else if rest.len() == 0 && p[0] == '/' {
        Some("/"@)
    } else {
        Some(rest)
    }
}

/// `rel` seen from `base`.
pub open spec fn joined(base: Seq<char>, rel: Seq<char>) -> Seq<char> {
    if rel.len() > 0 && rel[0] == '/' {
        rel
    } else if base.len() == 0 || base.last() == '/' {
        base + rel
    } else {
        base + seq!['/'] + rel
    }
}

pub proof fn lemma_tidy(p: Seq<char>)
    ensures
        tidy(p).len() <= p.len(),
        tidy(p) == p.take(tidy(p).len() as int),
        tidy(p).len() > 0 ==> tidy(p).last() != '/',
        tidy(p).len() < p.len() ==> p[tidy(p).len() as int] == '/',
        forall|i: int| tidy(p).len() <= i < p.len() ==> #[trigger] p[i] == '/' || p[i] == '.',
    decreases p.len(),
{
    if p.len() > 0 && p.last() == '/' {
        let q = p.drop_last();
        lemma_tidy(q);
        assert(tidy(p) =~= p.take(tidy(p).len() as int));
        assert forall|i: int| tidy(p).len() <= i < p.len() implies #[trigger] p[i] == '/' || p[i]
            == '.' by {
            assert(i < q.len() ==> p[i] == q[i]);
        }
    } else if p.len() > 1 && p.last() == '.' && p[p.len() - 2] == '/' {
        let q = p.take(p.len() - 2);
        lemma_tidy(q);
        assert(tidy(p) =~= p.take(tidy(p).len() as int));
        assert forall|i: int| tidy(p).len() <= i < p.len() implies #[trigger] p[i] == '/' || p[i]
            == '.' by {
            assert(i < q.len() ==> p[i] == q[i]);
        }
    } else {
        assert(p =~= p.take(p.len() as int));
    }
}

pub proof fn lemma_tail_at(p: Seq<char>)
    ensures
        0 <= tail_at(p) <= p.len(),
        p.len() > 0 && p.last() != '/' ==> tail_at(p) < p.len(),
        forall|i: int| tail_at(p) <= i < p.len() ==> #[trigger] p[i] != '/',
        tail_at(p) > 0 ==> p[tail_at(p) - 1] == '/',
    decreases p.len(),
{
    if p.len() > 0 && p.last() != '/' {
        lemma_tail_at(p.drop_last());
        assert forall|i: int| tail_at(p) <= i < p.len() implies #[trigger] p[i] != '/' by {
            if i < p.len() - 1 {
                assert(p.drop_last()[i] != '/');
            }
        }
    }
}

fn tidied(p: &[char]) -> (n: usize)
    ensures
        n <= p@.len(),
        p@.take(n as int) == tidy(p@),
{
    let mut n: usize = p.len();
    assert(p@.take(n as int) =~= p@);
    loop
        invariant_except_break
            n <= p@.len(),
            tidy(p@.take(n as int)) == tidy(p@),
        ensures
            n <= p@.len(),
            p@.take(n as int) == tidy(p@),
        decreases n,
    {
        let ghost t = p@.take(n as int);
        if n > 0 && p[n - 1] == '/' {
            assert(t.drop_last() =~= p@.take(n - 1));
            n -= 1;
        } else if n > 1 && p[n - 1] == '.' && p[n - 2] == '/' {
            assert(t.take(n - 2) =~= p@.take(n - 2));
            n -= 2;
        } else {
            break;
        }
    }
    n
}

fn tail_start(p: &[char], n: usize) -> (at: usize)
    requires
        n <= p@.len(),
    ensures
        at <= n,
        at == tail_at(p@.take(n as int)),
{
    let mut at: usize = n;
    while at > 0 && p[at - 1] != '/'
        invariant
            at <= n <= p@.len(),
            tail_at(p@.take(n as int)) == tail_at(p@.take(at as int)),
        decreases at,
    {
        assert(p@.take(at as int).drop_last() =~= p@.take(at - 1));
        at -= 1;
    }
    at
}

/// The name of the file or directory that a path leads to.
pub fn file_name(path: &str) -> (r: Option<String>)
    ensures
        match r {
            Some(s) => name_of(path@) == Some(s@),
            None => name_of(path@) is None,
        },
{
    let p = text::chars_of(path);
    let n: usize = tidied(p.as_slice());
    let at: usize = tail_start(p.as_slice(), n);
    let last: &[char] = slice_subrange(p.as_slice(), at, n);
    assert(last@ =~= tail(p@));
    if text::is(last, "") || text::is(last, ".") || text::is(last, "..") {
        return None;
    }
    Some(text::string_of(last))
}

/// The path without its last component.
pub fn parent(path: &str) -> (r: Option<String>)
    ensures
        match r {
            Some(s) => parent_of(path@) == Some(s@),
            None => parent_of(path@) is None,
        },
{
    let p = text::chars_of(path);
    let n: usize = tidied(p.as_slice());
    if n == 0 {
        return None;
    }
    proof {
        lemma_tidy(p@);
    }
    let at: usize = tail_start(p.as_slice(), n);
    let head: &[char] = slice_subrange(p.as_slice(), 0, at);
    assert(head@ =~= p@.take(n as int).take(at as int));
    let m: usize = tidied(head);
    if m == 0 && p[0] == '/' {
        let mut root: Vec<char> = Vec::new();
        text::append_str(&mut root, "/");
        return Some(text::string_of(root.as_slice()));
    }
    let rest: &[char] = slice_subrange(head, 0, m);
    assert(rest@ =~= head@.take(m as int));
    Some(text::string_of(rest))
}

/// `rel` seen from `base`.
pub fn join(base: &str, rel: &str) -> (r: String)
    ensures
        r@ == joined(base@, rel@),
{
    let b = text::chars_of(base);
    let q = text::chars_of(rel);
    if q.len() > 0 && q[0] == '/' {
        return text::string_of(q.as_slice());
    }
    let mut out = text::to_vec(b.as_slice());
    if b.len() > 0 && b[b.len() - 1] != '/' {
        out.push('/');
    }
    text::append(&mut out, q.as_slice());
    assert(out@ =~= joined(base@, rel@));
    text::string_of(out.as_slice())
}

/// A directory beside `dir`, named like it with `suffix` behind.
pub open spec fn sibling_of(dir: Seq<char>, suffix: Seq<char>) -> Seq<char> {
    let name = (match name_of(dir) {
        Some(n) => n,
        None => Seq::empty(),
    }) + suffix;
    match parent_of(dir) {
        Some(p) => joined(p, name),
        None => name,
    }
}

pub fn sibling(dir: &str, suffix: &str) -> (r: String)
    ensures
        r@ == sibling_of(dir@, suffix@),
{
    let mut name: Vec<char> = Vec::new();
    if let Some(n) = file_name(dir) {
        text::append_str(&mut name, n.as_str());
    }
    text::append_str(&mut name, suffix);
    let name = text::string_of(name.as_slice());
    proof {
        let head = match name_of(dir@) {
            Some(n) => n,
            None => Seq::<char>::empty(),
        };
        assert(name@ =~= head + suffix@);
    }
    match parent(dir) {
        Some(p) => join(p.as_str(), name.as_str()),
        None => name,
    }
}

/// `path` is `dir` or lies below it.
pub open spec fn within(path: Seq<char>, dir: Seq<char>) -> bool {
    ||| path == dir
    ||| text::begins(path, dir + seq!['/'])
    ||| dir.len() > 0 && dir.last() == '/' && text::begins(path, dir)
}

/// A name without separators.
pub open spec fn plain(name: Seq<char>) -> bool {
    name.len() > 0 && forall|i: int| 0 <= i < name.len() ==> #[trigger] name[i] != '/'
}

/// A name of a path has no separators in it.
pub proof fn lemma_name_plain(p: Seq<char>)
    ensures
        name_of(p) matches Some(n) ==> plain(n),
{
    reveal_strlit("");
    let t = tidy(p);
    lemma_tail_at(t);
    assert(tail(p).len() == 0 ==> tail(p) =~= ""@);
    assert forall|i: int| 0 <= i < tail(p).len() implies #[trigger] tail(p)[i] != '/' by {
        assert(t[tail_at(t) + i] != '/');
    }
}

/// `base` with a separator behind it, where it needs one.
pub open spec fn opened(base: Seq<char>) -> Seq<char> {
    if base.len() == 0 || base.last() == '/' {
        base
    } else {
        base + seq!['/']
    }
}

/// An entry of a directory that is not below `root` is not below `root`
/// either, unless it is `root` itself.
pub proof fn law_entries_stay_outside(dir: Seq<char>, name: Seq<char>, root: Seq<char>)
    requires
        plain(name),
        root.len() > 1 ==> root.last() != '/',
        within(joined(dir, name), root),
    ensures
        within(dir, root) || joined(dir, name) == root,
{
    let path = joined(dir, name);
    let sep = opened(dir);
    assert(name[0] != '/');
    assert(path =~= sep + name);
    if path != root {
        let below = root + seq!['/'];
        let prefix = if text::begins(path, below) {
            below
        } else {
            root
        };
        let n = prefix.len() as int;
        assert(prefix[n - 1] == '/');
        assert(path.take(n) == prefix);
        assert(path.take(n)[n - 1] == path[n - 1]);
        if n - 1 >= sep.len() {
            assert(path[n - 1] == name[n - 1 - sep.len()]);
            assert(false);
        }
        assert(sep.take(n) =~= prefix) by {
            assert forall|i: int| 0 <= i < n implies sep.take(n)[i] == prefix[i] by {
                assert(path.take(n)[i] == prefix[i]);
            }
        }
        if n <= dir.len() {
            assert(dir.take(n) =~= sep.take(n));
        } else {
            assert(sep.take(n) =~= sep);
            assert(prefix == below) by {
                if prefix == root {
                    assert(dir.len() == 0);
                }
            }
            assert(dir =~= below.drop_last());
            assert(root =~= below.drop_last());
        }
    }
}

/// The name of an entry is its name.
pub proof fn lemma_entry_name(dir: Seq<char>, name: Seq<char>)
    requires
        plain(name),
        name.last() != '.',
    ensures
        name_of(joined(dir, name)) == Some(name),
{
    let path = joined(dir, name);
    let sep = opened(dir);
    reveal_strlit("");
    reveal_strlit(".");
    reveal_strlit("..");
    assert(name[0] != '/');
    assert(path =~= sep + name);
    assert(path.last() == name.last());
    assert(tidy(path) == path);
    lemma_tail_at(path);
    let k = tail_at(path);
    let n = sep.len() as int;
    if k > n {
        assert(path[k - 1] == name[k - 1 - n]);
    }
    if k < n {
        assert(path[n - 1] == sep[n - 1]);
    }
    assert(tail(path) =~= name);
}

/// The parts of an entry's path: its name is the last part, and its parent is
/// the directory that it lies in.
pub proof fn law_path_of_an_entry(dir: Seq<char>, name: Seq<char>)
    requires
        dir.len() > 0,
        tidy(dir) == dir,
        plain(name),
        name != "."@,
        name != ".."@,
    ensures
        joined(dir, name) == dir + seq!['/'] + name,
        name_of(dir + seq!['/'] + name) == Some(name),
        parent_of(dir + seq!['/'] + name) == Some(dir),
{
    reveal_strlit("");
    reveal_strlit(".");
    reveal_strlit("..");
    let base = dir + seq!['/'];
    let p = base + name;
    assert(dir.last() != '/') by {
        if dir.last() == '/' {
            lemma_tidy(dir.drop_last());
        }
    }
    assert(p.last() == name.last());
    assert(name.len() == 1 ==> name[0] != '.') by {
        if name.len() == 1 && name[0] == '.' {
            assert(name =~= "."@);
        }
    }
    assert(tidy(p) == p);
    lemma_tail_of(base, name);
    assert(p.skip(base.len() as int) =~= name);
    assert(p.take(base.len() as int) =~= base);
    assert(base.drop_last() =~= dir);
    assert(tidy(base) == tidy(dir));
}

/// The last part of a path begins behind its last separator.
proof fn lemma_tail_of(base: Seq<char>, name: Seq<char>)
    requires
        base.len() > 0,
        base.last() == '/',
        forall|i: int| 0 <= i < name.len() ==> #[trigger] name[i] != '/',
    ensures
        tail_at(base + name) == base.len(),
    decreases name.len(),
{
    if name.len() > 0 {
        assert((base + name).last() == name.last());
        assert((base + name).drop_last() =~= base + name.drop_last());
        lemma_tail_of(base, name.drop_last());
    } else {
        assert(base + name =~= base);
    }
}

} // verus!
