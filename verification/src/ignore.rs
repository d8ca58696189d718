//! Ignore rules: glob patterns and the layered rule files of a source tree.

use crate::text;
use vstd::prelude::*;
use vstd::slice::slice_subrange;
use vstd::utf8::encode_utf8;

verus! {

/// `p` without the stars it begins with.
pub open spec fn after_stars(p: Seq<u8>) -> Seq<u8>
    decreases p.len(),
{
    if p.len() > 0 && p[0] == 42 {
        after_stars(p.drop_first())
    } else {
        p
    }
}

pub proof fn lemma_after_stars_shorter(p: Seq<u8>)
    ensures
        after_stars(p).len() <= p.len(),
        p.len() > 0 && p[0] == 42 ==> after_stars(p).len() < p.len(),
    decreases p.len(),
{
    if p.len() > 0 && p[0] == 42 {
        lemma_after_stars_shorter(p.drop_first());
    }
}

/// No path separator among the first `n` bytes.
pub open spec fn one_segment(t: Seq<u8>, n: int) -> bool {
    forall|k: int| 0 <= k < n ==> #[trigger] t[k] != 47
}

/// Does the pattern `p` match all of `t`? `*` stands for any run of bytes
/// without a `/`, `?` for one byte other than `/`, two or more stars for any
/// run of bytes, and `**/` also for nothing at all.
pub open spec fn matches_glob(p: Seq<u8>, t: Seq<u8>) -> bool
    decreases p.len(),
{
    proof {
        lemma_after_stars_shorter(p);
    }
    if p.len() == 0 {
        t.len() == 0
    } else if p[0] == 42 {
        let rest = after_stars(p);
        if p.len() > 1 && p[1] == 42 {
            ||| rest.len() > 0 && rest[0] == 47 && matches_glob(
                rest.skip(1),
                t,
            )
            ||| exists|i: int|
                0 <= i <= t.len() && matches_glob(
                    rest,
                    #[trigger] t.skip(i),
                )
        } else {
            exists|i: int|
                0 <= i <= t.len() && one_segment(t, i) && matches_glob(
                    rest,
                    #[trigger] t.skip(i),
                )
        }
    } else {
        t.len() > 0 && (p[0] == t[0] || (p[0] == 63 && t[0] != 47)) && matches_glob(
            p.skip(1),
            t.skip(1),
        )
    }
}

fn glob_inner(p: &[u8], t: &[u8]) -> (r: bool)
    ensures
        r == matches_glob(p@, t@),
    decreases p@.len(),
{
    if p.len() == 0 {
        return t.len() == 0;
    }
    let n: usize = p.len();
    let m: usize = t.len();
    if p[0] == 42 {
        let double: bool = n > 1 && p[1] == 42;
        let mut s: usize = 0;
        assert(p@.skip(0) =~= p@);
        while s < n && p[s] == 42
            invariant
                n == p@.len(),
                s <= n,
                after_stars(p@) == after_stars(p@.skip(s as int)),
            decreases n - s,
        {
            assert(p@.skip(s as int).drop_first() =~= p@.skip(s + 1));
            s += 1;
        }
        let rest: &[u8] = slice_subrange(p, s, n);
        proof {
            lemma_after_stars_shorter(p@);
            assert(rest@ =~= p@.skip(s as int));
            assert(rest@ == after_stars(p@));
        }
        if double {
            if rest.len() > 0 && rest[0] == 47 {
                let tail: &[u8] = slice_subrange(rest, 1, rest.len());
                assert(tail@ =~= rest@.skip(1));
                if glob_inner(tail, t) {
                    return true;
                }
            }
            let mut i: usize = 0;
            loop
                invariant
                    p@.len() > 1 && p@[0] == 42 && p@[1] == 42,
                    rest@ == after_stars(p@),
                    rest@.len() < p@.len(),
                    m == t@.len(),
                    i <= m,
                    !(rest@.len() > 0 && rest@[0] == 47 && matches_glob(rest@.skip(1), t@)),
                    forall|k: int| 0 <= k < i ==> !matches_glob(rest@, #[trigger] t@.skip(k)),
                decreases m - i,
            {
                let suffix: &[u8] = slice_subrange(t, i, m);
                assert(suffix@ =~= t@.skip(i as int));
                if glob_inner(rest, suffix) {
                    return true;
                }
                if i == m {
                    return false;
                }
                i += 1;
            }
        }
        let mut i: usize = 0;
        loop
            invariant
                p@.len() > 0 && p@[0] == 42 && !(p@.len() > 1 && p@[1] == 42),
                rest@ == after_stars(p@),
                rest@.len() < p@.len(),
                m == t@.len(),
                i <= m,
                one_segment(t@, i as int),
                forall|k: int| 0 <= k < i ==> !matches_glob(rest@, #[trigger] t@.skip(k)),
            decreases m - i,
        {
            let suffix: &[u8] = slice_subrange(t, i, m);
            assert(suffix@ =~= t@.skip(i as int));
            if glob_inner(rest, suffix) {
                return true;
            }
            if i == m || t[i] == 47 {
                assert forall|k: int|
                    0 <= k <= t@.len() && one_segment(t@, k) implies !matches_glob(
                    rest@,
                    #[trigger] t@.skip(k),
                ) by {
                    if k > i {
                        assert(t@[i as int] != 47);
                    }
                }
                return false;
            }
            i += 1;
        }
    }
    if m == 0 {
        return false;
    }
    if p[0] == t[0] || (p[0] == 63 && t[0] != 47) {
        let ps: &[u8] = slice_subrange(p, 1, n);
        let ts: &[u8] = slice_subrange(t, 1, m);
        assert(ps@ =~= p@.skip(1));
        assert(ts@ =~= t@.skip(1));
        return glob_inner(ps, ts);
    }
    false
}

/// Match a whole path or path segment against a pattern, byte by byte.
pub fn glob_match(pattern: &str, text: &str) -> (r: bool)
    ensures
        r == matches_glob(encode_utf8(pattern@), encode_utf8(text@)),
{
    glob_inner(pattern.as_bytes(), text.as_bytes())
}

/// A pattern without wildcards.
pub open spec fn literal(p: Seq<u8>) -> bool {
    forall|i: int| 0 <= i < p.len() ==> #[trigger] p[i] != 42 && p[i] != 63
}

/// A pattern without wildcards matches itself and nothing else.
pub proof fn law_literal_matches_itself(p: Seq<u8>, t: Seq<u8>)
    requires
        literal(p),
    ensures
        matches_glob(p, t) <==> p == t,
    decreases p.len(),
{
    if p.len() == 0 {
        assert(p == t <==> t.len() == 0) by {
            if t.len() == 0 {
                assert(p =~= t);
            }
        }
    } else {
        assert(p[0] != 42 && p[0] != 63);
        if t.len() > 0 {
            assert forall|i: int| 0 <= i < p.skip(1).len() implies #[trigger] p.skip(1)[i] != 42
                && p.skip(1)[i] != 63 by {
                assert(p.skip(1)[i] == p[i + 1]);
            }
            law_literal_matches_itself(p.skip(1), t.skip(1));
            if p[0] == t[0] && p.skip(1) == t.skip(1) {
                assert(p =~= t) by {
                    assert forall|i: int| 0 <= i < p.len() implies p[i] == t[i] by {
                        if i > 0 {
                            assert(p[i] == p.skip(1)[i - 1]);
                            assert(t[i] == t.skip(1)[i - 1]);
                        }
                    }
                    assert(p.skip(1).len() == t.skip(1).len());
                }
            }
        }
    }
}

/// A single star matches exactly the texts without a path separator.
pub proof fn law_star_stays_in_segment(t: Seq<u8>)
    ensures
        matches_glob(seq![42u8], t) <==> one_segment(t, t.len() as int),
{
    let p = seq![42u8];
    assert(p.drop_first() =~= Seq::<u8>::empty());
    assert(after_stars(p) =~= Seq::<u8>::empty()) by {
        reveal_with_fuel(after_stars, 2);
    }
    let rest = after_stars(p);
    if one_segment(t, t.len() as int) {
        assert(t.skip(t.len() as int).len() == 0);
        assert(matches_glob(rest, t.skip(t.len() as int)));
    }
    if matches_glob(p, t) {
        let i = choose|i: int|
            0 <= i <= t.len() && one_segment(t, i) && matches_glob(
                rest,
                #[trigger] t.skip(i),
            );
        assert(t.skip(i).len() == 0);
    }
}

/// A double star matches every text.
pub proof fn law_double_star_matches_all(t: Seq<u8>)
    ensures
        matches_glob(seq![42u8, 42u8], t),
{
    let p = seq![42u8, 42u8];
    assert(p.drop_first().drop_first() =~= Seq::<u8>::empty());
    assert(after_stars(p) =~= Seq::<u8>::empty()) by {
        reveal_with_fuel(after_stars, 3);
    }
    let rest = after_stars(p);
    assert(t.skip(t.len() as int).len() == 0);
    assert(matches_glob(rest, t.skip(t.len() as int)));
}

/// A text that begins with no star.
pub open spec fn no_star(p: Seq<u8>) -> bool {
    p.len() == 0 || p[0] != 42
}

proof fn lemma_after_stars(n: nat, b: Seq<u8>)
    requires
        no_star(b),
    ensures
        after_stars(Seq::new(n, |i: int| 42u8) + b) == b,
    decreases n,
{
    let p = Seq::new(n, |i: int| 42u8) + b;
    if n == 0 {
        assert(p =~= b);
    } else {
        lemma_after_stars((n - 1) as nat, b);
        assert(p.drop_first() =~= Seq::new((n - 1) as nat, |i: int| 42u8) + b);
    }
}

/// Bytes without wildcards stand for themselves: `a` followed by any pattern
/// matches what begins with `a` and goes on with what the pattern matches.
pub proof fn law_literal_prefix(a: Seq<u8>, b: Seq<u8>, t: Seq<u8>)
    requires
        literal(a),
    ensures
        matches_glob(a + b, t) <==> a.len() <= t.len() && t.take(a.len() as int) == a
            && matches_glob(b, t.skip(a.len() as int)),
    decreases a.len(),
{
    let p = a + b;
    let n = a.len() as int;
    if n == 0 {
        assert(p =~= b);
        assert(t.skip(0) =~= t);
        assert(t.take(0) =~= a);
    } else {
        assert(a[0] != 42 && a[0] != 63);
        assert(p[0] == a[0]);
        let c = a.skip(1);
        assert forall|i: int| 0 <= i < c.len() implies #[trigger] c[i] != 42 && c[i] != 63 by {
            assert(c[i] == a[i + 1]);
        }
        assert(p.skip(1) =~= c + b);
        if t.len() > 0 {
            let u = t.skip(1);
            law_literal_prefix(c, b, u);
            if a.len() <= t.len() {
                assert(u.skip(n - 1) =~= t.skip(n));
                if t.take(n) == a {
                    assert(t[0] == t.take(n)[0]);
                    assert(u.take(n - 1) =~= c) by {
                        assert forall|i: int| 0 <= i < n - 1 implies u[i] == c[i] by {
                            assert(t.take(n)[i + 1] == a[i + 1]);
                        }
                    }
                }
                if t[0] == a[0] && u.take(n - 1) == c {
                    assert(t.take(n) =~= a) by {
                        assert forall|i: int| 0 <= i < n implies t[i] == a[i] by {
                            if i > 0 {
                                assert(u.take(n - 1)[i - 1] == c[i - 1]);
                            }
                        }
                    }
                }
            }
        }
    }
}

/// `?` stands for one byte that is no path separator.
pub proof fn law_question_mark(b: Seq<u8>, t: Seq<u8>)
    ensures
        matches_glob(seq![63u8] + b, t) <==> t.len() > 0 && t[0] != 47 && matches_glob(
            b,
            t.skip(1),
        ),
{
    let p = seq![63u8] + b;
    assert(p.skip(1) =~= b);
    assert(p[0] == 63);
}

/// `*` stands for any run of bytes without a path separator.
pub proof fn law_star(b: Seq<u8>, t: Seq<u8>)
    requires
        no_star(b),
    ensures
        matches_glob(seq![42u8] + b, t) <==> exists|x: Seq<u8>, y: Seq<u8>|
            #![trigger x + y]
            t == x + y && !x.contains(47u8) && matches_glob(b, y),
{
    let p = seq![42u8] + b;
    assert(Seq::new(1, |i: int| 42u8) + b =~= p);
    lemma_after_stars(1, b);
    assert(p[0] == 42);
    assert(p.len() > 1 ==> p[1] == b[0]);
    if matches_glob(p, t) {
        let i = choose|i: int|
            0 <= i <= t.len() && one_segment(t, i) && matches_glob(b, #[trigger] t.skip(i));
        assert(t =~= t.take(i) + t.skip(i));
        assert(!t.take(i).contains(47u8)) by {
            if t.take(i).contains(47u8) {
                let k = choose|k: int| 0 <= k < i && t.take(i)[k] == 47u8;
                assert(t[k] == 47);
            }
        }
    }
    if exists|x: Seq<u8>, y: Seq<u8>|
        #![trigger x + y]
        t == x + y && !x.contains(47u8) && matches_glob(b, y) {
        let (x, y) = choose|x: Seq<u8>, y: Seq<u8>|
            #![trigger x + y]
            t == x + y && !x.contains(47u8) && matches_glob(b, y);
        let i = x.len() as int;
        assert(t.skip(i) =~= y);
        assert forall|k: int| 0 <= k < i implies #[trigger] t[k] != 47 by {
            assert(t[k] == x[k]);
            assert(x.contains(x[k]));
        }
        assert(matches_glob(b, t.skip(i)));
    }
}

/// Two or more stars stand for any run of bytes; where a path separator
/// follows them, they may stand for nothing together with it.
pub proof fn law_stars(n: nat, b: Seq<u8>, t: Seq<u8>)
    requires
        n >= 2,
        no_star(b),
    ensures
        matches_glob(Seq::new(n, |i: int| 42u8) + b, t) <==> {
            ||| exists|x: Seq<u8>, y: Seq<u8>| #![trigger x + y] t == x + y && matches_glob(b, y)
            ||| b.len() > 0 && b[0] == 47 && matches_glob(b.skip(1), t)
        },
{
    let p = Seq::new(n, |i: int| 42u8) + b;
    lemma_after_stars(n, b);
    assert(p[0] == 42 && p[1] == 42);
    if exists|i: int| 0 <= i <= t.len() && matches_glob(b, #[trigger] t.skip(i)) {
        let i = choose|i: int| 0 <= i <= t.len() && matches_glob(b, #[trigger] t.skip(i));
        assert(t =~= t.take(i) + t.skip(i));
    }
    if exists|x: Seq<u8>, y: Seq<u8>| #![trigger x + y] t == x + y && matches_glob(b, y) {
        let (x, y) = choose|x: Seq<u8>, y: Seq<u8>|
            #![trigger x + y]
            t == x + y && matches_glob(b, y);
        assert(t.skip(x.len() as int) =~= y);
        assert(matches_glob(b, t.skip(x.len() as int)));
    }
}

/// `**/` may match no directory at all: with it, a pattern matches whatever
/// it matches without it.
pub proof fn law_no_directory(a: Seq<u8>, b: Seq<u8>, t: Seq<u8>)
    requires
        literal(a),
        matches_glob(a + b, t),
    ensures
        matches_glob(a + seq![42u8, 42u8, 47u8] + b, t),
{
    let rest = seq![47u8] + b;
    let stars = Seq::new(2, |i: int| 42u8);
    let u = t.skip(a.len() as int);
    law_literal_prefix(a, b, t);
    law_stars(2, rest, u);
    assert(rest.skip(1) =~= b);
    law_literal_prefix(a, stars + rest, t);
    assert(a + (stars + rest) =~= a + seq![42u8, 42u8, 47u8] + b);
}

/// `a/**/b` matches the paths that begin with `a/` and end with `b`, with any
/// directories in between: `t` is `a/`, then nothing or what ends with `/`,
/// then `b`.
pub proof fn law_directories_between(a: Seq<u8>, b: Seq<u8>, t: Seq<u8>)
    requires
        literal(a),
        literal(b),
    ensures
        matches_glob(a + seq![47u8, 42u8, 42u8, 47u8] + b, t) <==> exists|dirs: Seq<u8>|
            t == a + seq![47u8] + #[trigger] (dirs + b) && (dirs.len() == 0 || dirs.last() == 47),
{
    let head = a + seq![47u8];
    let rest = seq![47u8] + b;
    let stars = Seq::new(2, |i: int| 42u8);
    let p = a + seq![47u8, 42u8, 42u8, 47u8] + b;
    assert(head + (stars + rest) =~= p);
    assert forall|i: int| 0 <= i < head.len() implies #[trigger] head[i] != 42 && head[i] != 63 by {
        if i < a.len() {
            assert(a[i] != 42 && a[i] != 63);
        }
    }
    assert forall|i: int| 0 <= i < rest.len() implies #[trigger] rest[i] != 42 && rest[i] != 63 by {
        if i > 0 {
            assert(b[i - 1] != 42 && b[i - 1] != 63);
        }
    }
    let n = head.len() as int;
    let u = t.skip(n);
    law_literal_prefix(head, stars + rest, t);
    law_stars(2, rest, u);
    assert(rest.skip(1) =~= b);
    law_literal_matches_itself(b, u);
    if matches_glob(p, t) {
        assert(t =~= head + u) by {
            assert(t =~= t.take(n) + t.skip(n));
        }
        if exists|x: Seq<u8>, y: Seq<u8>| #![trigger x + y] u == x + y && matches_glob(rest, y) {
            let (x, y) = choose|x: Seq<u8>, y: Seq<u8>|
                #![trigger x + y]
                u == x + y && matches_glob(rest, y);
            law_literal_matches_itself(rest, y);
            let dirs = x.push(47u8);
            assert(u =~= dirs + b);
            assert(t =~= a + seq![47u8] + (dirs + b));
        } else {
            let dirs = Seq::<u8>::empty();
            assert(dirs + b =~= u);
            assert(t =~= a + seq![47u8] + (dirs + b));
        }
    }
    if exists|dirs: Seq<u8>|
        t == a + seq![47u8] + #[trigger] (dirs + b) && (dirs.len() == 0 || dirs.last() == 47) {
        let dirs = choose|dirs: Seq<u8>|
            t == a + seq![47u8] + #[trigger] (dirs + b) && (dirs.len() == 0 || dirs.last() == 47);
        assert(t.take(n) =~= head);
        assert(u =~= dirs + b);
        if dirs.len() == 0 {
            assert(u =~= b);
        } else {
            let x = dirs.drop_last();
            assert(u =~= x + rest);
            law_literal_matches_itself(rest, rest);
        }
    }
}

/// One pattern line of an ignore file.
pub struct IgnoreRule {
    /// The pattern without a leading `!` and without slashes around it.
    pub pattern: String,
    pub negated: bool,
    pub dir_only: bool,
    /// The line has a `/` that is not at its end, so the pattern is matched
    /// against the path below the ignore file rather than against single
    /// segments.
    pub anchored: bool,
}

/// What a rule says, as a value.
pub struct RuleModel {
    pub pattern: Seq<char>,
    pub negated: bool,
    pub dir_only: bool,
    pub anchored: bool,
}

impl View for IgnoreRule {
    type V = RuleModel;

    open spec fn view(&self) -> RuleModel {
        RuleModel {
            pattern: self.pattern@,
            negated: self.negated,
            dir_only: self.dir_only,
            anchored: self.anchored,
        }
    }
}

/// The rule on one line, if the line holds one.
pub open spec fn rule_of(raw: Seq<char>) -> Option<RuleModel> {
    let line = text::trimmed_end(raw);
    if line.len() == 0 || line[0] == '#' {
        None
    } else {
        let negated = line[0] == '!';
        let rest = if negated {
            line.drop_first()
        } else {
            line
        };
        let body = text::cut_while(rest, text::just('/'));
        let pattern = text::skip_while(body, text::just('/'));
        if pattern.len() == 0 {
            None
        } else {
            Some(
                RuleModel {
                    pattern,
                    negated,
                    dir_only: rest.len() > 0 && rest.last() == '/',
                    anchored: body.contains('/'),
                },
            )
        }
    }
}

/// The rules on `lines`, in order.
pub open spec fn rules_of(lines: Seq<Seq<char>>) -> Seq<RuleModel>
    decreases lines.len(),
{
    if lines.len() == 0 {
        Seq::empty()
    } else {
        match rule_of(lines.last()) {
            Some(r) => rules_of(lines.drop_last()).push(r),
            None => rules_of(lines.drop_last()),
        }
    }
}

pub open spec fn rule_views(rules: Seq<IgnoreRule>) -> Seq<RuleModel> {
    Seq::new(rules.len(), |i: int| rules[i]@)
}

fn parse_rule(raw: &[char]) -> (r: Option<IgnoreRule>)
    ensures
        r is Some <==> rule_of(raw@) is Some,
        r matches Some(rule) ==> rule_of(raw@) == Some(rule@),
{
    let line: &[char] = text::trim_end(raw);
    if line.len() == 0 || line[0] == '#' {
        return None;
    }
    let negated: bool = line[0] == '!';
    let rest: &[char] = if negated { slice_subrange(line, 1, line.len()) } else { line };
    proof {
        if negated {
            assert(rest@ =~= line@.drop_first());
        }
    }
    let k: usize = rest.len();
    let dir_only: bool = k > 0 && rest[k - 1] == '/';
    let body: &[char] = text::trim_end_char(rest, '/');
    let pattern: &[char] = text::trim_start_char(body, '/');
    if pattern.len() == 0 {
        return None;
    }
    let anchored: bool = text::has(body, '/');
    Some(IgnoreRule { pattern: text::string_of(pattern), negated, dir_only, anchored })
}

/// The part of `rel` below the directory `prefix`; the root directory is the
/// empty prefix.
pub open spec fn below(rel: Seq<char>, prefix: Seq<char>) -> Option<Seq<char>> {
    if prefix.len() == 0 {
        Some(rel)
    } else if text::begins(rel, prefix) && rel.len() > prefix.len() && rel[prefix.len() as int]
        == '/' {
        Some(rel.skip(prefix.len() as int + 1))
    } else {
        None
    }
}

fn strip_prefix_path<'a>(rel: &'a [char], prefix: &str) -> (r: Option<&'a [char]>)
    ensures
        r is Some <==> below(rel@, prefix@) is Some,
        r matches Some(s) ==> below(rel@, prefix@) == Some(s@),
{
    let p = text::chars_of(prefix);
    if p.len() == 0 {
        return Some(rel);
    }
    let n: usize = p.len();
    if text::starts_with(rel, prefix) && rel.len() > n && rel[n] == '/' {
        let s: &[char] = slice_subrange(rel, n + 1, rel.len());
        assert(s@ =~= rel@.skip(n as int + 1));
        Some(s)
    } else {
        None
    }
}

/// The `/`-separated piece of `s` that holds position `lo` and ends at `hi`.
pub open spec fn is_segment(s: Seq<char>, lo: int, hi: int) -> bool {
    &&& 0 <= lo <= hi <= s.len()
    &&& (lo == 0 || s[lo - 1] == '/')
    &&& (hi == s.len() || s[hi] == '/')
    &&& forall|k: int| lo <= k < hi ==> #[trigger] s[k] != '/'
}

pub open spec fn segment_hit(pattern: Seq<char>, s: Seq<char>, lo: int, hi: int) -> bool {
    is_segment(s, lo, hi) && matches_glob(encode_utf8(pattern), encode_utf8(s.subrange(lo, hi)))
}

/// Some `/`-separated segment of `s` matches the pattern.
pub open spec fn any_segment(pattern: Seq<char>, s: Seq<char>) -> bool {
    exists|lo: int, hi: int| #[trigger] segment_hit(pattern, s, lo, hi)
}

/// Does the rule concern the path `sub` below its directory?
pub open spec fn rule_hits(rule: RuleModel, sub: Seq<char>, is_dir: bool) -> bool {
    (rule.dir_only ==> is_dir) && if rule.anchored {
        matches_glob(encode_utf8(rule.pattern), encode_utf8(sub))
    } else {
        any_segment(rule.pattern, sub)
    }
}

/// The verdict of `rules` on `sub`, starting from `ignored`: the last rule
/// that hits decides.
pub open spec fn verdict(rules: Seq<RuleModel>, sub: Seq<char>, is_dir: bool, ignored: bool) -> bool
    decreases rules.len(),
{
    if rules.len() == 0 {
        ignored
    } else if rule_hits(rules.last(), sub, is_dir) {
        !rules.last().negated
    } else {
        verdict(rules.drop_last(), sub, is_dir, ignored)
    }
}

/// The rules of one ignore file and the directory it governs.
pub struct Layer {
    pub prefix: String,
    pub rules: Vec<IgnoreRule>,
}

/// What a layer says, as a value.
pub struct LayerModel {
    pub prefix: Seq<char>,
    pub rules: Seq<RuleModel>,
}

impl View for Layer {
    type V = LayerModel;

    open spec fn view(&self) -> LayerModel {
        LayerModel { prefix: self.prefix@, rules: rule_views(self.rules@) }
    }
}

/// The verdict of nested layers: later layers override earlier ones.
pub open spec fn layered(layers: Seq<LayerModel>, rel: Seq<char>, is_dir: bool) -> bool
    decreases layers.len(),
{
    if layers.len() == 0 {
        false
    } else {
        let before = layered(layers.drop_last(), rel, is_dir);
        match below(rel, layers.last().prefix) {
            Some(sub) => verdict(layers.last().rules, sub, is_dir, before),
            None => before,
        }
    }
}

fn any_segment_matches(pattern: &str, s: &[char]) -> (r: bool)
    ensures
        r == any_segment(pattern@, s@),
{
    let n: usize = s.len();
    let mut lo: usize = 0;
    let mut hi: usize = 0;
    loop
        invariant
            n == s@.len(),
            lo <= hi <= n,
            lo == 0 || s@[lo - 1] == '/',
            forall|k: int| lo <= k < hi ==> #[trigger] s@[k] != '/',
            forall|a: int, b: int|
                a < lo && is_segment(s@, a, b) ==> !#[trigger] segment_hit(pattern@, s@, a, b),
        decreases n - hi,
    {
        if hi == n || s[hi] == '/' {
            let piece: &[char] = slice_subrange(s, lo, hi);
            let seg = text::string_of(piece);
            assert(is_segment(s@, lo as int, hi as int));
            if glob_match(pattern, seg.as_str()) {
                assert(segment_hit(pattern@, s@, lo as int, hi as int));
                return true;
            }
            assert forall|a: int, b: int| a <= hi && is_segment(s@, a, b) implies !#[trigger]
                segment_hit(pattern@, s@, a, b) by {
                if a >= lo {
                    if a > lo {
                        assert(s@[a - 1] == '/');
                        assert(false);
                    }
                    if b < hi {
                        assert(s@[b] == '/');
                        assert(false);
                    }
                    if b > hi {
                        assert(s@[hi as int] != '/');
                        assert(false);
                    }
                }
            }
            if hi == n {
                assert forall|a: int, b: int| !#[trigger] segment_hit(pattern@, s@, a, b) by {
                    if is_segment(s@, a, b) {
                        assert(a <= hi);
                    }
                }
                return false;
            }
            lo = hi + 1;
        }
        hi += 1;
    }
}

fn hits(rule: &IgnoreRule, sub: &[char], is_dir: bool) -> (r: bool)
    ensures
        r == rule_hits(rule@, sub@, is_dir),
{
    if rule.dir_only && !is_dir {
        return false;
    }
    if rule.anchored {
        let s = text::string_of(sub);
        glob_match(rule.pattern.as_str(), s.as_str())
    } else {
        any_segment_matches(rule.pattern.as_str(), sub)
    }
}

/// The layered ignore files of a source tree.
pub struct IgnoreSet {
    pub layers: Vec<Layer>,
}

impl View for IgnoreSet {
    type V = Seq<LayerModel>;

    open spec fn view(&self) -> Seq<LayerModel> {
        Seq::new(self.layers@.len(), |i: int| self.layers@[i]@)
    }
}

impl Default for IgnoreSet {
    fn default() -> (s: Self)
        ensures
            s@ == Seq::<LayerModel>::empty(),
    {
        let s = IgnoreSet { layers: Vec::new() };
        assert(s@ =~= Seq::<LayerModel>::empty());
        s
    }
}

impl IgnoreSet {
    /// The rules that the text of one ignore file states, in order.
    pub fn parse_layer(text: &str) -> (rules: Vec<IgnoreRule>)
        ensures
            rule_views(rules@) == rules_of(text::lines(text@)),
    {
        let chars = text::chars_of(text);
        let lines = text::split_lines(chars.as_slice());
        let ghost all = text::lines(text@);
        let mut rules: Vec<IgnoreRule> = Vec::new();
        let mut i: usize = 0;
        assert(all.take(0) =~= Seq::<Seq<char>>::empty());
        assert(rule_views(rules@) =~= Seq::<RuleModel>::empty());
        while i < lines.len()
            invariant
                i <= lines@.len(),
                text::views(lines@) == all,
                rule_views(rules@) == rules_of(all.take(i as int)),
            decreases lines@.len() - i,
        {
            let ghost before = rule_views(rules@);
            proof {
                assert(all.take(i + 1).drop_last() =~= all.take(i as int));
                assert(all.take(i + 1).last() == lines@[i as int]@);
            }
            if let Some(rule) = parse_rule(lines[i].as_slice()) {
                rules.push(rule);
                assert(rule_views(rules@) =~= before.push(rule@));
            }
            i += 1;
        }
        assert(all.take(i as int) =~= all);
        rules
    }

    /// Add the ignore file `text` found in the directory `prefix`. A file
    /// without rules adds no layer.
    pub fn push_layer(&mut self, prefix: &str, text: &str)
        ensures
            final(self)@ == if rules_of(text::lines(text@)).len() == 0 {
                old(self)@
            } else {
                old(self)@.push(
                    (LayerModel { prefix: prefix@, rules: rules_of(text::lines(text@)) }),
                )
            },
    {
        let ghost before = self@;
        let rules = Self::parse_layer(text);
        if rules.len() > 0 {
            let p = text::chars_of(prefix);
            let layer = Layer { prefix: text::string_of(p.as_slice()), rules };
            self.layers.push(layer);
            assert(self@ =~= before.push(layer@));
        }
    }

    /// How many layers are in force.
    pub fn depth(&self) -> (n: usize)
        ensures
            n == self@.len(),
    {
        self.layers.len()
    }

    /// Drop the layers above `depth`, on the way out of a directory.
    pub fn truncate(&mut self, depth: usize)
        ensures
            final(self)@ == if depth < old(self)@.len() {
                old(self)@.take(depth as int)
            } else {
                old(self)@
            },
    {
        let ghost before = self@;
        self.layers.truncate(depth);
        proof {
            if depth < before.len() {
                assert(self@ =~= before.take(depth as int));
            } else {
                assert(self@ =~= before);
            }
        }
    }

    /// Is the path `rel` ignored? The last rule that hits decides, and later
    /// layers come after earlier ones.
    pub fn is_ignored(&self, rel: &str, is_dir: bool) -> (r: bool)
        ensures
            r == layered(self@, rel@, is_dir),
    {
        let path = text::chars_of(rel);
        let mut ignored: bool = false;
        let mut i: usize = 0;
        assert(self@.take(0) =~= Seq::<LayerModel>::empty());
        while i < self.layers.len()
            invariant
                i <= self.layers@.len(),
                path@ == rel@,
                ignored == layered(self@.take(i as int), rel@, is_dir),
            decreases self.layers@.len() - i,
        {
            let layer = &self.layers[i];
            let ghost before = ignored;
            proof {
                assert(self@.take(i + 1).drop_last() =~= self@.take(i as int));
                assert(self@.take(i + 1).last() == layer@);
            }
            if let Some(sub) = strip_prefix_path(path.as_slice(), layer.prefix.as_str()) {
                let ghost rules = rule_views(layer.rules@);
                let mut j: usize = 0;
                assert(rules.take(0) =~= Seq::<RuleModel>::empty());
                while j < layer.rules.len()
                    invariant
                        j <= layer.rules@.len(),
                        rules == rule_views(layer.rules@),
                        ignored == verdict(rules.take(j as int), sub@, is_dir, before),
                    decreases layer.rules@.len() - j,
                {
                    proof {
                        assert(rules.take(j + 1).drop_last() =~= rules.take(j as int));
                        assert(rules.take(j + 1).last() == layer.rules@[j as int]@);
                    }
                    if hits(&layer.rules[j], sub, is_dir) {
                        ignored = !layer.rules[j].negated;
                    }
                    j += 1;
                }
                assert(rules.take(j as int) =~= rules);
            }
            i += 1;
        }
        assert(self@.take(i as int) =~= self@);
        ignored
    }
}

/// Layers entered for one directory are gone after leaving it: siblings see
/// the verdicts they would have seen without it.
pub proof fn law_siblings_do_not_inherit(outer: Seq<LayerModel>, inner: Seq<LayerModel>)
    ensures
        (outer + inner).take(outer.len() as int) == outer,
{
    assert((outer + inner).take(outer.len() as int) =~= outer);
}

/// A layer says nothing of paths outside its directory.
pub proof fn law_layer_governs_its_directory(
    layers: Seq<LayerModel>,
    layer: LayerModel,
    rel: Seq<char>,
    is_dir: bool,
)
    requires
        below(rel, layer.prefix) is None,
    ensures
        layered(layers.push(layer), rel, is_dir) == layered(layers, rel, is_dir),
{
    assert(layers.push(layer).drop_last() =~= layers);
}

/// A line of an ignore file: `pattern` with what may stand around it.
pub open spec fn rule_line(
    negated: bool,
    rooted: bool,
    pattern: Seq<char>,
    dir_only: bool,
    space: Seq<char>,
) -> Seq<char> {
    (if negated {
        seq!['!']
    } else {
        Seq::empty()
    }) + (if rooted {
        seq!['/']
    } else {
        Seq::empty()
    }) + pattern + (if dir_only {
        seq!['/']
    } else {
        Seq::empty()
    }) + space
}

/// What a line of an ignore file says: `!` before it negates the rule, `/`
/// before it or within it anchors the pattern, `/` behind it restricts the rule
/// to directories, and white space at its end does not count.
pub proof fn law_rule_lines(
    negated: bool,
    rooted: bool,
    pattern: Seq<char>,
    dir_only: bool,
    space: Seq<char>,
)
    requires
        pattern.len() > 0,
        pattern[0] != '/' && pattern.last() != '/' && !text::white(pattern.last()),
        !negated && !rooted ==> pattern[0] != '#' && pattern[0] != '!',
        forall|i: int| 0 <= i < space.len() ==> text::white(#[trigger] space[i]),
    ensures
        rule_of(rule_line(negated, rooted, pattern, dir_only, space)) == Some(
            RuleModel { pattern, negated, dir_only, anchored: rooted || pattern.contains('/') },
        ),
{
    let raw = rule_line(negated, rooted, pattern, dir_only, space);
    let line = rule_line(negated, rooted, pattern, dir_only, Seq::empty());
    assert(raw =~= line + space);
    assert(!text::white('/'));
    text::lemma_cut_tail(line, space, text::white_fn());
    let end = if dir_only {
        seq!['/']
    } else {
        Seq::<char>::empty()
    };
    let head = if rooted {
        seq!['/']
    } else {
        Seq::<char>::empty()
    };
    let rest = head + pattern + end;
    let body = head + pattern;
    assert(negated ==> line.drop_first() =~= rest);
    assert(!negated ==> line =~= rest);
    text::lemma_cut_tail(body, end, text::just('/'));
    assert(rest =~= body + end);
    text::lemma_skip_head(head, pattern, text::just('/'));
    assert(body.contains('/') <==> rooted || pattern.contains('/')) by {
        if rooted {
            assert(body[0] == '/');
        }
        if pattern.contains('/') {
            let i = choose|i: int| 0 <= i < pattern.len() && pattern[i] == '/';
            assert(body[head.len() + i] == '/');
        }
        if body.contains('/') {
            let i = choose|i: int| 0 <= i < body.len() && body[i] == '/';
            if i >= head.len() {
                assert(pattern[i - head.len()] == '/');
            }
        }
    }
}

/// Comments and blank lines state no rule.
pub proof fn law_comments_state_no_rule(rest: Seq<char>, space: Seq<char>)
    requires
        forall|i: int| 0 <= i < space.len() ==> text::white(#[trigger] space[i]),
    ensures
        rule_of(seq!['#'] + rest) is None,
        rule_of(space) is None,
{
    let line = seq!['#'] + rest;
    assert(!text::white('#'));
    let n = text::lemma_cut(line, text::white_fn());
    if n > 0 {
        assert(line.take(n)[0] == '#');
    }
    let m = text::lemma_cut(space, text::white_fn());
    if m > 0 {
        assert(text::white(space[m - 1]));
    }
}

/// The last rule that concerns a path decides: a rule added behind others
/// overrules them where it hits, and changes nothing elsewhere.
pub proof fn law_last_rule_decides(
    layers: Seq<LayerModel>,
    prefix: Seq<char>,
    rules: Seq<RuleModel>,
    rule: RuleModel,
    sub: Seq<char>,
    is_dir: bool,
)
    ensures
        ({
            let rel = if prefix.len() == 0 {
                sub
            } else {
                prefix + seq!['/'] + sub
            };
            let without = layered(layers.push(LayerModel { prefix, rules }), rel, is_dir);
            let with = layered(
                layers.push(LayerModel { prefix, rules: rules.push(rule) }),
                rel,
                is_dir,
            );
            if rule_hits(rule, sub, is_dir) {
                with == !rule.negated
            } else {
                with == without
            }
        }),
{
    let rel = if prefix.len() == 0 {
        sub
    } else {
        prefix + seq!['/'] + sub
    };
    if prefix.len() > 0 {
        assert(rel.take(prefix.len() as int) =~= prefix);
        assert(rel.skip(prefix.len() as int + 1) =~= sub);
    }
    assert(layers.push(LayerModel { prefix, rules }).drop_last() =~= layers);
    assert(layers.push(LayerModel { prefix, rules: rules.push(rule) }).drop_last() =~= layers);
    assert(rules.push(rule).drop_last() =~= rules);
}

/// A rule with a literal name hits the paths that have a segment of that name,
/// an anchored one the path itself; one for directories hits directories only.
pub proof fn law_literal_rules(rule: RuleModel, sub: Seq<char>, is_dir: bool)
    requires
        literal(encode_utf8(rule.pattern)),
    ensures
        rule_hits(rule, sub, is_dir) <==> (rule.dir_only ==> is_dir) && if rule.anchored {
            sub == rule.pattern
        } else {
            exists|lo: int, hi: int|
                #![trigger sub.subrange(lo, hi)]
                {
                    &&& 0 <= lo <= hi <= sub.len()
                    &&& (lo == 0 || sub[lo - 1] == '/')
                    &&& (hi == sub.len() || sub[hi] == '/')
                    &&& !sub.subrange(lo, hi).contains('/')
                    &&& sub.subrange(lo, hi) == rule.pattern
                }
        },
{
    let p = encode_utf8(rule.pattern);
    assert forall|s: Seq<char>| #[trigger] matches_glob(p, encode_utf8(s)) <==> s
        == rule.pattern by {
        law_literal_matches_itself(p, encode_utf8(s));
        vstd::utf8::encode_utf8_decode_utf8(s);
        vstd::utf8::encode_utf8_decode_utf8(rule.pattern);
    }
    if !rule.anchored {
        if any_segment(rule.pattern, sub) {
            let (lo, hi) = choose|lo: int, hi: int| #[trigger] segment_hit(rule.pattern, sub, lo, hi);
            let piece = sub.subrange(lo, hi);
            assert(piece == rule.pattern);
            if piece.contains('/') {
                let k = choose|k: int| 0 <= k < piece.len() && piece[k] == '/';
                assert(sub[lo + k] == '/');
            }
        }
        if exists|lo: int, hi: int|
            #![trigger sub.subrange(lo, hi)]
            {
                &&& 0 <= lo <= hi <= sub.len()
                &&& (lo == 0 || sub[lo - 1] == '/')
                &&& (hi == sub.len() || sub[hi] == '/')
                &&& !sub.subrange(lo, hi).contains('/')
                &&& sub.subrange(lo, hi) == rule.pattern
            } {
            let (lo, hi) = choose|lo: int, hi: int|
                #![trigger sub.subrange(lo, hi)]
                {
                    &&& 0 <= lo <= hi <= sub.len()
                    &&& (lo == 0 || sub[lo - 1] == '/')
                    &&& (hi == sub.len() || sub[hi] == '/')
                    &&& !sub.subrange(lo, hi).contains('/')
                    &&& sub.subrange(lo, hi) == rule.pattern
                };
            assert(is_segment(sub, lo, hi)) by {
                assert forall|k: int| lo <= k < hi implies #[trigger] sub[k] != '/' by {
                    assert(sub.subrange(lo, hi)[k - lo] == sub[k]);
                    assert(sub.subrange(lo, hi).contains(sub.subrange(lo, hi)[k - lo]));
                }
            }
            assert(segment_hit(rule.pattern, sub, lo, hi));
        }
    }
}

/// A layer governs what lies below its directory, and sees its path from there.
/// A directory whose name only begins alike lies elsewhere.
pub proof fn law_below(prefix: Seq<char>, sub: Seq<char>, rel: Seq<char>)
    ensures
        below(rel, Seq::empty()) == Some(rel),
        prefix.len() > 0 ==> below(prefix + seq!['/'] + sub, prefix) == Some(sub),
        prefix.len() > 0 && below(rel, prefix) == Some(sub) ==> rel == prefix + seq!['/'] + sub,
{
    let path = prefix + seq!['/'] + sub;
    assert(path.take(prefix.len() as int) =~= prefix);
    assert(path.skip(prefix.len() as int + 1) =~= sub);
    if prefix.len() > 0 && below(rel, prefix) == Some(sub) {
        assert(rel =~= rel.take(prefix.len() as int) + seq!['/'] + rel.skip(
            prefix.len() as int + 1,
        ));
    }
}

/// The rules of a file are those of its lines, in order.
pub proof fn law_rules_come_in_order(lines: Seq<Seq<char>>, line: Seq<char>)
    ensures
        rules_of(Seq::empty()).len() == 0,
        rules_of(lines.push(line)) == match rule_of(line) {
            Some(r) => rules_of(lines).push(r),
            None => rules_of(lines),
        },
{
    assert(lines.push(line).drop_last() =~= lines);
}

/// A rule without a slash matches a file or directory of that name wherever it
/// lies, and with it all that lies below.
pub proof fn law_unanchored_rules(
    rule: RuleModel,
    a: Seq<char>,
    name: Seq<char>,
    b: Seq<char>,
    is_dir: bool,
)
    requires
        !rule.anchored,
        !name.contains('/'),
    ensures
        rule_hits(rule, name, is_dir) <==> (rule.dir_only ==> is_dir) && matches_glob(
            encode_utf8(rule.pattern),
            encode_utf8(name),
        ),
        rule_hits(rule, name, is_dir) ==> rule_hits(rule, a + seq!['/'] + name, is_dir),
        rule_hits(rule, name, is_dir) ==> rule_hits(rule, name + seq!['/'] + b, is_dir),
        rule_hits(rule, name, is_dir) ==> rule_hits(
            rule,
            a + seq!['/'] + name + seq!['/'] + b,
            is_dir,
        ),
{
    let n = name.len() as int;
    let p = rule.pattern;
    assert(name.subrange(0, n) =~= name);
    assert forall|k: int| 0 <= k < n implies #[trigger] name[k] != '/' by {
        assert(name.contains(name[k]));
    }
    if any_segment(p, name) {
        let (lo, hi) = choose|lo: int, hi: int| #[trigger] segment_hit(p, name, lo, hi);
        if lo > 0 {
            assert(name[lo - 1] != '/');
        }
        if hi < n {
            assert(name[hi] != '/');
        }
        assert(lo == 0 && hi == n);
    }
    if matches_glob(encode_utf8(p), encode_utf8(name)) {
        assert(segment_hit(p, name, 0, n));
        let x = a + seq!['/'] + name;
        let at = a.len() as int + 1;
        assert(x.subrange(at, at + n) =~= name);
        assert(is_segment(x, at, at + n)) by {
            assert forall|k: int| at <= k < at + n implies #[trigger] x[k] != '/' by {
                assert(x[k] == name[k - at]);
            }
        }
        assert(segment_hit(p, x, at, at + n));
        let y = name + seq!['/'] + b;
        assert(y.subrange(0, n) =~= name);
        assert(is_segment(y, 0, n)) by {
            assert forall|k: int| 0 <= k < n implies #[trigger] y[k] != '/' by {
                assert(y[k] == name[k]);
            }
        }
        assert(segment_hit(p, y, 0, n));
        let z = a + seq!['/'] + name + seq!['/'] + b;
        assert(z.subrange(at, at + n) =~= name);
        assert(is_segment(z, at, at + n)) by {
            assert forall|k: int| at <= k < at + n implies #[trigger] z[k] != '/' by {
                assert(z[k] == name[k - at]);
            }
        }
        assert(segment_hit(p, z, at, at + n));
    }
}

/// A rule with a slash matches the whole path, seen from its directory.
pub proof fn law_anchored_rules(rule: RuleModel, sub: Seq<char>, is_dir: bool)
    requires
        rule.anchored,
    ensures
        rule_hits(rule, sub, is_dir) <==> (rule.dir_only ==> is_dir) && matches_glob(
            encode_utf8(rule.pattern),
            encode_utf8(sub),
        ),
{
}

} // verus!
