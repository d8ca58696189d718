//! Separating a chunk's leading documentation from its code.
//!
//! The documentation becomes a natural-language query and the code it
//! documents the relevant answer, so the comment has to be gone from the
//! indexed body.

use crate::text;
use vstd::prelude::*;
use vstd::slice::slice_subrange;

verus! {

/// A chunk's documentation and its code.
pub struct SplitDoc {
    /// The first paragraph of the comment, markers removed.
    pub doc: String,
    /// The body with the leading comment removed.
    pub code: String,
}

/// `s` without the copies of `p` that it begins with.
pub open spec fn drop_prefixes(s: Seq<char>, p: Seq<char>) -> Seq<char>
    decreases s.len(),
{
    if p.len() > 0 && text::begins(s, p) {
        drop_prefixes(s.skip(p.len() as int), p)
    } else {
        s
    }
}

/// `s` without the copies of `p` that it ends with.
pub open spec fn drop_suffixes(s: Seq<char>, p: Seq<char>) -> Seq<char>
    decreases s.len(),
{
    if p.len() > 0 && text::ends(s, p) {
        drop_suffixes(s.take(s.len() - p.len()), p)
    } else {
        s
    }
}

fn trim_prefixes<'a>(s: &'a [char], p: &str) -> (r: &'a [char])
    requires
        p@.len() > 0,
    ensures
        r@ == drop_prefixes(s@, p@),
{
    let chars = text::chars_of(p);
    let k: usize = chars.len();
    let mut cur: &'a [char] = s;
    while text::starts_with(cur, p)
        invariant
            k == p@.len(),
            k > 0,
            drop_prefixes(s@, p@) == drop_prefixes(cur@, p@),
        decreases cur@.len(),
    {
        let next: &'a [char] = slice_subrange(cur, k, cur.len());
        assert(next@ =~= cur@.skip(k as int));
        cur = next;
    }
    cur
}

fn trim_suffixes<'a>(s: &'a [char], p: &str) -> (r: &'a [char])
    requires
        p@.len() > 0,
    ensures
        r@ == drop_suffixes(s@, p@),
{
    let chars = text::chars_of(p);
    let k: usize = chars.len();
    let mut cur: &'a [char] = s;
    while text::ends_with(cur, p)
        invariant
            k == p@.len(),
            k > 0,
            drop_suffixes(s@, p@) == drop_suffixes(cur@, p@),
        decreases cur@.len(),
    {
        let next: &'a [char] = slice_subrange(cur, 0, cur.len() - k);
        assert(next@ =~= cur@.take(cur@.len() - k));
        cur = next;
    }
    cur
}

/// A line of a block comment without its markers.
pub open spec fn block_text(line: Seq<char>) -> Seq<char> {
    let opened = drop_prefixes(drop_prefixes(text::trimmed(line), "/**"@), "/*"@);
    text::trimmed(text::skip_while(drop_suffixes(opened, "*/"@), text::just('*')))
}

/// Does a block comment end on this line?
pub open spec fn closes(line: Seq<char>) -> bool {
    text::ends(text::trimmed(line), "*/"@)
}

/// The first line, from the `i`th on, that closes the block comment; the
/// number of lines if none does.
pub open spec fn close_line(lines: Seq<Seq<char>>, i: int) -> int
    decreases lines.len() - i,
{
    if i >= lines.len() || closes(lines[i]) {
        i
    } else {
        close_line(lines, i + 1)
    }
}

/// What the first `n` lines of a block comment say, empty lines left out.
pub open spec fn block_lines(lines: Seq<Seq<char>>, n: int) -> Seq<Seq<char>>
    decreases n,
{
    if n <= 0 {
        Seq::empty()
    } else if block_text(lines[n - 1]).len() == 0 {
        block_lines(lines, n - 1)
    } else {
        block_lines(lines, n - 1).push(block_text(lines[n - 1]))
    }
}

/// What a line comment says: `///`, `//!` or `#`, but neither `#!` nor `#[`.
pub open spec fn comment_text(line: Seq<char>) -> Option<Seq<char>> {
    let t = text::trimmed_start(line);
    if text::begins(t, "///"@) {
        Some(text::trimmed(t.skip(3)))
    } else if text::begins(t, "//!"@) {
        Some(text::trimmed(t.skip(3)))
    } else if text::begins(t, "#!"@) || text::begins(t, "#["@) {
        None
    } else if t.len() > 0 && t[0] == '#' {
        Some(text::trimmed(t.skip(1)))
    } else {
        None
    }
}

/// What the run of line comments from the `i`th line on says.
pub open spec fn comment_run(lines: Seq<Seq<char>>, i: int) -> Seq<Seq<char>>
    decreases lines.len() - i,
{
    if i >= lines.len() {
        Seq::empty()
    } else {
        match comment_text(lines[i]) {
            Some(t) => seq![t] + comment_run(lines, i + 1),
            None => Seq::empty(),
        }
    }
}

/// The lines before the first empty one.
pub open spec fn first_paragraph(lines: Seq<Seq<char>>) -> Seq<Seq<char>>
    decreases lines.len(),
{
    if lines.len() == 0 || lines[0].len() == 0 {
        Seq::empty()
    } else {
        seq![lines[0]] + first_paragraph(lines.drop_first())
    }
}

/// Does the text begin with a block comment?
pub open spec fn block_form(lines: Seq<Seq<char>>) -> bool {
    lines.len() > 0 && text::begins(text::trimmed_start(lines[0]), "/*"@)
}

/// What the leading comment says, and on which line the code begins.
pub open spec fn comment_of(lines: Seq<Seq<char>>) -> (Seq<Seq<char>>, int) {
    if block_form(lines) {
        let c = close_line(lines, 0);
        if c < lines.len() {
            (block_lines(lines, c + 1), c + 1)
        } else {
            (Seq::empty(), lines.len() as int)
        }
    } else {
        let docs = comment_run(lines, 0);
        (docs, docs.len() as int)
    }
}

/// The documentation and the code of a body; `None` without a leading
/// comment, and where no code follows it.
pub open spec fn split_of(lines: Seq<Seq<char>>) -> Option<(Seq<char>, Seq<char>)> {
    let (docs, idx) = comment_of(lines);
    let code = text::joined(lines.skip(idx), seq!['\n']);
    if docs.len() == 0 || idx >= lines.len() || text::trimmed(code).len() == 0 {
        None
    } else {
        Some((text::joined(first_paragraph(docs), seq![' ']), code))
    }
}

fn clean_block_line(line: &[char]) -> (r: Vec<char>)
    ensures
        r@ == block_text(line@),
{
    proof {
        reveal_strlit("/**");
        reveal_strlit("/*");
        reveal_strlit("*/");
    }
    let t: &[char] = text::trim(line);
    let opened: &[char] = trim_prefixes(trim_prefixes(t, "/**"), "/*");
    let inner: &[char] = text::trim_start_char(trim_suffixes(opened, "*/"), '*');
    text::to_vec(text::trim(inner))
}

fn clean_line(line: &[char]) -> (r: Option<Vec<char>>)
    ensures
        r is Some <==> comment_text(line@) is Some,
        r matches Some(t) ==> comment_text(line@) == Some(t@),
{
    proof {
        reveal_strlit("///");
        reveal_strlit("//!");
    }
    let t: &[char] = text::trim_start(line);
    let skip: usize = if text::starts_with(t, "///") || text::starts_with(t, "//!") {
        3
    } else if text::starts_with(t, "#!") || text::starts_with(t, "#[") {
        return None;
    } else if t.len() > 0 && t[0] == '#' {
        1
    } else {
        return None;
    };
    let rest: &[char] = slice_subrange(t, skip, t.len());
    assert(rest@ =~= t@.skip(skip as int));
    Some(text::to_vec(text::trim(rest)))
}

fn paragraph(docs: &Vec<Vec<char>>) -> (n: usize)
    ensures
        n <= docs@.len(),
        first_paragraph(text::views(docs@)) == text::views(docs@).take(n as int),
{
    let ghost all = text::views(docs@);
    let mut n: usize = 0;
    assert(all.skip(0) =~= all);
    while n < docs.len() && docs[n].len() > 0
        invariant
            n <= docs@.len(),
            all == text::views(docs@),
            first_paragraph(all) == all.take(n as int) + first_paragraph(all.skip(n as int)),
        decreases docs@.len() - n,
    {
        proof {
            let tail = all.skip(n as int);
            assert(tail[0] == docs@[n as int]@);
            assert(tail.drop_first() =~= all.skip(n + 1));
            assert(all.take(n as int) + (seq![tail[0]] + first_paragraph(all.skip(n + 1)))
                =~= all.take(n + 1) + first_paragraph(all.skip(n + 1)));
        }
        n += 1;
    }
    proof {
        let tail = all.skip(n as int);
        if n < docs@.len() {
            assert(tail[0] == docs@[n as int]@);
        }
        assert(first_paragraph(tail) =~= Seq::<Seq<char>>::empty());
        assert(first_paragraph(all) =~= all.take(n as int));
    }
    n
}

/// Split a chunk body into its leading doc comment and the remaining code.
pub fn split_doc_comment(body: &str) -> (r: Option<SplitDoc>)
    ensures
        r is Some <==> split_of(text::lines(body@)) is Some,
        r matches Some(s) ==> split_of(text::lines(body@)) == Some((s.doc@, s.code@)),
{
    let chars = text::chars_of(body);
    let lines = text::split_lines(chars.as_slice());
    let ghost all = text::lines(body@);
    let n: usize = lines.len();
    let mut docs: Vec<Vec<char>> = Vec::new();
    let mut idx: usize = 0;
    assert(text::views(docs@) =~= Seq::<Seq<char>>::empty());
    assert(n > 0 ==> all[0] == lines@[0]@);
    if n > 0 && text::starts_with(text::trim_start(lines[0].as_slice()), "/*") {
        let mut closed: bool = false;
        while idx < n && !closed
            invariant
                idx <= n,
                n == lines@.len(),
                all == text::views(lines@),
                text::views(docs@) == block_lines(all, idx as int),
                !closed ==> close_line(all, 0) == close_line(all, idx as int),
                closed ==> idx > 0 && close_line(all, 0) == idx - 1,
            decreases n - idx,
        {
            let ghost before = text::views(docs@);
            assert(all[idx as int] == lines@[idx as int]@);
            let line: &[char] = lines[idx].as_slice();
            let t: &[char] = text::trim(line);
            let cleaned = clean_block_line(line);
            if cleaned.len() > 0 {
                docs.push(cleaned);
                assert(text::views(docs@) =~= before.push(cleaned@));
            }
            if text::ends_with(t, "*/") {
                closed = true;
            }
            idx += 1;
        }
        if !closed {
            return None;
        }
    } else {
        let mut run: bool = true;
        assert(Seq::<Seq<char>>::empty() + comment_run(all, 0) =~= comment_run(all, 0));
        while idx < n && run
            invariant
                idx <= n,
                n == lines@.len(),
                all == text::views(lines@),
                docs@.len() == idx,
                run ==> comment_run(all, 0) == text::views(docs@) + comment_run(all, idx as int),
                !run ==> comment_run(all, 0) == text::views(docs@),
            decreases n - idx, run as int,
        {
            let ghost before = text::views(docs@);
            assert(all[idx as int] == lines@[idx as int]@);
            match clean_line(lines[idx].as_slice()) {
                Some(t) => {
                    docs.push(t);
                    proof {
                        assert(text::views(docs@) =~= before.push(t@));
                        assert(before + (seq![t@] + comment_run(all, idx + 1)) =~= text::views(
                            docs@,
                        ) + comment_run(all, idx + 1));
                    }
                    idx += 1;
                },
                None => {
                    assert(before + comment_run(all, idx as int) =~= before);
                    run = false;
                },
            }
        }
        assert(comment_run(all, 0) =~= text::views(docs@));
    }
    assert(comment_of(all) == (text::views(docs@), idx as int));
    if docs.len() == 0 || idx >= n {
        return None;
    }
    let para: usize = paragraph(&docs);
    let doc = text::join_range(&docs, 0, para, ' ');
    let code = text::join_range(&lines, idx, n, '\n');
    proof {
        assert(text::views(docs@).subrange(0, para as int) =~= text::views(docs@).take(para as int));
        assert(all.subrange(idx as int, n as int) =~= all.skip(idx as int));
    }
    let rest: &[char] = text::trim(code.as_slice());
    if rest.len() == 0 {
        return None;
    }
    Some(SplitDoc { doc: text::string_of(doc.as_slice()), code: text::string_of(code.as_slice()) })
}

proof fn lemma_comment_run(lines: Seq<Seq<char>>, i: int, k: int)
    requires
        0 <= i <= k < i + comment_run(lines, i).len(),
    ensures
        k < lines.len(),
        comment_text(lines[k]) == Some(comment_run(lines, i)[k - i]),
    decreases lines.len() - i,
{
    if k > i {
        lemma_comment_run(lines, i + 1, k);
    }
}

/// Nothing of a leading line comment stays in the code: the code begins at
/// the first line that is no comment.
pub proof fn law_line_comment_leaves_the_code(lines: Seq<Seq<char>>, k: int)
    requires
        !block_form(lines),
        split_of(lines) is Some,
        0 <= k < lines.len(),
    ensures
        k < comment_of(lines).1 ==> comment_text(lines[k]) is Some,
        comment_text(lines[comment_of(lines).1]) is None,
{
    if k < comment_of(lines).1 {
        lemma_comment_run(lines, 0, k);
    }
    lemma_run_stops(lines, 0);
}

proof fn lemma_run_stops(lines: Seq<Seq<char>>, i: int)
    requires
        0 <= i,
        i + comment_run(lines, i).len() < lines.len(),
    ensures
        comment_text(lines[i + comment_run(lines, i).len() as int]) is None,
    decreases lines.len() - i,
{
    if comment_text(lines[i]) is Some {
        lemma_run_stops(lines, i + 1);
    }
}

proof fn lemma_close_line(lines: Seq<Seq<char>>, i: int)
    requires
        0 <= i <= lines.len(),
    ensures
        i <= close_line(lines, i) <= lines.len(),
        forall|k: int| i <= k < close_line(lines, i) ==> !closes(#[trigger] lines[k]),
        close_line(lines, i) < lines.len() ==> closes(lines[close_line(lines, i)]),
    decreases lines.len() - i,
{
    if i < lines.len() && !closes(lines[i]) {
        lemma_close_line(lines, i + 1);
    }
}

proof fn lemma_comment_texts(lines: Seq<Seq<char>>, i: int)
    requires
        0 <= i <= lines.len(),
    ensures
        i + comment_run(lines, i).len() <= lines.len(),
        forall|k: int|
            0 <= k < comment_run(lines, i).len() ==> comment_text(lines[i + k]) == Some(
                #[trigger] comment_run(lines, i)[k],
            ),
        i + comment_run(lines, i).len() < lines.len() ==> comment_text(
            lines[i + comment_run(lines, i).len()],
        ) is None,
    decreases lines.len() - i,
{
    if i < lines.len() {
        if let Some(t) = comment_text(lines[i]) {
            lemma_comment_texts(lines, i + 1);
            let rest = comment_run(lines, i + 1);
            let all = comment_run(lines, i);
            assert forall|k: int| 0 <= k < all.len() implies comment_text(lines[i + k]) == Some(
                #[trigger] all[k],
            ) by {
                if k > 0 {
                    assert(all[k] == rest[k - 1]);
                    assert(comment_text(lines[i + 1 + (k - 1)]) == Some(rest[k - 1]));
                }
            }
        }
    }
}

proof fn lemma_first_paragraph(lines: Seq<Seq<char>>) -> (n: int)
    ensures
        0 <= n <= lines.len(),
        first_paragraph(lines) == lines.take(n),
        forall|k: int| 0 <= k < n ==> (#[trigger] lines[k]).len() > 0,
        n < lines.len() ==> lines[n].len() == 0,
    decreases lines.len(),
{
    if lines.len() == 0 || lines[0].len() == 0 {
        assert(lines.take(0) =~= Seq::<Seq<char>>::empty());
        0
    } else {
        let rest = lines.drop_first();
        let m = lemma_first_paragraph(rest);
        assert(seq![lines[0]] + rest.take(m) =~= lines.take(m + 1));
        assert forall|k: int| 0 <= k < m + 1 implies (#[trigger] lines[k]).len() > 0 by {
            if k > 0 {
                assert(rest[k - 1].len() > 0);
            }
        }
        if m + 1 < lines.len() {
            assert(rest[m].len() == 0);
        }
        m + 1
    }
}

/// The code is what follows the leading comment, to the last line: from the
/// line behind the one that closes a block comment, and otherwise from the
/// first line that is no line comment.
pub proof fn law_code_follows_the_comment(lines: Seq<Seq<char>>, doc: Seq<char>, code: Seq<char>)
    requires
        split_of(lines) == Some((doc, code)),
    ensures
        exists|at: int|
            0 < at < lines.len() && code == text::joined(#[trigger] lines.skip(at), seq!['\n'])
                && if text::begins(text::trimmed_start(lines[0]), "/*"@) {
                &&& text::ends(text::trimmed(lines[at - 1]), "*/"@)
                &&& forall|k: int|
                    0 <= k < at - 1 ==> !text::ends(text::trimmed(#[trigger] lines[k]), "*/"@)
            } else {
                &&& comment_text(lines[at]) is None
                &&& forall|k: int| 0 <= k < at ==> comment_text(#[trigger] lines[k]) is Some
            },
{
    let (docs, at) = comment_of(lines);
    assert(lines.len() > 0);
    if block_form(lines) {
        lemma_close_line(lines, 0);
        assert(closes(lines[at - 1]));
        assert forall|k: int| 0 <= k < at - 1 implies !text::ends(
            text::trimmed(#[trigger] lines[k]),
            "*/"@,
        ) by {
            assert(!closes(lines[k]));
        }
    } else {
        lemma_comment_texts(lines, 0);
        assert forall|k: int| 0 <= k < at implies comment_text(#[trigger] lines[k]) is Some by {
            assert(comment_text(lines[0 + k]) == Some(docs[k]));
        }
    }
    assert(code == text::joined(lines.skip(at), seq!['\n']));
}

/// The documentation of line comments is what they say up to the first empty
/// one, on one line.
pub proof fn law_documentation_is_the_first_paragraph(
    lines: Seq<Seq<char>>,
    doc: Seq<char>,
    code: Seq<char>,
)
    requires
        !block_form(lines),
        split_of(lines) == Some((doc, code)),
    ensures
        exists|said: Seq<Seq<char>>| #[trigger]
            text::joined(said, seq![' ']) == doc && said.len() < lines.len() && (forall|k: int|
                0 <= k < said.len() ==> comment_text(#[trigger] lines[k]) == Some(said[k])
                    && said[k].len() > 0) && (comment_text(lines[said.len() as int]) matches Some(t)
                ==> t.len() == 0),
{
    let docs = comment_of(lines).0;
    lemma_comment_texts(lines, 0);
    let n = lemma_first_paragraph(docs);
    let said = docs.take(n);
    assert forall|k: int| 0 <= k < said.len() implies comment_text(#[trigger] lines[k]) == Some(
        said[k],
    ) && said[k].len() > 0 by {
        assert(comment_text(lines[0 + k]) == Some(docs[k]));
        assert(docs[k].len() > 0);
    }
    if n < docs.len() {
        assert(comment_text(lines[0 + n]) == Some(docs[n]));
    }
    assert(text::joined(said, seq![' ']) == doc);
}

/// What line comments are: `///`, `//!` and `#` open one, and it says what
/// follows them, without white space around; `#!` and `#[` open none.
pub proof fn law_line_comments(t: Seq<char>)
    ensures
        comment_text(seq!['/', '/', '/'] + t) == Some(text::trimmed(t)),
        comment_text(seq!['/', '/', '!'] + t) == Some(text::trimmed(t)),
        t.len() > 0 && (t[0] == '!' || t[0] == '[') ==> comment_text(seq!['#'] + t) is None,
        !(t.len() > 0 && (t[0] == '!' || t[0] == '[')) ==> comment_text(seq!['#'] + t) == Some(
            text::trimmed(t),
        ),
{
    reveal_strlit("///");
    reveal_strlit("//!");
    reveal_strlit("#!");
    reveal_strlit("#[");
    let a = seq!['/', '/', '/'] + t;
    let b = seq!['/', '/', '!'] + t;
    let c = seq!['#'] + t;
    assert(!text::white('/') && !text::white('#'));
    assert(text::trimmed_start(a) == a && text::trimmed_start(b) == b && text::trimmed_start(c) == c);
    assert(a.take(3) =~= "///"@);
    assert(b.take(3) =~= "//!"@);
    assert(b.take(3)[2] != "///"@[2]);
    assert(a.skip(3) =~= t && b.skip(3) =~= t && c.skip(1) =~= t);
    if c.len() >= 3 {
        assert(c.take(3)[0] == '#');
    }
    if c.len() >= 2 {
        assert(c.take(2)[0] == '#' && c.take(2)[1] == t[0]);
        if t[0] == '!' {
            assert(c.take(2) =~= "#!"@);
        }
        if t[0] == '[' {
            assert(c.take(2) =~= "#["@);
        }
    }
}

/// The documentation of a block comment: what its lines say, blank ones left
/// out, up to the first line that closes it. The code is what follows.
pub proof fn law_block_documentation(lines: Seq<Seq<char>>, doc: Seq<char>, code: Seq<char>)
    requires
        block_form(lines),
        split_of(lines) == Some((doc, code)),
    ensures
        exists|c: int|
            {
                &&& 0 <= c < lines.len()
                &&& text::ends(text::trimmed(lines[c]), "*/"@)
                &&& forall|k: int|
                    0 <= k < c ==> !text::ends(text::trimmed(#[trigger] lines[k]), "*/"@)
                &&& doc == text::joined(
                    lines.take(c + 1).map_values(|l: Seq<char>| block_text(l)).filter(
                        |l: Seq<char>| l.len() > 0,
                    ),
                    seq![' '],
                )
                &&& code == text::joined(#[trigger] lines.skip(c + 1), seq!['\n'])
            },
{
    let c = close_line(lines, 0);
    lemma_closing(lines, 0);
    assert(c < lines.len());
    lemma_block_filter(lines, c + 1);
    lemma_whole_paragraph(block_lines(lines, c + 1));
    assert(lines.skip(c + 1) == lines.skip(comment_of(lines).1));
}

proof fn lemma_closing(lines: Seq<Seq<char>>, i: int)
    requires
        0 <= i <= lines.len(),
    ensures
        i <= close_line(lines, i) <= lines.len(),
        close_line(lines, i) < lines.len() ==> closes(lines[close_line(lines, i)]),
        forall|k: int| i <= k < close_line(lines, i) ==> !closes(#[trigger] lines[k]),
    decreases lines.len() - i,
{
    if i < lines.len() && !closes(lines[i]) {
        lemma_closing(lines, i + 1);
    }
}

proof fn lemma_block_filter(lines: Seq<Seq<char>>, n: int)
    requires
        0 <= n <= lines.len(),
    ensures
        block_lines(lines, n) == lines.take(n).map_values(|l: Seq<char>| block_text(l)).filter(
            |l: Seq<char>| l.len() > 0,
        ),
        forall|i: int|
            0 <= i < block_lines(lines, n).len() ==> (#[trigger] block_lines(lines, n)[i]).len() > 0,
    decreases n,
{
    reveal(Seq::filter);
    let f = |l: Seq<char>| block_text(l);
    let g = |l: Seq<char>| l.len() > 0;
    let all = lines.take(n).map_values(f);
    if n > 0 {
        lemma_block_filter(lines, n - 1);
        assert(all.drop_last() =~= lines.take(n - 1).map_values(f));
        assert(all.last() == block_text(lines[n - 1]));
    } else {
        assert(all.filter(g) =~= Seq::<Seq<char>>::empty());
    }
}

proof fn lemma_whole_paragraph(lines: Seq<Seq<char>>)
    requires
        forall|i: int| 0 <= i < lines.len() ==> (#[trigger] lines[i]).len() > 0,
    ensures
        first_paragraph(lines) == lines,
    decreases lines.len(),
{
    if lines.len() > 0 {
        let rest = lines.drop_first();
        assert forall|i: int| 0 <= i < rest.len() implies (#[trigger] rest[i]).len() > 0 by {
            assert(rest[i] == lines[i + 1]);
        }
        lemma_whole_paragraph(rest);
        assert(lines[0].len() > 0);
        assert(seq![lines[0]] + rest =~= lines);
    } else {
        assert(first_paragraph(lines) =~= lines);
    }
}

/// What a line of a block comment says: the text without the marks that open the
/// comment or continue it.
pub proof fn law_block_lines(t: Seq<char>)
    requires
        t.len() > 0,
        !text::white(t[0]),
        !text::white(t.last()),
        t[0] != '*',
        t[0] != '/',
        !text::ends(t, "*/"@),
    ensures
        block_text(t) == t,
        block_text(seq!['*', ' '] + t) == t,
        block_text(seq!['/', '*', ' '] + t) == t,
        block_text(seq!['/', '*', '*', ' '] + t) == t,
{
    reveal_strlit("/**");
    reveal_strlit("/*");
    reveal_strlit("*/");
    let none = Seq::<char>::empty();
    let gap = seq![' '];
    lemma_said(none, t);
    assert(none + t =~= t);
    lemma_said(gap, t);
    let a = seq!['*', ' '] + t;
    let b = seq!['/', '*', ' '] + t;
    let c = seq!['/', '*', '*', ' '] + t;
    let u = gap + t;
    lemma_kept_whole(a, t);
    lemma_kept_whole(b, t);
    lemma_kept_whole(c, t);
    if text::begins(t, "/**"@) {
        assert(t.take(3)[0] == t[0]);
    }
    if text::begins(t, "/*"@) {
        assert(t.take(2)[0] == t[0]);
    }
    if text::begins(a, "/**"@) {
        assert(a.take(3)[0] == a[0]);
    }
    if text::begins(a, "/*"@) {
        assert(a.take(2)[0] == a[0]);
    }
    if text::begins(u, "/**"@) {
        assert(u.take(3)[0] == u[0]);
    }
    if text::begins(u, "/*"@) {
        assert(u.take(2)[0] == u[0]);
    }
    if text::begins(b, "/**"@) {
        assert(b.take(3)[2] == b[2]);
    }
    assert(b.take(2) =~= "/*"@);
    assert(b.skip(2) =~= u);
    assert(c.take(3) =~= "/**"@);
    assert(c.skip(3) =~= u);
    assert(drop_prefixes(u, "/**"@) == u);
    assert(drop_prefixes(u, "/*"@) == u);
    assert(drop_prefixes(b, "/**"@) == b);
    assert(text::begins(b, "/*"@));
    assert(drop_prefixes(b, "/*"@) == u);
    assert(text::begins(c, "/**"@));
    assert(drop_prefixes(c, "/**"@) == u);
    assert(!text::ends(a, "*/"@)) by {
        if text::ends(a, "*/"@) {
            let n = a.len();
            assert(a.skip(n - 2)[0] == a[n - 2]);
            assert(a.skip(n - 2)[1] == a[n - 1]);
            if t.len() >= 2 {
                assert(t.skip(t.len() - 2) =~= a.skip(n - 2));
            }
        }
    }
    assert(drop_suffixes(a, "*/"@) == a);
    assert(a.drop_first() =~= u);
    assert(text::skip_while(u, text::just('*')) == u);
    assert(text::skip_while(a, text::just('*')) == u);
}

/// A text that begins and ends with something is its own trimming.
proof fn lemma_kept_whole(s: Seq<char>, t: Seq<char>)
    requires
        s.len() > t.len() > 0,
        s.last() == t.last(),
        !text::white(t.last()),
        s[0] == '*' || s[0] == '/',
    ensures
        text::trimmed(s) == s,
{
}

/// White space before what a line says does not count.
proof fn lemma_said(lead: Seq<char>, t: Seq<char>)
    requires
        lead.len() <= 1,
        lead.len() == 1 ==> lead[0] == ' ',
        t.len() > 0,
        !text::white(t[0]),
        !text::white(t.last()),
        t[0] != '*',
        !text::ends(t, "*/"@),
    ensures
        drop_suffixes(lead + t, "*/"@) == lead + t,
        text::skip_while(lead + t, text::just('*')) == lead + t,
        text::trimmed(lead + t) == t,
{
    reveal_strlit("*/");
    let u = lead + t;
    let n = u.len();
    assert(u[0] == if lead.len() == 1 {
        ' '
    } else {
        t[0]
    });
    assert(u.last() == t.last());
    if text::ends(u, "*/"@) {
        assert(u.skip(n - 2)[0] == u[n - 2]);
        assert(u.skip(n - 2)[1] == u[n - 1]);
        if t.len() >= 2 {
            assert(t.skip(t.len() - 2) =~= u.skip(n - 2));
        }
    }
    assert forall|i: int| 0 <= i < lead.len() implies text::white(#[trigger] lead[i]) by {}
    text::lemma_skip_head(lead, t, text::white_fn());
}

} // verus!
