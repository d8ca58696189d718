//! Splitting a source file into retrievable chunks.
//!
//! A chunk is a declaration with the comments and attributes above it, or a
//! slice of a file without recognizable declarations. Its line range is
//! 1-based and inclusive.

use crate::indexer::InputDoc;
use crate::text;
use vstd::prelude::*;
use vstd::slice::slice_subrange;

verus! {

/// A chunk of more lines than this is split.
pub const MAX_CHUNK_LINES: usize = 200;

/// Bodies are cut off here before indexing.
pub const MAX_CHUNK_BYTES: usize = 8192;

/// One indexable unit of source.
pub struct Chunk {
    /// Repo-relative path, forward-slashed.
    pub path: String,
    /// First line, counted from one.
    pub start_line: usize,
    /// Last line, counted from one.
    pub end_line: usize,
    /// Declaration name, when one was found.
    pub name: Option<String>,
    pub body: String,
}

/// A chunk as a value.
pub struct ChunkModel {
    pub path: Seq<char>,
    pub start_line: nat,
    pub end_line: nat,
    pub name: Option<Seq<char>>,
    pub body: Seq<char>,
}

pub open spec fn name_view(name: Option<String>) -> Option<Seq<char>> {
    match name {
        Some(s) => Some(s@),
        None => None,
    }
}

impl View for Chunk {
    type V = ChunkModel;

    open spec fn view(&self) -> ChunkModel {
        ChunkModel {
            path: self.path@,
            start_line: self.start_line as nat,
            end_line: self.end_line as nat,
            name: name_view(self.name),
            body: self.body@,
        }
    }
}

pub open spec fn chunk_views(chunks: Seq<Chunk>) -> Seq<ChunkModel> {
    Seq::new(chunks.len(), |i: int| chunks[i]@)
}

/// `path:start-end`.
pub open spec fn id_text(path: Seq<char>, start: nat, end: nat) -> Seq<char> {
    path + seq![':'] + text::decimal(start) + seq!['-'] + text::decimal(end)
}

/// The human-facing label of a chunk.
pub open spec fn title_text(c: ChunkModel) -> Seq<char> {
    match c.name {
        Some(n) => c.path + "::"@ + n,
        None => c.path,
    }
}

impl Chunk {
    /// `path:start-end`: the external document id, and a location.
    pub fn id(&self) -> (s: String)
        ensures
            s@ == id_text(self@.path, self@.start_line, self@.end_line),
    {
        let mut out = text::chars_of(self.path.as_str());
        out.push(':');
        text::push_decimal(&mut out, self.start_line as u64);
        out.push('-');
        text::push_decimal(&mut out, self.end_line as u64);
        assert(out@ =~= id_text(self@.path, self@.start_line, self@.end_line));
        text::string_of(out.as_slice())
    }

    /// The declaration name qualified by its file, or the file.
    pub fn title(&self) -> (s: String)
        ensures
            s@ == title_text(self@),
    {
        let mut out = text::chars_of(self.path.as_str());
        if let Some(name) = &self.name {
            text::append_str(&mut out, "::");
            text::append_str(&mut out, name.as_str());
        }
        text::string_of(out.as_slice())
    }

    /// The document that is indexed for the chunk.
    pub fn into_doc(self) -> (d: InputDoc)
        ensures
            d.id@ == id_text(self@.path, self@.start_line, self@.end_line),
            d.title@ == title_text(self@),
            d.body@ == self@.body,
    {
        let id = self.id();
        let title = self.title();
        InputDoc { id, title, body: self.body }
    }
}

/// The location that an id spells: the path is everything before the last
/// colon, the lines stand around the first dash after it.
pub open spec fn is_location(id: Seq<char>, path: Seq<char>, start: nat, end: nat) -> bool {
    exists|c: int, d: int| #[trigger] location_at(id, c, d, path, start, end)
}

pub open spec fn location_at(
    id: Seq<char>,
    c: int,
    d: int,
    path: Seq<char>,
    start: nat,
    end: nat,
) -> bool {
    &&& text::last_at(id, ':', c)
    &&& text::first_at(id.skip(c + 1), '-', d)
    &&& path == id.take(c)
    &&& text::number(id.skip(c + 1).take(d), usize::MAX as nat) == Some(start)
    &&& text::number(id.skip(c + 1).skip(d + 1), usize::MAX as nat) == Some(end)
}

/// An id spells at most one location.
pub proof fn law_location_unique(
    id: Seq<char>,
    p1: Seq<char>,
    s1: nat,
    e1: nat,
    p2: Seq<char>,
    s2: nat,
    e2: nat,
)
    requires
        is_location(id, p1, s1, e1),
        is_location(id, p2, s2, e2),
    ensures
        p1 == p2,
        s1 == s2,
        e1 == e2,
{
    let (c1, d1) = choose|c: int, d: int| #[trigger] location_at(id, c, d, p1, s1, e1);
    let (c2, d2) = choose|c: int, d: int| #[trigger] location_at(id, c, d, p2, s2, e2);
    assert(c1 == c2) by {
        if c1 < c2 {
            assert(id[c2] != ':');
        }
        if c2 < c1 {
            assert(id[c1] != ':');
        }
    }
    let rest = id.skip(c1 + 1);
    assert(d1 == d2) by {
        if d1 < d2 {
            assert(rest[d1] != '-');
        }
        if d2 < d1 {
            assert(rest[d2] != '-');
        }
    }
}

/// Parse a chunk id back into its location.
pub fn parse_id(id: &str) -> (r: Option<(&str, usize, usize)>)
    ensures
        r matches Some(l) ==> is_location(id@, l.0@, l.1 as nat, l.2 as nat),
        r is None ==> forall|path: Seq<char>, start: nat, end: nat|
            !is_location(id@, path, start, end),
{
    let s = text::chars_of(id);
    let n: usize = s.len();
    let c: usize = match text::rfind(s.as_slice(), ':') {
        Some(c) => c,
        None => {
            return None;
        },
    };
    let range: &[char] = slice_subrange(s.as_slice(), c + 1, n);
    assert(range@ =~= id@.skip(c + 1));
    let d: usize = match text::find(range, '-') {
        Some(d) => d,
        None => {
            assert forall|path: Seq<char>, start: nat, end: nat| !is_location(
                id@,
                path,
                start,
                end,
            ) by {
                assert forall|c2: int, d2: int| !#[trigger] location_at(
                    id@,
                    c2,
                    d2,
                    path,
                    start,
                    end,
                ) by {
                    if location_at(id@, c2, d2, path, start, end) {
                        lemma_last_unique(id@, ':', c as int, c2);
                    }
                }
            }
            return None;
        },
    };
    let first: &[char] = slice_subrange(range, 0, d);
    let second: &[char] = slice_subrange(range, d + 1, range.len());
    assert(first@ =~= range@.take(d as int));
    assert(second@ =~= range@.skip(d + 1));
    let start = text::parse_number(first, usize::MAX as u64);
    let end = text::parse_number(second, usize::MAX as u64);
    match (start, end) {
        (Some(start), Some(end)) => {
            let head: &str = id.substring_char(0, c);
            assert(head@ =~= id@.take(c as int));
            assert(location_at(id@, c as int, d as int, head@, start as nat, end as nat));
            Some((head, start as usize, end as usize))
        },
        _ => {
            assert forall|path: Seq<char>, start: nat, end: nat| !is_location(
                id@,
                path,
                start,
                end,
            ) by {
                assert forall|c2: int, d2: int| !#[trigger] location_at(
                    id@,
                    c2,
                    d2,
                    path,
                    start,
                    end,
                ) by {
                    if location_at(id@, c2, d2, path, start, end) {
                        lemma_last_unique(id@, ':', c as int, c2);
                        lemma_first_unique(range@, '-', d as int, d2);
                    }
                }
            }
            None
        },
    }
}

proof fn lemma_last_unique(s: Seq<char>, c: char, i: int, j: int)
    requires
        text::last_at(s, c, i),
        text::last_at(s, c, j),
    ensures
        i == j,
{
    if i < j {
        assert(s[j] != c);
    }
    if j < i {
        assert(s[i] != c);
    }
}

proof fn lemma_first_unique(s: Seq<char>, c: char, i: int, j: int)
    requires
        text::first_at(s, c, i),
        text::first_at(s, c, j),
    ensures
        i == j,
{
    if i < j {
        assert(s[i] != c);
    }
    if j < i {
        assert(s[j] != c);
    }
}

/// The id of a chunk spells its location, whatever its path holds.
pub proof fn law_id_round_trip(path: Seq<char>, start: nat, end: nat)
    requires
        start <= usize::MAX,
        end <= usize::MAX,
    ensures
        is_location(id_text(path, start, end), path, start, end),
{
    let id = id_text(path, start, end);
    let c = path.len() as int;
    let ds = text::decimal(start);
    let de = text::decimal(end);
    text::law_decimal_round_trip(start, usize::MAX as nat);
    text::law_decimal_round_trip(end, usize::MAX as nat);
    let range = id.skip(c + 1);
    assert(range =~= ds + seq!['-'] + de);
    let d = ds.len() as int;
    assert(id[c] == ':');
    assert forall|k: int| c < k < id.len() implies #[trigger] id[k] != ':' by {
        assert(id[k] == range[k - c - 1]);
        if k - c - 1 < d {
            assert(range[k - c - 1] == ds[k - c - 1]);
        } else if k - c - 1 > d {
            assert(range[k - c - 1] == de[k - c - 1 - d - 1]);
        }
    }
    assert forall|k: int| 0 <= k < d implies #[trigger] range[k] != '-' by {
        assert(range[k] == ds[k]);
    }
    assert(range.take(d) =~= ds);
    assert(range.skip(d + 1) =~= de);
    assert(id.take(c) =~= path);
    assert(location_at(id, c, d, path, start, end));
}

/// How many lines a location asks for, at most `max_lines`.
pub open spec fn wanted(start: nat, end: nat, max_lines: nat) -> nat {
    let n = if end + 1 > start {
        (end + 1 - start) as nat
    } else {
        0
    };
    if n < max_lines {
        n
    } else {
        max_lines
    }
}

/// The lines of `lines` from the 1-based `start` on, at most `n` of them.
pub open spec fn line_window(lines: Seq<Seq<char>>, start: nat, n: nat) -> Seq<Seq<char>> {
    let lo: int = if start > 0 {
        start - 1
    } else {
        0
    };
    let hi: int = if lo + n < lines.len() {
        lo + n
    } else {
        lines.len() as int
    };
    if lo < hi {
        lines.subrange(lo, hi)
    } else {
        Seq::empty()
    }
}

/// The lines that a location points at in `text`, joined; `None` when the
/// range no longer exists.
pub fn snippet_lines(text: &str, start: usize, end: usize, max_lines: usize) -> (r: Option<String>)
    ensures
        ({
            let window = line_window(
                text::lines(text@),
                start as nat,
                wanted(start as nat, end as nat, max_lines as nat),
            );
            &&& r is None <==> window.len() == 0
            &&& r matches Some(s) ==> s@ == text::joined(window, seq!['\n'])
        }),
{
    let chars = text::chars_of(text);
    let lines = text::split_lines(chars.as_slice());
    let take: usize = if end >= start {
        if end - start < max_lines { (end - start) + 1 } else { max_lines }
    } else {
        0
    };
    let lo: usize = if start > 0 { start - 1 } else { 0 };
    let n: usize = lines.len();
    assert(text::views(lines@).len() == n);
    if lo >= n || take == 0 {
        return None;
    }
    let hi: usize = if take < n - lo { lo + take } else { n };
    let body = text::join_range(&lines, lo, hi, '\n');
    Some(text::string_of(body.as_slice()))
}

// ---------------------------------------------------------------------------
// Declarations
// ---------------------------------------------------------------------------

/// Words that introduce a named declaration.
pub open spec fn decl_keyword(w: Seq<char>) -> bool {
    ||| w == "fn"@
    ||| w == "def"@
    ||| w == "function"@
    ||| w == "func"@
    ||| w == "class"@
    ||| w == "struct"@
    ||| w == "impl"@
    ||| w == "interface"@
    ||| w == "enum"@
    ||| w == "mod"@
    ||| w == "trait"@
    ||| w == "type"@
    ||| w == "package"@
}

fn is_decl_keyword(w: &[char]) -> (r: bool)
    ensures
        r == decl_keyword(w@),
{
    text::is(w, "fn") || text::is(w, "def") || text::is(w, "function") || text::is(w, "func")
        || text::is(w, "class") || text::is(w, "struct") || text::is(w, "impl") || text::is(
        w,
        "interface",
    ) || text::is(w, "enum") || text::is(w, "mod") || text::is(w, "trait") || text::is(w, "type")
        || text::is(w, "package")
}

/// Words that may stand before a declaration keyword.
pub open spec fn modifier(w: Seq<char>) -> bool {
    ||| w == "pub"@
    ||| w == "export"@
    ||| w == "default"@
    ||| w == "async"@
    ||| w == "public"@
    ||| w == "private"@
    ||| w == "protected"@
    ||| w == "internal"@
    ||| w == "static"@
    ||| w == "final"@
    ||| w == "abstract"@
    ||| w == "unsafe"@
    ||| w == "extern"@
    ||| w == "const"@
    ||| w == "open"@
    ||| w == "override"@
    ||| w == "suspend"@
    ||| w == "inline"@
}

fn is_modifier(w: &[char]) -> (r: bool)
    ensures
        r == modifier(w@),
{
    text::is(w, "pub") || text::is(w, "export") || text::is(w, "default") || text::is(w, "async")
        || text::is(w, "public") || text::is(w, "private") || text::is(w, "protected") || text::is(
        w,
        "internal",
    ) || text::is(w, "static") || text::is(w, "final") || text::is(w, "abstract") || text::is(
        w,
        "unsafe",
    ) || text::is(w, "extern") || text::is(w, "const") || text::is(w, "open") || text::is(
        w,
        "override",
    ) || text::is(w, "suspend") || text::is(w, "inline")
}

/// The characters of a word.
pub open spec fn word_char(c: char) -> bool {
    text::alphanumeric(c) || c == '_'
}

/// The characters of a possibly qualified name.
pub open spec fn ident_char(c: char) -> bool {
    word_char(c) || c == '.' || c == ':'
}

pub open spec fn word_fn() -> spec_fn(char) -> bool {
    |c: char| word_char(c)
}

pub open spec fn ident_fn() -> spec_fn(char) -> bool {
    |c: char| ident_char(c)
}

pub open spec fn other_than(x: char) -> spec_fn(char) -> bool {
    |c: char| c != x
}

fn word_len(s: &[char]) -> (n: usize)
    ensures
        n == text::run_len(s@, word_fn()),
        n <= s@.len(),
{
    let mut i: usize = 0;
    assert(s@.skip(0) =~= s@);
    while i < s.len() && (s[i].is_alphanumeric() || s[i] == '_')
        invariant
            i <= s@.len(),
            text::run_len(s@, word_fn()) == i + text::run_len(s@.skip(i as int), word_fn()),
        decreases s@.len() - i,
    {
        assert(s@.skip(i as int).drop_first() =~= s@.skip(i + 1));
        i += 1;
    }
    i
}

fn ident_len(s: &[char]) -> (n: usize)
    ensures
        n == text::run_len(s@, ident_fn()),
        n <= s@.len(),
{
    let mut i: usize = 0;
    assert(s@.skip(0) =~= s@);
    while i < s.len() && (s[i].is_alphanumeric() || s[i] == '_' || s[i] == '.' || s[i] == ':')
        invariant
            i <= s@.len(),
            text::run_len(s@, ident_fn()) == i + text::run_len(s@.skip(i as int), ident_fn()),
        decreases s@.len() - i,
    {
        assert(s@.skip(i as int).drop_first() =~= s@.skip(i + 1));
        i += 1;
    }
    i
}

fn len_until(s: &[char], x: char) -> (n: usize)
    ensures
        n == text::run_len(s@, other_than(x)),
        n <= s@.len(),
{
    let mut i: usize = 0;
    assert(s@.skip(0) =~= s@);
    while i < s.len() && s[i] != x
        invariant
            i <= s@.len(),
            text::run_len(s@, other_than(x)) == i + text::run_len(
                s@.skip(i as int),
                other_than(x),
            ),
        decreases s@.len() - i,
    {
        assert(s@.skip(i as int).drop_first() =~= s@.skip(i + 1));
        i += 1;
    }
    i
}

/// The name that `s` begins with, colons at its end dropped.
pub open spec fn leading_ident(s: Seq<char>) -> Option<Seq<char>> {
    let ident = text::cut_while(
        s.take(text::run_len(s, ident_fn()) as int),
        text::just(':'),
    );
    if ident.len() == 0 {
        None
    } else {
        Some(ident)
    }
}

fn read_ident(s: &[char]) -> (r: Option<String>)
    ensures
        name_view(r) == leading_ident(s@),
{
    let end: usize = ident_len(s);
    let head: &[char] = slice_subrange(s, 0, end);
    assert(head@ =~= s@.take(end as int));
    let ident: &[char] = text::trim_end_char(head, ':');
    if ident.len() == 0 {
        None
    } else {
        Some(text::string_of(ident))
    }
}

/// The name declared by `rest`: modifiers, each with an optional qualifier
/// in parentheses, then a keyword, then the name.
pub open spec fn declared(rest: Seq<char>) -> Option<Seq<char>>
    decreases rest.len(),
{
    let n = text::run_len(rest, word_fn());
    let word = rest.take(n as int);
    let after = text::trimmed_start(rest.skip(n as int));
    proof {
        text::lemma_run_len_bound(rest, word_fn());
        text::lemma_skip_while_shorter(rest.skip(n as int), text::white_fn());
    }
    if n == 0 {
        None
    } else if decl_keyword(word) {
        leading_ident(after)
    } else if !modifier(word) {
        None
    } else if after.len() > 0 && after[0] == '(' {
        let close = text::run_len(after, other_than(')'));
        proof {
            text::lemma_run_len_bound(after, other_than(')'));
            text::lemma_skip_while_shorter(after.skip(close as int + 1), text::white_fn());
        }
        if close == after.len() {
            None
        } else {
            declared(text::trimmed_start(after.skip(close as int + 1)))
        }
    } else {
        declared(after)
    }
}

/// The name that a line declares, if it opens a declaration. Comment lines
/// open none.
pub open spec fn declaration(line: Seq<char>) -> Option<Seq<char>> {
    let rest = text::trimmed_start(line);
    if rest.len() == 0 || text::begins(rest, "//"@) || (rest[0] == '#' && !text::begins(
        rest,
        "#["@,
    )) {
        None
    } else {
        declared(rest)
    }
}

/// If a line opens a declaration, its name.
pub fn declaration_name(line: &[char]) -> (r: Option<String>)
    ensures
        name_view(r) == declaration(line@),
{
    let mut rest: &[char] = text::trim_start(line);
    if rest.len() == 0 || text::starts_with(rest, "//") || (rest[0] == '#' && !text::starts_with(
        rest,
        "#[",
    )) {
        return None;
    }
    loop
        invariant
            declaration(line@) == declared(rest@),
        decreases rest@.len(),
    {
        let n: usize = word_len(rest);
        if n == 0 {
            return None;
        }
        let word: &[char] = slice_subrange(rest, 0, n);
        let tail: &[char] = slice_subrange(rest, n, rest.len());
        assert(word@ =~= rest@.take(n as int));
        assert(tail@ =~= rest@.skip(n as int));
        let after: &[char] = text::trim_start(tail);
        proof {
            text::lemma_skip_while_shorter(tail@, text::white_fn());
        }
        if is_decl_keyword(word) {
            return read_ident(after);
        }
        if !is_modifier(word) {
            return None;
        }
        if after.len() > 0 && after[0] == '(' {
            let close: usize = len_until(after, ')');
            if close == after.len() {
                return None;
            }
            let behind: &[char] = slice_subrange(after, close + 1, after.len());
            assert(behind@ =~= after@.skip(close as int + 1));
            proof {
                text::lemma_skip_while_shorter(behind@, text::white_fn());
            }
            rest = text::trim_start(behind);
        } else {
            rest = after;
        }
    }
}

/// Lines that document or annotate the declaration below them.
pub open spec fn doc_or_attr(line: Seq<char>) -> bool {
    let t = text::trimmed_start(line);
    ||| text::begins(t, "//"@)
    ||| text::begins(t, "*"@)
    ||| text::begins(t, "/*"@)
    ||| text::begins(t, "#["@)
    ||| text::begins(t, "@"@)
    ||| text::begins(t, "#"@) && !text::begins(t, "#!"@)
}

fn is_doc_or_attr(line: &[char]) -> (r: bool)
    ensures
        r == doc_or_attr(line@),
{
    let t: &[char] = text::trim_start(line);
    text::starts_with(t, "//") || text::starts_with(t, "*") || text::starts_with(t, "/*")
        || text::starts_with(t, "#[") || text::starts_with(t, "@") || (text::starts_with(t, "#")
        && !text::starts_with(t, "#!"))
}

// ---------------------------------------------------------------------------
// Chunking
// ---------------------------------------------------------------------------

/// Bytes that a character takes in UTF-8.
pub open spec fn width(c: char) -> nat {
    let n = c as u32;
    if n < 0x80 {
        1
    } else if n < 0x800 {
        2
    } else if n < 0x1_0000 {
        3
    } else {
        4
    }
}

/// Bytes that a text takes in UTF-8.
pub open spec fn byte_len(s: Seq<char>) -> nat
    decreases s.len(),
{
    if s.len() == 0 {
        0
    } else {
        byte_len(s.drop_last()) + width(s.last())
    }
}

/// The last character, from the `i`th on, that begins within `max` bytes.
pub open spec fn cut(s: Seq<char>, max: nat, i: int) -> int
    decreases s.len() - i,
{
    if i + 1 < s.len() && byte_len(s.take(i + 1)) <= max {
        cut(s, max, i + 1)
    } else {
        i
    }
}

/// A text of more than `max` bytes ends before the last character that
/// begins within them.
pub open spec fn clipped(s: Seq<char>, max: nat) -> Seq<char> {
    if byte_len(s) <= max {
        s
    } else {
        s.take(cut(s, max, 0))
    }
}

fn char_width(c: char) -> (n: usize)
    ensures
        n == width(c),
{
    let n: u32 = c as u32;
    if n < 0x80 {
        1
    } else if n < 0x800 {
        2
    } else if n < 0x1_0000 {
        3
    } else {
        4
    }
}

fn clip(s: &[char]) -> (r: &[char])
    ensures
        r@ == clipped(s@, MAX_CHUNK_BYTES as nat),
{
    let n: usize = s.len();
    let mut pos: usize = 0;
    let mut i: usize = 0;
    let ghost max = MAX_CHUNK_BYTES as nat;
    assert(s@.take(0) =~= Seq::<char>::empty());
    while i < n && pos <= MAX_CHUNK_BYTES
        invariant
            n == s@.len(),
            i <= n,
            max == MAX_CHUNK_BYTES,
            pos == byte_len(s@.take(i as int)),
            pos <= MAX_CHUNK_BYTES + 4,
            pos > MAX_CHUNK_BYTES ==> i >= 1,
            i >= 1 ==> cut(s@, max, 0) == cut(s@, max, i - 1),
        decreases n - i,
    {
        proof {
            assert(s@.take(i + 1).drop_last() =~= s@.take(i as int));
            assert(s@.take(i + 1).last() == s@[i as int]);
        }
        pos += char_width(s[i]);
        i += 1;
    }
    if pos <= MAX_CHUNK_BYTES {
        assert(s@.take(i as int) =~= s@);
        return s;
    }
    let r: &[char] = slice_subrange(s, 0, i - 1);
    proof {
        lemma_byte_len_grows(s@, i as int);
        assert(r@ =~= s@.take(i - 1));
    }
    r
}

proof fn lemma_byte_len_grows(s: Seq<char>, i: int)
    requires
        0 <= i <= s.len(),
    ensures
        byte_len(s.take(i)) <= byte_len(s),
    decreases s.len(),
{
    if i < s.len() {
        lemma_byte_len_grows(s.drop_last(), i);
        assert(s.drop_last().take(i) =~= s.take(i));
    } else {
        assert(s.take(i) =~= s);
    }
}

/// The lines among the first `n` that open a declaration.
pub open spec fn decl_lines(lines: Seq<Seq<char>>, n: int) -> Seq<int>
    decreases n,
{
    if n <= 0 {
        Seq::empty()
    } else if declaration(lines[n - 1]) is Some {
        decl_lines(lines, n - 1).push(n - 1)
    } else {
        decl_lines(lines, n - 1)
    }
}

/// All lines that open a declaration.
pub open spec fn all_decls(lines: Seq<Seq<char>>) -> Seq<int> {
    decl_lines(lines, lines.len() as int)
}

/// `at` moved up over the comment and attribute lines above it, not beyond
/// `floor`.
pub open spec fn pulled(lines: Seq<Seq<char>>, at: int, floor: int) -> int
    decreases at - floor,
{
    if at > floor && doc_or_attr(lines[at - 1]) {
        pulled(lines, at - 1, floor)
    } else {
        at
    }
}

/// Where the chunk of the `j`th declaration begins: at the comments and
/// attributes above it, but not above the declaration before it. The end of
/// the file when there are no more declarations.
pub open spec fn chunk_start(lines: Seq<Seq<char>>, j: int) -> int {
    let decls = all_decls(lines);
    if j < decls.len() {
        pulled(
            lines,
            decls[j],
            if j == 0 {
                0
            } else {
                decls[j - 1]
            },
        )
    } else {
        lines.len() as int
    }
}

pub open spec fn stop_line(at: int, end: int) -> int {
    if at + MAX_CHUNK_LINES < end {
        at + MAX_CHUNK_LINES
    } else {
        end
    }
}

/// The chunk of the lines from `at` below `stop`; none if they are blank.
pub open spec fn slice_chunk(
    rel: Seq<char>,
    lines: Seq<Seq<char>>,
    at: int,
    stop: int,
    name: Option<Seq<char>>,
) -> Seq<ChunkModel> {
    let body = text::joined(lines.subrange(at, stop), seq!['\n']);
    if text::trimmed(body).len() == 0 {
        Seq::empty()
    } else {
        seq![
            ChunkModel {
                path: rel,
                start_line: (at + 1) as nat,
                end_line: stop as nat,
                name,
                body: clipped(body, MAX_CHUNK_BYTES as nat),
            },
        ]
    }
}

/// The chunks of the lines from `at` below `end`, in slices of at most
/// `MAX_CHUNK_LINES`. Only the first slice has the name.
pub open spec fn split_chunks(
    rel: Seq<char>,
    lines: Seq<Seq<char>>,
    at: int,
    end: int,
    name: Option<Seq<char>>,
) -> Seq<ChunkModel>
    decreases end - at,
{
    if at >= end {
        Seq::empty()
    } else {
        let stop = stop_line(at, end);
        slice_chunk(rel, lines, at, stop, name) + split_chunks(rel, lines, stop, end, None)
    }
}

/// The chunks of the declarations from the `j`th on.
pub open spec fn decl_chunks(rel: Seq<char>, lines: Seq<Seq<char>>, j: int) -> Seq<ChunkModel>
    decreases all_decls(lines).len() - j,
{
    let decls = all_decls(lines);
    if j >= decls.len() {
        Seq::empty()
    } else {
        split_chunks(
            rel,
            lines,
            chunk_start(lines, j),
            chunk_start(lines, j + 1),
            declaration(lines[decls[j]]),
        ) + decl_chunks(rel, lines, j + 1)
    }
}

/// The chunks of a file: what stands before the first declaration, then each
/// declaration up to the next.
pub open spec fn file_chunks(rel: Seq<char>, lines: Seq<Seq<char>>) -> Seq<ChunkModel> {
    split_chunks(rel, lines, 0, chunk_start(lines, 0), None) + decl_chunks(rel, lines, 0)
}

proof fn lemma_decl_lines(lines: Seq<Seq<char>>, n: int)
    requires
        0 <= n <= lines.len(),
    ensures
        decl_lines(lines, n).len() <= n,
        forall|j: int|
            #![trigger decl_lines(lines, n)[j]]
            0 <= j < decl_lines(lines, n).len() ==> 0 <= decl_lines(lines, n)[j] < n && declaration(
                lines[decl_lines(lines, n)[j]],
            ) is Some,
        forall|i: int, j: int|
            #![trigger decl_lines(lines, n)[i], decl_lines(lines, n)[j]]
            0 <= i < j < decl_lines(lines, n).len() ==> decl_lines(lines, n)[i] < decl_lines(
                lines,
                n,
            )[j],
    decreases n,
{
    if n > 0 {
        lemma_decl_lines(lines, n - 1);
    }
}

proof fn lemma_pulled(lines: Seq<Seq<char>>, at: int, floor: int)
    requires
        floor <= at,
    ensures
        floor <= pulled(lines, at, floor) <= at,
        forall|k: int| pulled(lines, at, floor) <= k < at ==> doc_or_attr(#[trigger] lines[k]),
        pulled(lines, at, floor) > floor ==> !doc_or_attr(lines[pulled(lines, at, floor) - 1]),
    decreases at - floor,
{
    if at > floor && doc_or_attr(lines[at - 1]) {
        lemma_pulled(lines, at - 1, floor);
    }
}

proof fn lemma_chunk_start(lines: Seq<Seq<char>>, j: int)
    requires
        0 <= j <= all_decls(lines).len(),
    ensures
        0 <= chunk_start(lines, j) <= lines.len(),
        j > 0 ==> chunk_start(lines, j - 1) <= all_decls(lines)[j - 1] <= chunk_start(lines, j),
{
    let decls = all_decls(lines);
    lemma_decl_lines(lines, lines.len() as int);
    if j < decls.len() {
        lemma_pulled(
            lines,
            decls[j],
            if j == 0 {
                0
            } else {
                decls[j - 1]
            },
        );
    }
    if j > 0 {
        lemma_pulled(
            lines,
            decls[j - 1],
            if j == 1 {
                0
            } else {
                decls[j - 2]
            },
        );
    }
}

/// Append the lines from `start` below `end` as one or more chunks.
fn push_split(
    out: &mut Vec<Chunk>,
    rel: &str,
    lines: &Vec<Vec<char>>,
    start: usize,
    end: usize,
    name: Option<&String>,
)
    requires
        start <= end <= lines@.len(),
    ensures
        chunk_views(final(out)@) == chunk_views(old(out)@) + split_chunks(
            rel@,
            text::views(lines@),
            start as int,
            end as int,
            match name {
                Some(s) => Some(s@),
                None => None,
            },
        ),
{
    let ghost all = text::views(lines@);
    let ghost before = chunk_views(out@);
    let ghost label: Option<Seq<char>> = match name {
        Some(s) => Some(s@),
        None => None,
    };
    let ghost want = before + split_chunks(rel@, all, start as int, end as int, label);
    let mut at: usize = start;
    while at < end
        invariant
            start <= at <= end <= lines@.len(),
            all == text::views(lines@),
            label == match name {
                Some(s) => Some(s@),
                None => None,
            },
            chunk_views(out@) + split_chunks(
                rel@,
                all,
                at as int,
                end as int,
                if at == start {
                    label
                } else {
                    None
                },
            ) == want,
        decreases end - at,
    {
        let ghost pre = chunk_views(out@);
        let stop: usize = if end - at > MAX_CHUNK_LINES { at + MAX_CHUNK_LINES } else { end };
        let body = text::join_range(lines, at, stop, '\n');
        let trimmed: &[char] = text::trim(body.as_slice());
        let blank: bool = trimmed.len() == 0;
        let ghost given: Option<Seq<char>> = if at == start {
            label
        } else {
            None
        };
        assert(stop == stop_line(at as int, end as int));
        if !blank {
            let path = text::chars_of(rel);
            let own: Option<String> = match name {
                Some(s) if at == start => Some(s.clone()),
                _ => None,
            };
            let chunk = Chunk {
                path: text::string_of(path.as_slice()),
                start_line: at + 1,
                end_line: stop,
                name: own,
                body: text::string_of(clip(body.as_slice())),
            };
            assert(name_view(chunk.name) == given);
            out.push(chunk);
            assert(chunk_views(out@) =~= pre + slice_chunk(
                rel@,
                all,
                at as int,
                stop as int,
                given,
            ));
        } else {
            assert(chunk_views(out@) =~= pre + slice_chunk(
                rel@,
                all,
                at as int,
                stop as int,
                given,
            ));
        }
        proof {
            let a = slice_chunk(rel@, all, at as int, stop as int, given);
            let b = split_chunks(rel@, all, stop as int, end as int, None);
            assert(pre + (a + b) =~= (pre + a) + b);
        }
        at = stop;
    }
    proof {
        let last: Option<Seq<char>> = if at == start {
            label
        } else {
            None
        };
        assert(split_chunks(rel@, all, at as int, end as int, last) =~= Seq::<ChunkModel>::empty());
        assert(chunk_views(out@) =~= want);
    }
}

spec fn name_at(lines: Seq<Seq<char>>, starts: Seq<usize>, name: String, j: int) -> bool {
    starts[j] < lines.len() && declaration(lines[starts[j] as int]) == Some(name@)
}

spec fn names_match(lines: Seq<Seq<char>>, starts: Seq<usize>, names: Seq<String>) -> bool {
    forall|j: int| 0 <= j < names.len() ==> name_at(lines, starts, #[trigger] names[j], j)
}

/// Split one file's text into chunks with line ranges.
pub fn chunk_text(rel: &str, text: &str) -> (chunks: Vec<Chunk>)
    ensures
        chunk_views(chunks@) == file_chunks(rel@, text::lines(text@)),
{
    let chars = text::chars_of(text);
    let lines = text::split_lines(chars.as_slice());
    let ghost all = text::lines(text@);
    let ghost decls = all_decls(all);
    let n: usize = lines.len();
    let mut starts: Vec<usize> = Vec::new();
    let mut names: Vec<String> = Vec::new();
    let mut i: usize = 0;
    while i < n
        invariant
            i <= n,
            n == lines@.len(),
            all == text::views(lines@),
            starts@.len() == decl_lines(all, i as int).len(),
            names@.len() == starts@.len(),
            forall|j: int|
                0 <= j < starts@.len() ==> #[trigger] starts@[j] == decl_lines(all, i as int)[j],
            names_match(all, starts@, names@),
        decreases n - i,
    {
        assert(all[i as int] == lines@[i as int]@);
        let ghost starts0 = starts@;
        let ghost names0 = names@;
        if let Some(name) = declaration_name(lines[i].as_slice()) {
            starts.push(i);
            names.push(name);
            assert forall|j: int| 0 <= j < names@.len() implies name_at(
                all,
                starts@,
                #[trigger] names@[j],
                j,
            ) by {
                if j < names0.len() {
                    assert(name_at(all, starts0, names0[j], j));
                }
            }
        }
        i += 1;
    }
    proof {
        lemma_decl_lines(all, n as int);
    }
    // Each chunk begins at the comments and attributes above its declaration,
    // so that documentation travels with what it documents.
    let mut begins: Vec<usize> = Vec::new();
    let mut floor: usize = 0;
    let mut j: usize = 0;
    while j < starts.len()
        invariant
            n == lines@.len(),
            all == text::views(lines@),
            decls == all_decls(all),
            starts@.len() == decls.len(),
            forall|j: int| 0 <= j < starts@.len() ==> #[trigger] starts@[j] == decls[j],
            forall|j: int| 0 <= j < decls.len() ==> 0 <= #[trigger] decls[j] < n,
            forall|i: int, j: int| 0 <= i < j < decls.len() ==> #[trigger] decls[i] < #[trigger] decls[j],
            j <= starts@.len(),
            floor == (if j == 0 {
                0
            } else {
                decls[j - 1]
            }),
            begins@.len() == j,
            forall|k: int| 0 <= k < j ==> #[trigger] begins@[k] == chunk_start(all, k),
        decreases starts@.len() - j,
    {
        let start: usize = starts[j];
        let mut at: usize = start;
        proof {
            if j > 0 {
                assert(decls[j - 1] < decls[j as int]);
            }
        }
        while at > floor && is_doc_or_attr(lines[at - 1].as_slice())
            invariant
                floor <= at <= start < n,
                n == lines@.len(),
                all == text::views(lines@),
                pulled(all, start as int, floor as int) == pulled(all, at as int, floor as int),
            decreases at,
        {
            assert(all[at - 1] == lines@[at - 1]@);
            at -= 1;
        }
        proof {
            if at > floor {
                assert(all[at - 1] == lines@[at - 1]@);
            }
        }
        begins.push(at);
        floor = start;
        j += 1;
    }
    let mut chunks: Vec<Chunk> = Vec::new();
    let first: usize = if begins.len() > 0 { begins[0] } else { n };
    proof {
        lemma_chunk_start(all, 0);
        assert(chunk_views(chunks@) =~= Seq::<ChunkModel>::empty());
    }
    push_split(&mut chunks, rel, &lines, 0, first, None);
    let mut k: usize = 0;
    assert(chunk_views(chunks@) + decl_chunks(rel@, all, 0) =~= file_chunks(rel@, all));
    while k < begins.len()
        invariant
            k <= begins@.len(),
            n == lines@.len(),
            all == text::views(lines@),
            decls == all_decls(all),
            begins@.len() == decls.len(),
            starts@.len() == decls.len(),
            names@.len() == decls.len(),
            forall|j: int| 0 <= j < starts@.len() ==> #[trigger] starts@[j] == decls[j],
            names_match(all, starts@, names@),
            forall|k: int| 0 <= k < begins@.len() ==> #[trigger] begins@[k] == chunk_start(all, k),
            chunk_views(chunks@) + decl_chunks(rel@, all, k as int) == file_chunks(rel@, all),
        decreases begins@.len() - k,
    {
        let ghost pre = chunk_views(chunks@);
        let end: usize = if k + 1 < begins.len() { begins[k + 1] } else { n };
        proof {
            lemma_chunk_start(all, k as int);
            lemma_chunk_start(all, k + 1);
            assert(starts@[k as int] == decls[k as int]);
            assert(name_at(all, starts@, names@[k as int], k as int));
        }
        push_split(&mut chunks, rel, &lines, begins[k], end, Some(&names[k]));
        proof {
            let a = split_chunks(
                rel@,
                all,
                chunk_start(all, k as int),
                chunk_start(all, k + 1),
                declaration(all[decls[k as int]]),
            );
            let b = decl_chunks(rel@, all, k + 1);
            assert(pre + (a + b) =~= (pre + a) + b);
        }
        k += 1;
    }
    assert(chunk_views(chunks@) =~= file_chunks(rel@, all)) by {
        assert(decl_chunks(rel@, all, k as int) =~= Seq::<ChunkModel>::empty());
    }
    chunks
}

/// Only white space.
pub open spec fn blank(s: Seq<char>) -> bool {
    forall|i: int| 0 <= i < s.len() ==> text::white(#[trigger] s[i])
}

/// The chunks lie in order, without overlap, within the lines from `lo`
/// below `hi`; none is longer than the limit, and every line there that is
/// not blank is in one of them.
pub open spec fn tiles(chunks: Seq<ChunkModel>, lines: Seq<Seq<char>>, lo: int, hi: int) -> bool {
    &&& forall|i: int| 0 <= i < chunks.len() ==> in_range(#[trigger] chunks[i], lo, hi)
    &&& forall|i: int, j: int|
        0 <= i < j < chunks.len() ==> (#[trigger] chunks[i]).end_line < (
        #[trigger] chunks[j]).start_line
    &&& forall|l: int| lo <= l < hi && !blank(#[trigger] lines[l]) ==> line_covered(chunks, l)
}

pub open spec fn in_range(c: ChunkModel, lo: int, hi: int) -> bool {
    lo < c.start_line && c.start_line <= c.end_line && c.end_line <= hi && c.end_line < c.start_line
        + MAX_CHUNK_LINES
}

/// The 0-based line `l` is in a chunk.
pub open spec fn line_covered(chunks: Seq<ChunkModel>, l: int) -> bool {
    exists|i: int| 0 <= i < chunks.len() && covers_line(#[trigger] chunks[i], l)
}

pub open spec fn covers_line(c: ChunkModel, l: int) -> bool {
    c.start_line <= l + 1 <= c.end_line
}

proof fn lemma_tiles_concat(
    a: Seq<ChunkModel>,
    b: Seq<ChunkModel>,
    lines: Seq<Seq<char>>,
    lo: int,
    mid: int,
    hi: int,
)
    requires
        lo <= mid <= hi,
        tiles(a, lines, lo, mid),
        tiles(b, lines, mid, hi),
    ensures
        tiles(a + b, lines, lo, hi),
{
    let c = a + b;
    assert forall|i: int| 0 <= i < c.len() implies in_range(#[trigger] c[i], lo, hi) by {
        if i < a.len() {
            assert(in_range(a[i], lo, mid));
        } else {
            assert(in_range(b[i - a.len()], mid, hi));
        }
    }
    assert forall|i: int, j: int| 0 <= i < j < c.len() implies (#[trigger] c[i]).end_line < (
    #[trigger] c[j]).start_line by {
        if j < a.len() {
            assert(a[i].end_line < a[j].start_line);
        } else if i >= a.len() {
            assert(b[i - a.len()].end_line < b[j - a.len()].start_line);
        } else {
            assert(in_range(a[i], lo, mid));
            assert(in_range(b[j - a.len()], mid, hi));
        }
    }
    assert forall|l: int| lo <= l < hi && !blank(#[trigger] lines[l]) implies line_covered(
        c,
        l,
    ) by {
        if l < mid {
            assert(line_covered(a, l));
            let i = choose|i: int| 0 <= i < a.len() && covers_line(#[trigger] a[i], l);
            assert(covers_line(c[i], l));
        } else {
            assert(line_covered(b, l));
            let i = choose|i: int| 0 <= i < b.len() && covers_line(#[trigger] b[i], l);
            assert(covers_line(c[i + a.len()], l));
        }
    }
}

proof fn lemma_trimmed_blank(s: Seq<char>)
    ensures
        text::trimmed(s).len() == 0 ==> blank(s),
{
    let t = text::trimmed_start(s);
    if text::trimmed(s).len() == 0 {
        lemma_cut_blank(t);
        lemma_skip_blank(s);
    }
}

proof fn lemma_cut_blank(s: Seq<char>)
    ensures
        text::trimmed_end(s).len() == 0 ==> blank(s),
    decreases s.len(),
{
    if s.len() > 0 && text::white(s.last()) {
        lemma_cut_blank(s.drop_last());
        if text::trimmed_end(s).len() == 0 {
            assert forall|i: int| 0 <= i < s.len() implies text::white(#[trigger] s[i]) by {
                if i < s.len() - 1 {
                    assert(text::white(s.drop_last()[i]));
                }
            }
        }
    }
}

proof fn lemma_skip_blank(s: Seq<char>)
    ensures
        blank(text::trimmed_start(s)) ==> blank(s),
    decreases s.len(),
{
    if s.len() > 0 && text::white(s[0]) {
        lemma_skip_blank(s.drop_first());
        if blank(text::trimmed_start(s)) {
            assert forall|i: int| 0 <= i < s.len() implies text::white(#[trigger] s[i]) by {
                if i > 0 {
                    assert(text::white(s.drop_first()[i - 1]));
                }
            }
        }
    }
}

proof fn lemma_joined_blank(parts: Seq<Seq<char>>, sep: Seq<char>)
    requires
        blank(text::joined(parts, sep)),
    ensures
        forall|i: int| 0 <= i < parts.len() ==> blank(#[trigger] parts[i]),
    decreases parts.len(),
{
    if parts.len() > 1 {
        let whole = text::joined(parts, sep);
        let head = text::joined(parts.drop_last(), sep);
        let last = parts.last();
        assert(whole == head + sep + last);
        assert forall|i: int| 0 <= i < head.len() implies text::white(#[trigger] head[i]) by {
            assert(whole[i] == head[i]);
        }
        assert forall|i: int| 0 <= i < last.len() implies text::white(#[trigger] last[i]) by {
            assert(whole[head.len() + sep.len() + i] == last[i]);
        }
        lemma_joined_blank(parts.drop_last(), sep);
        assert forall|i: int| 0 <= i < parts.len() implies blank(#[trigger] parts[i]) by {
            if i < parts.len() - 1 {
                assert(blank(parts.drop_last()[i]));
            }
        }
    }
}

proof fn lemma_split_tiles(
    rel: Seq<char>,
    lines: Seq<Seq<char>>,
    at: int,
    end: int,
    name: Option<Seq<char>>,
)
    requires
        0 <= at <= end <= lines.len(),
    ensures
        tiles(split_chunks(rel, lines, at, end, name), lines, at, end),
    decreases end - at,
{
    if at < end {
        let stop = stop_line(at, end);
        let a = slice_chunk(rel, lines, at, stop, name);
        let body = text::joined(lines.subrange(at, stop), seq!['\n']);
        lemma_split_tiles(rel, lines, stop, end, None);
        assert(tiles(a, lines, at, stop)) by {
            assert forall|l: int| at <= l < stop && !blank(#[trigger] lines[l]) implies line_covered(
                a,
                l,
            ) by {
                if a.len() == 0 {
                    lemma_trimmed_blank(body);
                    lemma_joined_blank(lines.subrange(at, stop), seq!['\n']);
                    assert(blank(lines.subrange(at, stop)[l - at]));
                } else {
                    assert(covers_line(a[0], l));
                }
            }
        }
        lemma_tiles_concat(a, split_chunks(rel, lines, stop, end, None), lines, at, stop, end);
    }
}

proof fn lemma_decl_tiles(rel: Seq<char>, lines: Seq<Seq<char>>, j: int)
    requires
        0 <= j <= all_decls(lines).len(),
    ensures
        tiles(decl_chunks(rel, lines, j), lines, chunk_start(lines, j), lines.len() as int),
    decreases all_decls(lines).len() - j,
{
    lemma_chunk_start(lines, j);
    if j < all_decls(lines).len() {
        lemma_chunk_start(lines, j + 1);
        lemma_decl_tiles(rel, lines, j + 1);
        let name = declaration(lines[all_decls(lines)[j]]);
        lemma_split_tiles(rel, lines, chunk_start(lines, j), chunk_start(lines, j + 1), name);
        lemma_tiles_concat(
            split_chunks(rel, lines, chunk_start(lines, j), chunk_start(lines, j + 1), name),
            decl_chunks(rel, lines, j + 1),
            lines,
            chunk_start(lines, j),
            chunk_start(lines, j + 1),
            lines.len() as int,
        );
    }
}

/// The chunks of a file come in line order without overlap, none is longer
/// than `MAX_CHUNK_LINES`, and every line that is not blank is in one.
pub proof fn law_chunks_tile_the_file(rel: Seq<char>, lines: Seq<Seq<char>>)
    ensures
        tiles(file_chunks(rel, lines), lines, 0, lines.len() as int),
{
    lemma_chunk_start(lines, 0);
    lemma_split_tiles(rel, lines, 0, chunk_start(lines, 0), None);
    lemma_decl_tiles(rel, lines, 0);
    lemma_tiles_concat(
        split_chunks(rel, lines, 0, chunk_start(lines, 0), None),
        decl_chunks(rel, lines, 0),
        lines,
        0,
        chunk_start(lines, 0),
        lines.len() as int,
    );
}

/// The comment and attribute lines that stand directly above a declaration
/// are in its chunk, and the chunk begins there.
pub proof fn law_documentation_travels(lines: Seq<Seq<char>>, j: int)
    requires
        0 <= j < all_decls(lines).len(),
    ensures
        chunk_start(lines, j) <= all_decls(lines)[j] <= chunk_start(lines, j + 1),
        forall|k: int|
            chunk_start(lines, j) <= k < all_decls(lines)[j] ==> doc_or_attr(#[trigger] lines[k]),
        chunk_start(lines, j) > (if j == 0 {
            0
        } else {
            all_decls(lines)[j - 1]
        }) ==> !doc_or_attr(lines[chunk_start(lines, j) - 1]),
{
    let decls = all_decls(lines);
    lemma_decl_lines(lines, lines.len() as int);
    lemma_chunk_start(lines, j + 1);
    lemma_pulled(
        lines,
        decls[j],
        if j == 0 {
            0
        } else {
            decls[j - 1]
        },
    );
}

proof fn lemma_byte_len_first(s: Seq<char>)
    requires
        s.len() > 0,
    ensures
        byte_len(s) == width(s[0]) + byte_len(s.drop_first()),
    decreases s.len(),
{
    if s.len() == 1 {
        assert(s.drop_last() =~= Seq::<char>::empty());
        assert(s.drop_first() =~= Seq::<char>::empty());
    } else {
        lemma_byte_len_first(s.drop_last());
        assert(s.drop_last().drop_first() =~= s.drop_first().drop_last());
    }
}

/// The bytes that a text takes are counted.
proof fn lemma_byte_len(s: Seq<char>)
    ensures
        byte_len(s) == vstd::utf8::encode_utf8(s).len(),
    decreases s.len(),
{
    if s.len() > 0 {
        lemma_byte_len_first(s);
        lemma_byte_len(s.drop_first());
        vstd::utf8::char_is_scalar(s[0]);
    }
}

/// Where a text is cut: what is left is within the limit, and with one
/// character more it would begin beyond it or end beyond it.
proof fn lemma_cut(s: Seq<char>, max: nat, i: int)
    requires
        0 <= i < s.len(),
        byte_len(s.take(i)) <= max,
    ensures
        i <= cut(s, max, i) < s.len(),
        byte_len(s.take(cut(s, max, i))) <= max,
        byte_len(s) > max ==> byte_len(s.take(cut(s, max, i) + 1)) > max,
    decreases s.len() - i,
{
    if i + 1 < s.len() && byte_len(s.take(i + 1)) <= max {
        lemma_cut(s, max, i + 1);
    } else if i + 1 == s.len() {
        assert(s.take(i + 1) =~= s);
    }
}

/// The body of a chunk is the text of its lines. One of more than 8192 bytes
/// ends early, at most four bytes before that.
pub open spec fn holds_its_lines(lines: Seq<Seq<char>>, c: ChunkModel) -> bool {
    let whole = text::joined(lines.subrange(c.start_line - 1, c.end_line as int), seq!['\n']);
    let size = vstd::utf8::encode_utf8(c.body).len();
    &&& 1 <= c.start_line <= c.end_line <= lines.len()
    &&& c.end_line - c.start_line < 200
    &&& c.body.len() <= whole.len()
    &&& c.body == whole.take(c.body.len() as int)
    &&& vstd::utf8::encode_utf8(whole).len() <= 8192 ==> c.body == whole
    &&& vstd::utf8::encode_utf8(whole).len() > 8192 ==> 8188 < size <= 8192
}

proof fn lemma_slice_holds(
    rel: Seq<char>,
    lines: Seq<Seq<char>>,
    at: int,
    stop: int,
    name: Option<Seq<char>>,
)
    requires
        0 <= at < stop <= lines.len(),
        stop - at <= 200,
    ensures
        ({
            let a = slice_chunk(rel, lines, at, stop, name);
            &&& a.len() <= 1
            &&& a.len() == 1 ==> {
                &&& holds_its_lines(lines, a[0])
                &&& a[0].path == rel
                &&& a[0].start_line == at + 1
                &&& a[0].end_line == stop
                &&& a[0].name == name
            }
        }),
{
    let a = slice_chunk(rel, lines, at, stop, name);
    let whole = text::joined(lines.subrange(at, stop), seq!['\n']);
    lemma_byte_len(whole);
    if a.len() > 0 {
        let body = a[0].body;
        if byte_len(whole) <= 8192 {
            assert(whole.take(whole.len() as int) =~= whole);
        } else {
            assert(whole.take(0) =~= Seq::<char>::empty());
            lemma_cut(whole, 8192, 0);
            let e = cut(whole, 8192, 0);
            assert(whole.take(e + 1).drop_last() =~= whole.take(e));
            lemma_byte_len(body);
        }
    }
}

/// Every chunk is of this file and holds its lines.
spec fn all_hold(rel: Seq<char>, lines: Seq<Seq<char>>, chunks: Seq<ChunkModel>) -> bool {
    forall|i: int|
        0 <= i < chunks.len() ==> holds_its_lines(lines, #[trigger] chunks[i]) && chunks[i].path
            == rel
}

proof fn lemma_split_holds(
    rel: Seq<char>,
    lines: Seq<Seq<char>>,
    at: int,
    end: int,
    name: Option<Seq<char>>,
)
    requires
        0 <= at <= end <= lines.len(),
    ensures
        all_hold(rel, lines, split_chunks(rel, lines, at, end, name)),
        forall|i: int|
            0 <= i < split_chunks(rel, lines, at, end, name).len() ==> {
                let c = #[trigger] split_chunks(rel, lines, at, end, name)[i];
                &&& at < c.start_line
                &&& c.end_line <= end
                &&& c.name is Some ==> c.name == name && c.start_line == at + 1
            },
    decreases end - at,
{
    if at < end {
        let stop = stop_line(at, end);
        let a = slice_chunk(rel, lines, at, stop, name);
        let b = split_chunks(rel, lines, stop, end, None);
        lemma_slice_holds(rel, lines, at, stop, name);
        lemma_split_holds(rel, lines, stop, end, None);
        let all = split_chunks(rel, lines, at, end, name);
        assert forall|i: int| 0 <= i < all.len() implies holds_its_lines(lines, #[trigger] all[i])
            && all[i].path == rel && at < all[i].start_line && all[i].end_line <= end && (
        all[i].name is Some ==> all[i].name == name && all[i].start_line == at + 1) by {
            if i < a.len() {
                assert(all[i] == a[i]);
            } else {
                assert(all[i] == b[i - a.len()]);
            }
        }
    }
}

/// Line `l` opens a declaration; the lines of the chunk before it are comments
/// and attributes, and those after it open no other declaration.
pub open spec fn declares_one(lines: Seq<Seq<char>>, c: ChunkModel, l: int) -> bool {
    &&& c.start_line - 1 <= l < lines.len()
    &&& declaration(lines[l]) is Some
    &&& forall|k: int| c.start_line - 1 <= k < l ==> doc_or_attr(#[trigger] lines[k])
    &&& forall|k: int| l < k < c.end_line ==> declaration(#[trigger] lines[k]) is None
}

/// A chunk with a name begins with the comments and attributes of the
/// declaration of that name.
spec fn named_right(lines: Seq<Seq<char>>, c: ChunkModel) -> bool {
    c.name is Some ==> exists|l: int| #[trigger]
        declares_one(lines, c, l) && declaration(lines[l]) == c.name
}

/// The lines between two neighbouring declarations declare nothing.
proof fn lemma_between_decls(lines: Seq<Seq<char>>, n: int, k: int)
    requires
        0 <= k < n <= lines.len(),
    ensures
        declaration(lines[k]) is Some <==> decl_lines(lines, n).contains(k),
    decreases n,
{
    let all = decl_lines(lines, n);
    let front = decl_lines(lines, n - 1);
    if k == n - 1 {
        if declaration(lines[k]) is Some {
            assert(all[front.len() as int] == k);
        } else {
            lemma_decl_lines(lines, n - 1);
            if all.contains(k) {
                let i = choose|i: int| 0 <= i < all.len() && all[i] == k;
                assert(front[i] < n - 1);
            }
        }
    } else {
        lemma_between_decls(lines, n - 1, k);
        if front.contains(k) {
            let i = choose|i: int| 0 <= i < front.len() && front[i] == k;
            assert(all[i] == k);
        }
        if all.contains(k) {
            let i = choose|i: int| 0 <= i < all.len() && all[i] == k;
            if i < front.len() {
                assert(front[i] == k);
            }
        }
    }
}

proof fn lemma_decls_hold(rel: Seq<char>, lines: Seq<Seq<char>>, j: int)
    requires
        0 <= j <= all_decls(lines).len(),
    ensures
        all_hold(rel, lines, decl_chunks(rel, lines, j)),
        forall|i: int|
            0 <= i < decl_chunks(rel, lines, j).len() ==> named_right(
                lines,
                #[trigger] decl_chunks(rel, lines, j)[i],
            ),
    decreases all_decls(lines).len() - j,
{
    let decls = all_decls(lines);
    if j < decls.len() {
        lemma_chunk_start(lines, j);
        lemma_chunk_start(lines, j + 1);
        lemma_decls_hold(rel, lines, j + 1);
        law_documentation_travels(lines, j);
        lemma_decl_lines(lines, lines.len() as int);
        let lo = chunk_start(lines, j);
        let hi = chunk_start(lines, j + 1);
        let l = decls[j];
        let name = declaration(lines[l]);
        lemma_split_holds(rel, lines, lo, hi, name);
        let a = split_chunks(rel, lines, lo, hi, name);
        let b = decl_chunks(rel, lines, j + 1);
        let all = decl_chunks(rel, lines, j);
        assert forall|k: int| l < k < hi implies declaration(
            #[trigger] lines[k],
        ) is None by {
            lemma_between_decls(lines, lines.len() as int, k);
            if decls.contains(k) {
                let q = choose|q: int| 0 <= q < decls.len() && decls[q] == k;
                if q < j {
                    assert(decls[q] < decls[j]);
                } else if q > j {
                    assert(decls[j + 1] <= k) by {
                        if q > j + 1 {
                            assert(decls[j + 1] < decls[q]);
                        }
                    }
                    lemma_pulled(lines, decls[j + 1], decls[j]);
                }
            }
        }
        assert forall|i: int| 0 <= i < all.len() implies holds_its_lines(lines, #[trigger] all[i])
            && all[i].path == rel && named_right(lines, all[i]) by {
            if i < a.len() {
                assert(all[i] == a[i]);
                if a[i].name is Some {
                    assert(declares_one(lines, a[i], l));
                }
            } else {
                assert(all[i] == b[i - a.len()]);
            }
        }
    }
}

/// Every chunk of a file is of that file, and its body is the text of exactly
/// the lines of its range, joined by newlines; only a body of more than 8192
/// bytes ends early.
pub proof fn law_chunks_hold_their_lines(rel: Seq<char>, lines: Seq<Seq<char>>, i: int)
    requires
        0 <= i < file_chunks(rel, lines).len(),
    ensures
        file_chunks(rel, lines)[i].path == rel,
        holds_its_lines(lines, file_chunks(rel, lines)[i]),
{
    let first = chunk_start(lines, 0);
    lemma_chunk_start(lines, 0);
    lemma_split_holds(rel, lines, 0, first, None);
    lemma_decls_hold(rel, lines, 0);
    let a = split_chunks(rel, lines, 0, first, None);
    let b = decl_chunks(rel, lines, 0);
    if i < a.len() {
        assert((a + b)[i] == a[i]);
    } else {
        assert((a + b)[i] == b[i - a.len()]);
    }
}

/// A chunk with a name begins with the comments and attributes of the
/// declaration of that name, and holds no declaration behind it.
pub proof fn law_names_are_declared(rel: Seq<char>, lines: Seq<Seq<char>>, i: int)
    requires
        0 <= i < file_chunks(rel, lines).len(),
        file_chunks(rel, lines)[i].name is Some,
    ensures
        exists|l: int| #[trigger]
            declares_one(lines, file_chunks(rel, lines)[i], l) && declaration(lines[l])
                == file_chunks(rel, lines)[i].name,
{
    let first = chunk_start(lines, 0);
    lemma_chunk_start(lines, 0);
    lemma_split_holds(rel, lines, 0, first, None);
    lemma_decls_hold(rel, lines, 0);
    let a = split_chunks(rel, lines, 0, first, None);
    let b = decl_chunks(rel, lines, 0);
    if i < a.len() {
        assert((a + b)[i] == a[i]);
    } else {
        assert((a + b)[i] == b[i - a.len()]);
        assert(named_right(lines, b[i - a.len()]));
    }
}

/// A line that documents or declares something is not blank.
proof fn lemma_not_blank(line: Seq<char>)
    requires
        doc_or_attr(line) || declaration(line) is Some,
    ensures
        !blank(line),
{
    reveal_strlit("//");
    reveal_strlit("*");
    reveal_strlit("/*");
    reveal_strlit("#[");
    reveal_strlit("@");
    reveal_strlit("#");
    if blank(line) {
        lemma_blank_trims(line);
    }
}

proof fn lemma_blank_trims(s: Seq<char>)
    requires
        blank(s),
    ensures
        text::trimmed_start(s).len() == 0,
    decreases s.len(),
{
    if s.len() > 0 {
        assert(text::white(s[0]));
        let t = s.drop_first();
        assert forall|i: int| 0 <= i < t.len() implies text::white(#[trigger] t[i]) by {
            assert(t[i] == s[i + 1]);
        }
        lemma_blank_trims(t);
    }
}

proof fn lemma_decl_chunk(rel: Seq<char>, lines: Seq<Seq<char>>, j: int, q: int) -> (i: int)
    requires
        0 <= j <= q < all_decls(lines).len(),
        !doc_or_attr(lines[all_decls(lines)[q]]),
    ensures
        ({
            let c = decl_chunks(rel, lines, j)[i];
            let l = all_decls(lines)[q];
            &&& 0 <= i < decl_chunks(rel, lines, j).len()
            &&& c.name == declaration(lines[l])
            &&& c.start_line == chunk_start(lines, q) + 1
        }),
    decreases q - j,
{
    let decls = all_decls(lines);
    lemma_chunk_start(lines, j);
    lemma_chunk_start(lines, j + 1);
    let lo = chunk_start(lines, j);
    let hi = chunk_start(lines, j + 1);
    let name = declaration(lines[decls[j]]);
    let a = split_chunks(rel, lines, lo, hi, name);
    let b = decl_chunks(rel, lines, j + 1);
    if j < q {
        let i = lemma_decl_chunk(rel, lines, j + 1, q);
        assert((a + b)[a.len() + i] == b[i]);
        a.len() + i
    } else {
        lemma_decl_lines(lines, lines.len() as int);
        law_documentation_travels(lines, j);
        let l = decls[j];
        assert(l < hi) by {
            if j + 1 < decls.len() {
                lemma_pulled(lines, decls[j + 1], l);
                if hi == l {
                    assert(decls[j] < decls[j + 1]);
                    assert(doc_or_attr(lines[l]));
                }
            }
        }
        let stop = stop_line(lo, hi);
        let first = slice_chunk(rel, lines, lo, stop, name);
        let body = text::joined(lines.subrange(lo, stop), seq!['\n']);
        if first.len() == 0 {
            lemma_trimmed_blank(body);
            lemma_joined_blank(lines.subrange(lo, stop), seq!['\n']);
            assert(blank(lines.subrange(lo, stop)[0]));
            if lo < l {
                assert(doc_or_attr(lines[lo]));
            }
            lemma_not_blank(lines[lo]);
        }
        assert((a + b)[0] == a[0]);
        assert(a[0] == first[0]);
        0
    }
}

/// Every declaration is found: there is a chunk of its name that begins at the
/// comments and attributes directly above it.
pub proof fn law_declarations_are_found(rel: Seq<char>, lines: Seq<Seq<char>>, l: int)
    requires
        0 <= l < lines.len(),
        declaration(lines[l]) is Some,
        !doc_or_attr(lines[l]),
    ensures
        exists|i: int|
            0 <= i < file_chunks(rel, lines).len() && {
                let c = #[trigger] file_chunks(rel, lines)[i];
                &&& c.name == declaration(lines[l])
                &&& c.start_line - 1 <= l
                &&& forall|k: int| c.start_line - 1 <= k < l ==> doc_or_attr(#[trigger] lines[k])
                &&& c.start_line > 1 ==> !doc_or_attr(lines[c.start_line - 2]) || declaration(
                    lines[c.start_line - 1],
                ) is Some || declaration(lines[c.start_line - 2]) is Some
            },
{
    let decls = all_decls(lines);
    lemma_between_decls(lines, lines.len() as int, l);
    let q = choose|q: int| 0 <= q < decls.len() && decls[q] == l;
    let i = lemma_decl_chunk(rel, lines, 0, q);
    let a = split_chunks(rel, lines, 0, chunk_start(lines, 0), None);
    let b = decl_chunks(rel, lines, 0);
    law_documentation_travels(lines, q);
    lemma_decl_lines(lines, lines.len() as int);
    lemma_pulled(
        lines,
        l,
        if q == 0 {
            0
        } else {
            decls[q - 1]
        },
    );
    assert((a + b)[a.len() + i] == b[i]);
    let c = file_chunks(rel, lines)[a.len() + i];
    assert(c == b[i]);
    if c.start_line > 1 && q > 0 && c.start_line - 1 == decls[q - 1] {
        assert(declaration(lines[decls[q - 1]]) is Some);
    }
}

/// A line that begins with a declaring word declares the name behind it. The
/// name ends where a character comes that no name can hold.
pub proof fn law_declaring_words(word: Seq<char>, name: Seq<char>, rest: Seq<char>)
    requires
        word == "fn"@ || word == "def"@ || word == "function"@ || word == "func"@ || word
            == "class"@ || word == "struct"@ || word == "impl"@ || word == "interface"@ || word
            == "enum"@ || word == "mod"@ || word == "trait"@ || word == "type"@ || word
            == "package"@,
        forall|i: int| 0 <= i < word.len() ==> text::alphanumeric(#[trigger] word[i]),
        !text::alphanumeric(' '),
        name.len() > 0,
        forall|i: int|
            0 <= i < name.len() ==> text::alphanumeric(#[trigger] name[i]) || name[i] == '_',
        forall|c: char| #[trigger]
            text::alphanumeric(c) ==> !text::white(c) && c != '/' && c != '#' && c != ':',
        rest.len() > 0 ==> !text::alphanumeric(rest[0]) && rest[0] != '_' && rest[0] != '.'
            && rest[0] != ':',
    ensures
        declaration(word + seq![' '] + name + rest) == Some(name),
{
    reveal_strlit("fn");
    reveal_strlit("def");
    reveal_strlit("function");
    reveal_strlit("func");
    reveal_strlit("class");
    reveal_strlit("struct");
    reveal_strlit("impl");
    reveal_strlit("interface");
    reveal_strlit("enum");
    reveal_strlit("mod");
    reveal_strlit("trait");
    reveal_strlit("type");
    reveal_strlit("package");
    reveal_strlit("//");
    let line = word + seq![' '] + name + rest;
    let tail = seq![' '] + name + rest;
    assert(line =~= word + tail);
    let n = word.len() as int;
    assert(line[0] == word[0]);
    assert(text::trimmed_start(line) == line);
    lemma_run(word, tail, word_fn());
    assert(line.take(n) =~= word);
    assert(line.skip(n) =~= tail);
    let after = name + rest;
    assert(tail.drop_first() =~= after);
    assert(after[0] == name[0]);
    assert(text::white(' '));
    assert(text::trimmed_start(after) == after);
    assert(text::trimmed_start(tail) == after);
    lemma_run(name, rest, ident_fn());
    assert(after.take(name.len() as int) =~= name);
    assert(name.last() != ':') by {
        assert(name[name.len() - 1] == name.last());
        if name.last() == ':' {
            assert(text::alphanumeric(':'));
        }
    }
    assert(text::cut_while(name, text::just(':')) == name);
    if text::begins(line, "//"@) {
        assert(line.take(2)[0] == line[0]);
    }
}

proof fn lemma_run(a: Seq<char>, b: Seq<char>, f: spec_fn(char) -> bool)
    requires
        forall|i: int| 0 <= i < a.len() ==> f(#[trigger] a[i]),
        b.len() > 0 ==> !f(b[0]),
    ensures
        text::run_len(a + b, f) == a.len(),
    decreases a.len(),
{
    let s = a + b;
    if a.len() > 0 {
        assert(s[0] == a[0]);
        let c = a.drop_first();
        assert forall|i: int| 0 <= i < c.len() implies f(#[trigger] c[i]) by {
            assert(c[i] == a[i + 1]);
        }
        lemma_run(c, b, f);
        assert(s.drop_first() =~= c + b);
    } else {
        assert(s =~= b);
    }
}

/// A snippet shows the asked lines, counted from one, as far as the limit and
/// the file allow.
pub proof fn law_snippet_shows_the_asked_lines(
    lines: Seq<Seq<char>>,
    start: nat,
    end: nat,
    max_lines: nat,
    l: nat,
)
    requires
        1 <= start,
    ensures
        ({
            let window = line_window(lines, start, wanted(start, end, max_lines));
            &&& start <= l <= end && l <= lines.len() && l < start + max_lines <==> start <= l
                < start + window.len()
            &&& start <= l < start + window.len() ==> window[l - start] == lines[l - 1]
        }),
{
}

/// Words before the declaring one do not change what a line declares.
pub proof fn law_modifiers_change_nothing(word: Seq<char>, line: Seq<char>)
    requires
        word == "pub"@ || word == "export"@ || word == "default"@ || word == "async"@ || word
            == "public"@ || word == "private"@ || word == "protected"@ || word == "internal"@
            || word == "static"@ || word == "final"@ || word == "abstract"@ || word == "unsafe"@
            || word == "extern"@ || word == "const"@ || word == "open"@ || word == "override"@
            || word == "suspend"@ || word == "inline"@,
        word.len() > 0,
        forall|i: int| 0 <= i < word.len() ==> text::alphanumeric(#[trigger] word[i]),
        !text::alphanumeric(' '),
        forall|c: char| #[trigger]
            text::alphanumeric(c) ==> !text::white(c) && c != '/' && c != '#' && c != ':',
        !decl_keyword(word),
        line.len() > 0,
        text::alphanumeric(line[0]),
        line[0] != '(',
    ensures
        declaration(word + seq![' '] + line) == declaration(line),
{
    reveal_strlit("//");
    let all = word + seq![' '] + line;
    let tail = seq![' '] + line;
    assert(all =~= word + tail);
    assert(all[0] == word[0]);
    assert(text::trimmed_start(all) == all);
    assert(text::trimmed_start(line) == line);
    lemma_run(word, tail, word_fn());
    let n = word.len() as int;
    assert(all.take(n) =~= word);
    assert(all.skip(n) =~= tail);
    assert(tail.drop_first() =~= line);
    assert(text::white(' '));
    assert(text::trimmed_start(tail) == line);
    if text::begins(all, "//"@) {
        assert(all.take(2)[0] == all[0]);
    }
    if text::begins(line, "//"@) {
        assert(line.take(2)[0] == line[0]);
    }
}

} // verus!
