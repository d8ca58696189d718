//! The command line: which options go together, what input files hold, and
//! how results are shown.

use crate::block_max_wand;
use crate::indexer::DocSummary;
use crate::indexer::InputDoc;
use crate::interner;
use crate::lookup;
use crate::lookup::Lookup;
use crate::query::FusionArg;
use crate::query::PqMode;
use crate::query::RankMode;
use crate::query::SearchOpts;
use crate::reorder::ReorderStrategy;
use crate::text;
use vstd::prelude::*;
use vstd::slice::slice_subrange;
use vstd::utf8::encode_utf8;

verus! {

fn owned(s: &str) -> (t: String)
    ensures
        t@ == s@,
{
    let chars = text::chars_of(s);
    text::string_of(chars.as_slice())
}

// ---------------------------------------------------------------------------
// Options
// ---------------------------------------------------------------------------

/// The options of a ranked search as they are given.
pub struct RankArgs {
    pub mode: RankMode,
    /// Another way to ask for hybrid ranking.
    pub hybrid: bool,
    pub semantic_candidates: usize,
    pub fusion: FusionArg,
    /// In units of 1 / 2^24.
    pub alpha: i64,
    /// In units of 1 / 2^24.
    pub rrf_k: i64,
    pub nprobe: usize,
    pub no_pq: bool,
}

impl RankArgs {
    pub fn opts(&self) -> (o: SearchOpts)
        ensures
            o == (SearchOpts {
                mode: if self.hybrid {
                    RankMode::Hybrid
                } else {
                    self.mode
                },
                semantic_candidates: self.semantic_candidates,
                fusion: self.fusion,
                alpha: self.alpha,
                rrf_k: self.rrf_k,
                nprobe: self.nprobe,
                pq: if self.no_pq {
                    PqMode::Off
                } else {
                    PqMode::Auto
                },
            }),
    {
        SearchOpts {
            mode: if self.hybrid {
                RankMode::Hybrid
            } else {
                self.mode
            },
            semantic_candidates: self.semantic_candidates,
            fusion: self.fusion,
            alpha: self.alpha,
            rrf_k: self.rrf_k,
            nprobe: self.nprobe,
            pq: if self.no_pq {
                PqMode::Off
            } else {
                PqMode::Auto
            },
        }
    }
}

/// How an index is built.
#[derive(Clone, Copy, PartialEq, Eq, Debug, Structural)]
pub enum IndexPlan {
    /// Streamed, with shards on disk.
    External,
    InMemory,
    /// In memory, with vectors.
    Embedded,
}

/// Options of an index build that do not go together, or that this program
/// lacks.
#[derive(Clone, Copy, PartialEq, Eq, Debug, Structural)]
pub enum IndexArgError {
    NoGpu,
    ExternalReorder,
    ExternalCode,
    ExternalEmbed,
    NoEncoder,
}

/// Check the options of an index build. `gpu` and `encoder` say what this
/// program was built with.
pub fn plan_index(
    reorder: ReorderStrategy,
    external: bool,
    code: bool,
    embed: bool,
    gpu: bool,
    encoder: bool,
) -> (r: Result<IndexPlan, IndexArgError>)
    ensures
        r == if reorder == ReorderStrategy::BpGpu && !gpu {
            Err::<IndexPlan, IndexArgError>(IndexArgError::NoGpu)
        } else if external && reorder != ReorderStrategy::Keep {
            Err::<IndexPlan, IndexArgError>(IndexArgError::ExternalReorder)
        } else if external && code {
            Err::<IndexPlan, IndexArgError>(IndexArgError::ExternalCode)
        } else if external && embed {
            Err::<IndexPlan, IndexArgError>(IndexArgError::ExternalEmbed)
        } else if external {
            Ok::<IndexPlan, IndexArgError>(IndexPlan::External)
        } else if embed && !encoder {
            Err::<IndexPlan, IndexArgError>(IndexArgError::NoEncoder)
        } else if embed {
            Ok::<IndexPlan, IndexArgError>(IndexPlan::Embedded)
        } else {
            Ok::<IndexPlan, IndexArgError>(IndexPlan::InMemory)
        },
{
    if reorder == ReorderStrategy::BpGpu && !gpu {
        return Err(IndexArgError::NoGpu);
    }
    if external {
        if reorder != ReorderStrategy::Keep {
            return Err(IndexArgError::ExternalReorder);
        }
        if code {
            return Err(IndexArgError::ExternalCode);
        }
        if embed {
            return Err(IndexArgError::ExternalEmbed);
        }
        return Ok(IndexPlan::External);
    }
    if embed {
        if !encoder {
            return Err(IndexArgError::NoEncoder);
        }
        return Ok(IndexPlan::Embedded);
    }
    Ok(IndexPlan::InMemory)
}

/// Vectors are built only by a program that has an encoder; one without
/// degrades to lexical search.
pub fn embed_or_degrade(embed: bool, encoder: bool) -> (r: bool)
    ensures
        r == (embed && encoder),
{
    embed && encoder
}

/// Which index directory to open: the one asked for, or the one of the
/// repository if it exists.
pub fn resolve_index(index: Option<&str>, default_dir: &str, exists: bool) -> (r: Option<String>)
    ensures
        match r {
            Some(dir) => match index {
                Some(given) => dir@ == given@,
                None => exists && dir@ == default_dir@,
            },
            None => index is None && !exists,
        },
{
    match index {
        Some(dir) => Some(owned(dir)),
        None => {
            if exists {
                Some(owned(default_dir))
            } else {
                None
            }
        },
    }
}

// ---------------------------------------------------------------------------
// Links
// ---------------------------------------------------------------------------

/// A byte that stands in a URL as it is.
pub open spec fn unreserved(b: u8) -> bool {
    ||| 48 <= b <= 57
    ||| 65 <= b <= 90
    ||| 97 <= b <= 122
    ||| b == 45
    ||| b == 46
    ||| b == 95
    ||| b == 126
}

/// The hexadecimal digit `d`, in upper case.
pub open spec fn upper_digit(d: nat) -> char {
    if d < 10 {
        (48 + d) as char
    } else {
        (55 + d) as char
    }
}

/// One byte of a URL.
pub open spec fn encoded_byte(b: u8) -> Seq<char> {
    if unreserved(b) {
        seq![b as char]
    } else {
        seq!['%', upper_digit(b as nat / 16), upper_digit(b as nat % 16)]
    }
}

/// Bytes in a URL.
pub open spec fn encoded(bytes: Seq<u8>) -> Seq<char>
    decreases bytes.len(),
{
    if bytes.len() == 0 {
        Seq::empty()
    } else {
        encoded(bytes.drop_last()) + encoded_byte(bytes.last())
    }
}

fn push_upper(out: &mut Vec<char>, d: u8)
    requires
        d < 16,
    ensures
        final(out)@ == old(out)@.push(upper_digit(d as nat)),
{
    if d < 10 {
        out.push((48 + d) as char);
    } else {
        out.push((55 + d) as char);
    }
}

/// Percent-encode a text for a URL.
pub fn percent_encode(s: &str) -> (r: String)
    ensures
        r@ == encoded(encode_utf8(s@)),
{
    let bytes = s.as_bytes();
    let mut out: Vec<char> = Vec::new();
    let mut i: usize = 0;
    assert(bytes@.take(0) =~= Seq::<u8>::empty());
    while i < bytes.len()
        invariant
            i <= bytes@.len(),
            out@ == encoded(bytes@.take(i as int)),
        decreases bytes@.len() - i,
    {
        let b: u8 = bytes[i];
        let ghost before = out@;
        let plain: bool = (48 <= b && b <= 57) || (65 <= b && b <= 90) || (97 <= b && b <= 122) || b
            == 45 || b == 46 || b == 95 || b == 126;
        if plain {
            out.push(b as char);
        } else {
            out.push('%');
            push_upper(&mut out, b / 16);
            push_upper(&mut out, b % 16);
        }
        proof {
            assert(out@ =~= before + encoded_byte(b));
            let next = bytes@.take(i + 1);
            assert(next.drop_last() =~= bytes@.take(i as int));
            assert(next.last() == b);
        }
        i += 1;
    }
    assert(bytes@.take(i as int) =~= bytes@);
    text::string_of(out.as_slice())
}

/// `s` with every `what` replaced by `with`, from the left.
pub open spec fn replaced(s: Seq<char>, what: Seq<char>, with: Seq<char>) -> Seq<char>
    decreases s.len(),
{
    if s.len() == 0 || what.len() == 0 {
        s
    } else if text::begins(s, what) {
        with + replaced(s.skip(what.len() as int), what, with)
    } else {
        seq![s[0]] + replaced(s.drop_first(), what, with)
    }
}

fn replace(s: &[char], what: &str, with: &str) -> (out: Vec<char>)
    requires
        what@.len() > 0,
    ensures
        out@ == replaced(s@, what@, with@),
{
    let w = text::chars_of(what);
    let n: usize = s.len();
    let mut out: Vec<char> = Vec::new();
    let mut i: usize = 0;
    assert(s@.skip(0) =~= s@);
    while i < n
        invariant
            i <= n,
            n == s@.len(),
            w@ == what@,
            w@.len() > 0,
            replaced(s@, what@, with@) == out@ + replaced(s@.skip(i as int), what@, with@),
        decreases n - i,
    {
        let rest: &[char] = slice_subrange(s, i, n);
        assert(rest@ =~= s@.skip(i as int));
        let ghost before = out@;
        if text::starts_with(rest, what) {
            text::append_str(&mut out, with);
            proof {
                assert(rest@.skip(w@.len() as int) =~= s@.skip(i + w@.len()));
                assert(before + replaced(rest@, what@, with@) =~= out@ + replaced(
                    s@.skip(i + w@.len()),
                    what@,
                    with@,
                ));
            }
            i += w.len();
        } else {
            out.push(s[i]);
            proof {
                assert(rest@.drop_first() =~= s@.skip(i + 1));
                assert(before + replaced(rest@, what@, with@) =~= out@ + replaced(
                    s@.skip(i + 1),
                    what@,
                    with@,
                ));
            }
            i += 1;
        }
    }
    assert(out@ =~= replaced(s@, what@, with@));
    out
}

/// The URL of a result.
pub open spec fn url_of(template: Seq<char>, id: Seq<char>, title: Seq<char>) -> Seq<char> {
    replaced(
        replaced(template, "{id}"@, encoded(encode_utf8(id))),
        "{title}"@,
        encoded(encode_utf8(title)),
    )
}

/// Fill in a URL template: the id first, then the title.
pub fn result_url(template: &str, id: &str, title: &str) -> (r: String)
    ensures
        r@ == url_of(template@, id@, title@),
{
    proof {
        reveal_strlit("{id}");
        reveal_strlit("{title}");
    }
    let chars = text::chars_of(template);
    let id = percent_encode(id);
    let title = percent_encode(title);
    let with_id = replace(chars.as_slice(), "{id}", id.as_str());
    let with_both = replace(with_id.as_slice(), "{title}", title.as_str());
    text::string_of(with_both.as_slice())
}

/// What results are printed to.
#[derive(Clone, Copy, PartialEq, Eq, Debug, Structural)]
pub enum Terminal {
    /// Not a terminal.
    Pipe,
    /// One that makes visible addresses clickable, and knows no hyperlinks.
    Apple,
    Other,
}

/// A link to `url` that reads `title`.
pub open spec fn link_text(url: Seq<char>, title: Seq<char>, terminal: Terminal) -> Seq<char> {
    match terminal {
        Terminal::Pipe => title,
        Terminal::Apple => title + "  \x1b[2m"@ + url + "\x1b[0m"@,
        Terminal::Other => "\x1b]8;;"@ + url + "\x1b\\\x1b[4m"@ + title
            + "\x1b[24m\x1b]8;;\x1b\\"@,
    }
}

pub fn link(url: &str, title: &str, terminal: Terminal) -> (r: String)
    ensures
        r@ == link_text(url@, title@, terminal),
{
    let mut out: Vec<char> = Vec::new();
    match terminal {
        Terminal::Pipe => {
            text::append_str(&mut out, title);
        },
        Terminal::Apple => {
            text::append_str(&mut out, title);
            text::append_str(&mut out, "  \x1b[2m");
            text::append_str(&mut out, url);
            text::append_str(&mut out, "\x1b[0m");
        },
        Terminal::Other => {
            text::append_str(&mut out, "\x1b]8;;");
            text::append_str(&mut out, url);
            text::append_str(&mut out, "\x1b\\\x1b[4m");
            text::append_str(&mut out, title);
            text::append_str(&mut out, "\x1b[24m\x1b]8;;\x1b\\");
        },
    }
    assert(out@ =~= link_text(url@, title@, terminal));
    text::string_of(out.as_slice())
}

/// A result title, as a link if a URL template is given.
pub fn render_title(template: Option<&str>, id: &str, title: &str, terminal: Terminal) -> (r:
    String)
    ensures
        r@ == match template {
            Some(t) => link_text(url_of(t@, id@, title@), title@, terminal),
            None => title@,
        },
{
    match template {
        Some(t) => {
            let url = result_url(t, id, title);
            link(url.as_str(), title, terminal)
        },
        None => owned(title),
    }
}

// ---------------------------------------------------------------------------
// Input files
// ---------------------------------------------------------------------------

/// The lines without white space around them.
pub open spec fn trimmed_lines(s: Seq<char>) -> Seq<Seq<char>> {
    text::lines(s).map_values(|l: Seq<char>| text::trimmed(l))
}

/// A line that is neither blank nor a comment.
pub open spec fn says_something(line: Seq<char>) -> bool {
    line.len() > 0 && line[0] != '#'
}

/// The queries among the first `n` lines: a line holds an id, a tab and a
/// query; lines without a tab are skipped.
pub open spec fn queries_in(lines: Seq<Seq<char>>, n: int) -> Seq<(Seq<char>, Seq<char>)>
    decreases n,
{
    if n <= 0 {
        Seq::empty()
    } else {
        let front = queries_in(lines, n - 1);
        let line = lines[n - 1];
        if says_something(line) && line.contains('\t') {
            let tab = line.index_of_first('\t')->Some_0;
            front.push((line.take(tab), line.skip(tab + 1)))
        } else {
            front
        }
    }
}

/// The texts of pairs.
pub open spec fn pair_texts(pairs: Seq<(String, String)>) -> Seq<(Seq<char>, Seq<char>)> {
    Seq::new(pairs.len(), |i: int| (pairs[i].0@, pairs[i].1@))
}

fn lines_of(s: &str) -> (lines: Vec<Vec<char>>)
    ensures
        text::views(lines@) == trimmed_lines(s@),
{
    let chars = text::chars_of(s);
    let raw = text::split_lines(chars.as_slice());
    let n: usize = raw.len();
    let mut lines: Vec<Vec<char>> = Vec::new();
    let mut i: usize = 0;
    while i < n
        invariant
            i <= n,
            n == raw@.len(),
            lines@.len() == i,
            forall|j: int| 0 <= j < i ==> (#[trigger] lines@[j])@ == text::trimmed(raw@[j]@),
        decreases n - i,
    {
        lines.push(text::to_vec(text::trim(raw[i].as_slice())));
        i += 1;
    }
    proof {
        assert forall|j: int| 0 <= j < n implies text::views(lines@)[j] == trimmed_lines(s@)[j] by {
            assert(text::views(raw@)[j] == raw@[j]@);
        }
        assert(text::views(lines@) =~= trimmed_lines(s@));
    }
    lines
}

proof fn lemma_first_tab(line: Seq<char>, i: int)
    requires
        text::first_at(line, '\t', i),
    ensures
        line.contains('\t'),
        line.index_of_first('\t') == Some(i),
{
    line.index_of_first_ensures('\t');
    assert(line[i] == '\t');
    let at = line.index_of_first('\t')->Some_0;
    if at < i {
        assert(line[at] != '\t');
    }
}

/// The queries of a file of ids and queries.
pub fn parse_queries(s: &str) -> (out: Vec<(String, String)>)
    ensures
        pair_texts(out@) == queries_in(trimmed_lines(s@), trimmed_lines(s@).len() as int),
{
    let lines = lines_of(s);
    let ghost all = trimmed_lines(s@);
    let n: usize = lines.len();
    let mut out: Vec<(String, String)> = Vec::new();
    let mut i: usize = 0;
    assert(pair_texts(out@) =~= Seq::<(Seq<char>, Seq<char>)>::empty());
    while i < n
        invariant
            i <= n,
            n == lines@.len(),
            all == text::views(lines@),
            pair_texts(out@) == queries_in(all, i as int),
        decreases n - i,
    {
        let line: &[char] = lines[i].as_slice();
        let len: usize = line.len();
        assert(all[i as int] == line@);
        if len > 0 && line[0] != '#' {
            match text::find(line, '\t') {
                Some(tab) => {
                    proof {
                        lemma_first_tab(line@, tab as int);
                    }
                    let ghost before = pair_texts(out@);
                    let id: &[char] = slice_subrange(line, 0, tab);
                    let query: &[char] = slice_subrange(line, tab + 1, len);
                    assert(id@ =~= line@.take(tab as int));
                    assert(query@ =~= line@.skip(tab + 1));
                    out.push((text::string_of(id), text::string_of(query)));
                    assert(pair_texts(out@) =~= before.push((id@, query@)));
                },
                None => {
                    assert(!line@.contains('\t'));
                },
            }
        }
        i += 1;
    }
    out
}

/// The judgement of a line of at least four words: query, document,
/// relevance. A relevance that is no number is none.
pub open spec fn judgement(words: Seq<Seq<char>>) -> (Seq<char>, Seq<char>, u32) {
    (
        words[0],
        words[2],
        match text::number(words[3], u32::MAX as nat) {
            Some(r) => r as u32,
            None => 0,
        },
    )
}

/// The judgements of the first `n` lines, or the number of the first line
/// with too few words.
pub open spec fn judgements_in(lines: Seq<Seq<char>>, n: int) -> Result<
    Seq<(Seq<char>, Seq<char>, u32)>,
    int,
>
    decreases n,
{
    if n <= 0 {
        Ok(Seq::empty())
    } else {
        match judgements_in(lines, n - 1) {
            Err(e) => Err(e),
            Ok(front) => if !says_something(lines[n - 1]) {
                Ok(front)
            } else if text::words(lines[n - 1]).len() < 4 {
                Err(n)
            } else {
                Ok(front.push(judgement(text::words(lines[n - 1]))))
            },
        }
    }
}

pub open spec fn triple_texts(triples: Seq<(String, String, u32)>) -> Seq<
    (Seq<char>, Seq<char>, u32),
> {
    Seq::new(triples.len(), |i: int| (triples[i].0@, triples[i].1@, triples[i].2))
}

proof fn lemma_bad_line(lines: Seq<Seq<char>>, n: int, m: int)
    requires
        0 <= n <= m,
        judgements_in(lines, n) is Err,
    ensures
        judgements_in(lines, m) == judgements_in(lines, n),
    decreases m - n,
{
    if n < m {
        lemma_bad_line(lines, n, m - 1);
    }
}

/// The judgements of a file of judgements, or the number of a line that has
/// too few words.
pub fn parse_qrels(s: &str) -> (r: Result<Vec<(String, String, u32)>, usize>)
    ensures
        match r {
            Ok(v) => judgements_in(trimmed_lines(s@), trimmed_lines(s@).len() as int) == Ok::<
                Seq<(Seq<char>, Seq<char>, u32)>,
                int,
            >(triple_texts(v@)),
            Err(line) => judgements_in(trimmed_lines(s@), trimmed_lines(s@).len() as int) == Err::<
                Seq<(Seq<char>, Seq<char>, u32)>,
                int,
            >(line as int),
        },
{
    let lines = lines_of(s);
    let ghost all = trimmed_lines(s@);
    let n: usize = lines.len();
    let mut out: Vec<(String, String, u32)> = Vec::new();
    let mut i: usize = 0;
    assert(triple_texts(out@) =~= Seq::<(Seq<char>, Seq<char>, u32)>::empty());
    while i < n
        invariant
            i <= n,
            n == lines@.len(),
            n == all.len(),
            all == trimmed_lines(s@),
            all == text::views(lines@),
            judgements_in(all, i as int) == Ok::<Seq<(Seq<char>, Seq<char>, u32)>, int>(
                triple_texts(out@),
            ),
        decreases n - i,
    {
        let line: &[char] = lines[i].as_slice();
        assert(all[i as int] == line@);
        if line.len() > 0 && line[0] != '#' {
            let words = text::split_words(line);
            let ghost ws = text::words(line@);
            assert(text::views(words@).len() == words@.len());
            if words.len() < 4 {
                proof {
                    lemma_bad_line(all, i + 1, n as int);
                }
                return Err(i + 1);
            }
            assert(ws[0] == words@[0]@ && ws[2] == words@[2]@ && ws[3] == words@[3]@);
            let rel: u32 = match text::parse_number(words[3].as_slice(), u32::MAX as u64) {
                Some(v) => v as u32,
                None => 0,
            };
            let ghost before = triple_texts(out@);
            out.push(
                (text::string_of(words[0].as_slice()), text::string_of(words[2].as_slice()), rel),
            );
            assert(triple_texts(out@) =~= before.push(judgement(ws)));
        }
        i += 1;
    }
    Ok(out)
}

/// The lines among the first `n` that are not blank.
pub open spec fn nonblank(lines: Seq<Seq<char>>, n: int) -> Seq<Seq<char>>
    decreases n,
{
    if n <= 0 {
        Seq::empty()
    } else if lines[n - 1].len() > 0 {
        nonblank(lines, n - 1).push(lines[n - 1])
    } else {
        nonblank(lines, n - 1)
    }
}

/// The queries of a file with one query per line.
pub fn parse_lines(s: &str) -> (out: Vec<String>)
    ensures
        block_max_wand::texts(out@) == nonblank(
            trimmed_lines(s@),
            trimmed_lines(s@).len() as int,
        ),
{
    let lines = lines_of(s);
    let ghost all = trimmed_lines(s@);
    let n: usize = lines.len();
    let mut out: Vec<String> = Vec::new();
    let mut i: usize = 0;
    assert(block_max_wand::texts(out@) =~= Seq::<Seq<char>>::empty());
    while i < n
        invariant
            i <= n,
            n == lines@.len(),
            all == text::views(lines@),
            block_max_wand::texts(out@) == nonblank(all, i as int),
        decreases n - i,
    {
        assert(all[i as int] == lines@[i as int]@);
        if lines[i].len() > 0 {
            let ghost before = block_max_wand::texts(out@);
            out.push(text::string_of(lines[i].as_slice()));
            assert(block_max_wand::texts(out@) =~= before.push(all[i as int]));
        }
        i += 1;
    }
    out
}

/// Where the first comma stands, or the end.
pub open spec fn comma(s: Seq<char>) -> int
    decreases s.len(),
{
    if s.len() == 0 || s[0] == ',' {
        0
    } else {
        1 + comma(s.drop_first())
    }
}

/// The numbers between the commas; what is no number is skipped.
pub open spec fn counts_in(s: Seq<char>) -> Seq<nat>
    decreases s.len(),
    via counts_decreases
{
    let at = comma(s);
    let here = match text::number(text::trimmed(s.take(at)), usize::MAX as nat) {
        Some(n) => seq![n],
        None => Seq::empty(),
    };
    if at >= s.len() {
        here
    } else {
        here + counts_in(s.skip(at + 1))
    }
}

#[via_fn]
proof fn counts_decreases(s: Seq<char>) {
    lemma_comma(s);
}

proof fn lemma_comma(s: Seq<char>)
    ensures
        0 <= comma(s) <= s.len(),
        comma(s) < s.len() ==> s[comma(s)] == ',',
        forall|i: int| 0 <= i < comma(s) ==> #[trigger] s[i] != ',',
    decreases s.len(),
{
    if s.len() > 0 && s[0] != ',' {
        lemma_comma(s.drop_first());
        assert forall|i: int| 0 <= i < comma(s) implies #[trigger] s[i] != ',' by {
            if i > 0 {
                assert(s.drop_first()[i - 1] != ',');
            }
        }
    }
}

proof fn lemma_comma_at(s: Seq<char>, i: int)
    requires
        0 <= i <= s.len(),
        i < s.len() ==> s[i] == ',',
        forall|j: int| 0 <= j < i ==> #[trigger] s[j] != ',',
    ensures
        comma(s) == i,
{
    lemma_comma(s);
    let c = comma(s);
    if c < i {
        assert(s[c] != ',');
    } else if i < c {
        assert(s[i] != ',');
    }
}

/// As natural numbers.
pub open spec fn nats(v: Seq<usize>) -> Seq<nat> {
    Seq::new(v.len(), |i: int| v[i] as nat)
}

/// The candidate counts to try: those listed, or the usual one if none is.
pub fn parse_sweep(s: &str, usual: usize) -> (out: Vec<usize>)
    ensures
        nats(out@) == if counts_in(s@).len() == 0 {
            seq![usual as nat]
        } else {
            counts_in(s@)
        },
{
    let chars = text::chars_of(s);
    let n: usize = chars.len();
    let mut out: Vec<usize> = Vec::new();
    let mut at: usize = 0;
    let mut go: bool = true;
    assert(chars@.skip(0) =~= chars@);
    assert(nats(out@) + counts_in(chars@.skip(0)) =~= counts_in(s@));
    while go
        invariant
            n == chars@.len(),
            chars@ == s@,
            at <= n,
            go ==> nats(out@) + counts_in(chars@.skip(at as int)) == counts_in(s@),
            !go ==> nats(out@) == counts_in(s@),
        decreases n - at, go as int,
    {
        let rest: &[char] = slice_subrange(chars.as_slice(), at, n);
        assert(rest@ =~= chars@.skip(at as int));
        let len: usize = rest.len();
        let end: usize = match text::find(rest, ',') {
            Some(c) => c,
            None => len,
        };
        proof {
            lemma_comma_at(rest@, end as int);
        }
        let piece: &[char] = slice_subrange(rest, 0, end);
        assert(piece@ =~= rest@.take(end as int));
        let ghost before = nats(out@);
        let ghost mut here: Seq<nat> = Seq::empty();
        if let Some(v) = text::parse_number(text::trim(piece), usize::MAX as u64) {
            out.push(v as usize);
            proof {
                here = seq![v as nat];
            }
            assert(nats(out@) =~= before + here);
        } else {
            assert(nats(out@) =~= before + here);
        }
        if end == len {
            assert(before + counts_in(rest@) =~= nats(out@));
            go = false;
        } else {
            proof {
                assert(rest@.skip(end + 1) =~= chars@.skip(at + end + 1));
                assert(counts_in(rest@) == here + counts_in(chars@.skip(at + end + 1)));
                assert(before + counts_in(rest@) =~= nats(out@) + counts_in(
                    chars@.skip(at + end + 1),
                ));
            }
            at = at + end + 1;
        }
    }
    if out.len() == 0 {
        assert(nats(out@).len() == 0);
        out.push(usual);
        assert(nats(out@) =~= seq![usual as nat]);
    }
    out
}

/// What a line at the prompt asks for.
pub enum PromptLine {
    /// Repeat the last query this many times.
    Bench(usize),
    Nothing,
    Query(String),
}

/// What is said at the prompt. Without a number a benchmark repeats a
/// thousand times.
pub fn prompt_line(line: &str) -> (p: PromptLine)
    ensures
        ({
            let query = text::trimmed(line@);
            if text::begins(query, "\\bench"@) {
                p == PromptLine::Bench(
                    match text::number(
                        text::trimmed(query.skip("\\bench"@.len() as int)),
                        usize::MAX as nat,
                    ) {
                        Some(n) => n as usize,
                        None => 1000,
                    },
                )
            } else if query.len() == 0 {
                p is Nothing
            } else {
                p matches PromptLine::Query(q) && q@ == query
            }
        }),
{
    proof {
        reveal_strlit("\\bench");
    }
    let chars = text::chars_of(line);
    let query: &[char] = text::trim(chars.as_slice());
    let n: usize = query.len();
    if text::starts_with(query, "\\bench") {
        let rest: &[char] = slice_subrange(query, 6, n);
        assert(rest@ =~= query@.skip(6));
        return match text::parse_number(text::trim(rest), usize::MAX as u64) {
            Some(v) => PromptLine::Bench(v as usize),
            None => PromptLine::Bench(1000),
        };
    }
    if n == 0 {
        return PromptLine::Nothing;
    }
    PromptLine::Query(text::string_of(query))
}

// ---------------------------------------------------------------------------
// Texts to encode
// ---------------------------------------------------------------------------

pub open spec fn input_ids(docs: Seq<InputDoc>) -> Seq<Seq<char>> {
    Seq::new(docs.len(), |i: int| docs[i].id@)
}

/// The text that is encoded for an indexed document: title and body of the
/// last input with its id, or its title and id if there is none.
pub open spec fn embed_text(docs: Seq<InputDoc>, id: Seq<char>, title: Seq<char>) -> Seq<char> {
    match lookup::last_in(input_ids(docs), id) {
        Some(i) => docs[i].title@ + "\n"@ + docs[i].body@,
        None => title + "\n"@ + id,
    }
}

/// The texts to encode for the documents of an index, in order.
pub fn embed_texts(docs: &[InputDoc], indexed: &[DocSummary]) -> (out: Vec<String>)
    ensures
        out@.len() == indexed@.len(),
        forall|d: int|
            0 <= d < out@.len() ==> (#[trigger] out@[d])@ == embed_text(
                docs@,
                indexed@[d].id@,
                indexed@[d].title@,
            ),
{
    let count: usize = docs.len();
    let mut ids: Vec<String> = Vec::new();
    let mut i: usize = 0;
    while i < count
        invariant
            i <= count,
            count == docs@.len(),
            ids@.len() == i,
            forall|j: int| 0 <= j < i ==> (#[trigger] ids@[j])@ == docs@[j].id@,
        decreases count - i,
    {
        ids.push(docs[i].id.clone());
        i += 1;
    }
    assert(interner::name_views(ids@) =~= input_ids(docs@));
    let known = Lookup::new(ids);
    let n: usize = indexed.len();
    let mut out: Vec<String> = Vec::new();
    let mut d: usize = 0;
    while d < n
        invariant
            d <= n,
            n == indexed@.len(),
            count == docs@.len(),
            known.wf(),
            known@ == input_ids(docs@),
            out@.len() == d,
            forall|j: int|
                0 <= j < d ==> (#[trigger] out@[j])@ == embed_text(
                    docs@,
                    indexed@[j].id@,
                    indexed@[j].title@,
                ),
        decreases n - d,
    {
        let mut chars: Vec<char> = Vec::new();
        match known.find(indexed[d].id.as_str()) {
            Some(i) => {
                text::append_str(&mut chars, docs[i].title.as_str());
                text::append_str(&mut chars, "\n");
                text::append_str(&mut chars, docs[i].body.as_str());
            },
            None => {
                text::append_str(&mut chars, indexed[d].title.as_str());
                text::append_str(&mut chars, "\n");
                text::append_str(&mut chars, indexed[d].id.as_str());
            },
        }
        assert(chars@ =~= embed_text(docs@, indexed@[d as int].id@, indexed@[d as int].title@));
        out.push(text::string_of(chars.as_slice()));
        d += 1;
    }
    out
}

/// How often a query is run before it is timed.
pub fn warm_up_runs(n: usize) -> (w: usize)
    ensures
        w == if n / 10 < 1 {
            1
        } else {
            n / 10
        },
{
    if n / 10 < 1 {
        1
    } else {
        n / 10
    }
}

/// Percent-encoding works byte by byte: a letter, a digit and each of `-._~`
/// stays, any other byte becomes `%` and its two hexadecimal digits.
pub proof fn law_percent_encoding(bytes: Seq<u8>, b: u8)
    ensures
        encoded(Seq::empty()) == Seq::<char>::empty(),
        '0' <= b as char <= '9' || 'A' <= b as char <= 'Z' || 'a' <= b as char <= 'z' || b as char
            == '-' || b as char == '.' || b as char == '_' || b as char == '~' ==> encoded(
            bytes.push(b),
        ) == encoded(bytes).push(b as char),
        !('0' <= b as char <= '9' || 'A' <= b as char <= 'Z' || 'a' <= b as char <= 'z' || b as char
            == '-' || b as char == '.' || b as char == '_' || b as char == '~') ==> encoded(
            bytes.push(b),
        ) == encoded(bytes).push('%').push("0123456789ABCDEF"@[b as int / 16]).push(
            "0123456789ABCDEF"@[b as int % 16],
        ),
{
    reveal_strlit("0123456789ABCDEF");
    let all = bytes.push(b);
    assert(all.drop_last() =~= bytes);
    assert(all.last() == b);
    if unreserved(b) {
        assert(encoded(all) =~= encoded(bytes).push(b as char));
    } else {
        let hi = b as nat / 16;
        let lo = b as nat % 16;
        assert(upper_digit(hi) == "0123456789ABCDEF"@[hi as int]);
        assert(upper_digit(lo) == "0123456789ABCDEF"@[lo as int]);
        assert(encoded(all) =~= encoded(bytes).push('%').push(upper_digit(hi)).push(
            upper_digit(lo),
        ));
    }
}

/// Text in which a placeholder cannot begin is left as it is, and what follows a
/// placeholder is treated like any other text.
pub proof fn law_replacing(
    head: Seq<char>,
    tail: Seq<char>,
    what: Seq<char>,
    with: Seq<char>,
)
    requires
        what.len() > 0,
        !head.contains(what[0]),
    ensures
        replaced(head, what, with) == head,
        replaced(head + what + tail, what, with) == head + with + replaced(tail, what, with),
    decreases head.len(),
{
    let s = head + what + tail;
    if head.len() == 0 {
        assert(s.take(what.len() as int) =~= what);
        assert(s.skip(what.len() as int) =~= tail);
        assert(head + with + replaced(tail, what, with) =~= with + replaced(tail, what, with));
    } else {
        let rest = head.drop_first();
        assert(!rest.contains(what[0])) by {
            if rest.contains(what[0]) {
                let i = choose|i: int| 0 <= i < rest.len() && rest[i] == what[0];
                assert(head[i + 1] == what[0]);
            }
        }
        law_replacing(rest, tail, what, with);
        assert(head.contains(head[0]));
        assert(s[0] == head[0]);
        assert(!text::begins(s, what)) by {
            if text::begins(s, what) {
                assert(s.take(what.len() as int)[0] == s[0]);
            }
        }
        assert(!text::begins(head, what)) by {
            if text::begins(head, what) {
                assert(head.take(what.len() as int)[0] == head[0]);
            }
        }
        assert(s.drop_first() =~= rest + what + tail);
        assert(seq![head[0]] + rest =~= head);
        assert(seq![head[0]] + (rest + with + replaced(tail, what, with)) =~= head + with
            + replaced(tail, what, with));
    }
}

/// A link is the template with the encoded id in the place of `{id}`, and the
/// encoded title in the place of `{title}`.
pub proof fn law_result_urls(a: Seq<char>, b: Seq<char>, id: Seq<char>, title: Seq<char>)
    requires
        !a.contains('{'),
        !b.contains('{'),
    ensures
        url_of(a, id, title) == a,
        url_of(a + "{id}"@ + b, id, title) == a + encoded(encode_utf8(id)) + b,
        url_of(a + "{title}"@ + b, id, title) == a + encoded(encode_utf8(title)) + b,
{
    reveal_strlit("{id}");
    reveal_strlit("{title}");
    let x = encoded(encode_utf8(id));
    let y = encoded(encode_utf8(title));
    lemma_no_brace(encode_utf8(id));
    law_replacing(a, b, "{id}"@, x);
    law_replacing(b, a, "{id}"@, x);
    law_replacing(a, b, "{title}"@, y);
    law_replacing(b, a, "{title}"@, y);
    let c = a + x + b;
    assert(!c.contains('{')) by {
        if c.contains('{') {
            let i = choose|i: int| 0 <= i < c.len() && c[i] == '{';
            if i < a.len() {
                assert(a[i] == '{');
            } else if i < a.len() + x.len() {
                assert(x[i - a.len()] == '{');
            } else {
                assert(b[i - a.len() - x.len()] == '{');
            }
        }
    }
    law_replacing(c, b, "{title}"@, y);
    lemma_other_placeholder(a, b, x);
}

/// The first pass leaves the title's placeholder as it is.
proof fn lemma_other_placeholder(a: Seq<char>, b: Seq<char>, x: Seq<char>)
    requires
        !a.contains('{'),
        !b.contains('{'),
    ensures
        replaced(a + "{title}"@ + b, "{id}"@, x) == a + "{title}"@ + b,
    decreases a.len(),
{
    reveal_strlit("{id}");
    reveal_strlit("{title}");
    let what = "{id}"@;
    let s = a + "{title}"@ + b;
    if a.len() > 0 {
        let rest = a.drop_first();
        assert(!rest.contains('{')) by {
            if rest.contains('{') {
                let i = choose|i: int| 0 <= i < rest.len() && rest[i] == '{';
                assert(a[i + 1] == '{');
            }
        }
        lemma_other_placeholder(rest, b, x);
        assert(a.contains(a[0]));
        if text::begins(s, what) {
            assert(s.take(4)[0] == s[0]);
        }
        assert(s.drop_first() =~= rest + "{title}"@ + b);
        assert(seq![s[0]] + s.drop_first() =~= s);
    } else {
        if text::begins(s, what) {
            assert(s.take(4)[1] == s[1]);
        }
        let t = s.drop_first();
        assert(!t.contains('{')) by {
            if t.contains('{') {
                let i = choose|i: int| 0 <= i < t.len() && t[i] == '{';
                if i >= 6 {
                    assert(b[i - 6] == '{');
                } else {
                    assert(t[i] == "{title}"@[i + 1]);
                }
            }
        }
        law_replacing(t, b, what, x);
        assert(seq![s[0]] + t =~= s);
    }
}

proof fn lemma_no_brace(bytes: Seq<u8>)
    ensures
        !encoded(bytes).contains('{'),
    decreases bytes.len(),
{
    if bytes.len() > 0 {
        let front = encoded(bytes.drop_last());
        let last = encoded_byte(bytes.last());
        lemma_no_brace(bytes.drop_last());
        let all = front + last;
        if all.contains('{') {
            let i = choose|i: int| 0 <= i < all.len() && all[i] == '{';
            if i < front.len() {
                assert(front[i] == '{');
            } else {
                assert(last[i - front.len()] == '{');
            }
        }
    }
}

/// A line that asks a query: an id, a tab, and the query.
pub open spec fn asks(line: Seq<char>, q: (Seq<char>, Seq<char>)) -> bool {
    line == q.0.push('\t') + q.1 && !q.0.contains('\t')
}

/// Each line with a tab that does not begin with `#` asks one query, in order.
pub proof fn law_query_lines(lines: Seq<Seq<char>>, n: int)
    requires
        0 <= n <= lines.len(),
    ensures
        ({
            let asking = lines.take(n).filter(
                |l: Seq<char>| l.len() > 0 && l[0] != '#' && l.contains('\t'),
            );
            let out = queries_in(lines, n);
            &&& out.len() == asking.len()
            &&& forall|i: int| 0 <= i < out.len() ==> asks(#[trigger] asking[i], out[i])
        }),
    decreases n,
{
    reveal(Seq::filter);
    let f = |l: Seq<char>| l.len() > 0 && l[0] != '#' && l.contains('\t');
    if n > 0 {
        law_query_lines(lines, n - 1);
        assert(lines.take(n).drop_last() =~= lines.take(n - 1));
        let line = lines[n - 1];
        if f(line) {
            let tab = line.index_of_first('\t')->Some_0;
            line.index_of_first_ensures('\t');
            assert(line =~= line.take(tab).push('\t') + line.skip(tab + 1));
            assert(!line.take(tab).contains('\t')) by {
                if line.take(tab).contains('\t') {
                    let i = choose|i: int| 0 <= i < tab && line.take(tab)[i] == '\t';
                    assert(line[i] == '\t');
                }
            }
            let asking = lines.take(n).filter(f);
            let out = queries_in(lines, n);
            assert forall|i: int| 0 <= i < out.len() implies asks(#[trigger] asking[i], out[i]) by {
                if i + 1 < out.len() {
                    assert(asks(lines.take(n - 1).filter(f)[i], queries_in(lines, n - 1)[i]));
                }
            }
        }
    }
}

/// A file of judgements is read up to its first line of fewer than four words,
/// which is named; the first, the third and the fourth word of each line count.
pub proof fn law_judgement_lines(lines: Seq<Seq<char>>, n: int)
    requires
        0 <= n <= lines.len(),
    ensures
        judgements_in(lines, n) matches Err(e) ==> {
            &&& 1 <= e <= n
            &&& lines[e - 1].len() > 0 && lines[e - 1][0] != '#'
            &&& text::words(lines[e - 1]).len() < 4
            &&& judgements_in(lines, e - 1) is Ok
        },
        judgements_in(lines, n) matches Ok(out) ==> {
            let judged = lines.take(n).filter(|l: Seq<char>| l.len() > 0 && l[0] != '#');
            &&& out.len() == judged.len()
            &&& forall|i: int|
                0 <= i < out.len() ==> {
                    let words = text::words(#[trigger] judged[i]);
                    &&& words.len() >= 4
                    &&& out[i].0 == words[0]
                    &&& out[i].1 == words[2]
                    &&& text::number(words[3], u32::MAX as nat) matches Some(r) ==> out[i].2 == r as u32
                    &&& text::number(words[3], u32::MAX as nat) is None ==> out[i].2 == 0
                }
        },
    decreases n,
{
    reveal(Seq::filter);
    let f = |l: Seq<char>| l.len() > 0 && l[0] != '#';
    if n > 0 {
        law_judgement_lines(lines, n - 1);
        assert(lines.take(n).drop_last() =~= lines.take(n - 1));
        if judgements_in(lines, n) is Ok && f(lines[n - 1]) {
            let judged = lines.take(n).filter(f);
            let front = lines.take(n - 1).filter(f);
            assert(judged =~= front.push(lines[n - 1]));
        }
    }
}

/// Blank lines are left out, the others kept in order.
pub proof fn law_plain_lines(lines: Seq<Seq<char>>, n: int)
    requires
        0 <= n <= lines.len(),
    ensures
        nonblank(lines, n) == lines.take(n).filter(|l: Seq<char>| l.len() > 0),
    decreases n,
{
    reveal(Seq::filter);
    if n > 0 {
        law_plain_lines(lines, n - 1);
        assert(lines.take(n).drop_last() =~= lines.take(n - 1));
    } else {
        assert(lines.take(n).filter(|l: Seq<char>| l.len() > 0) =~= Seq::<Seq<char>>::empty());
    }
}

/// A sweep lists numbers between commas; what is no number is left out.
pub proof fn law_sweeps(a: Seq<char>, b: Seq<char>)
    requires
        !a.contains(','),
    ensures
        counts_in(a) == match text::number(text::trimmed(a), usize::MAX as nat) {
            Some(n) => seq![n],
            None => Seq::empty(),
        },
        counts_in(a + seq![','] + b) == counts_in(a) + counts_in(b),
{
    let s = a + seq![','] + b;
    lemma_comma_free(a, Seq::empty());
    assert(a + Seq::<char>::empty() =~= a);
    lemma_comma_free(a, seq![','] + b);
    assert(a + (seq![','] + b) =~= s);
    let n = a.len() as int;
    assert(a.take(n) =~= a);
    assert(s.take(n) =~= a);
    assert(s.skip(n + 1) =~= b);
}

proof fn lemma_comma_free(a: Seq<char>, rest: Seq<char>)
    requires
        !a.contains(','),
        rest.len() > 0 ==> rest[0] == ',',
    ensures
        comma(a + rest) == a.len(),
    decreases a.len(),
{
    let s = a + rest;
    if a.len() > 0 {
        let c = a.drop_first();
        assert(a.contains(a[0]));
        assert(s[0] == a[0]);
        assert(!c.contains(',')) by {
            if c.contains(',') {
                let i = choose|i: int| 0 <= i < c.len() && c[i] == ',';
                assert(a[i + 1] == ',');
            }
        }
        assert(s.drop_first() =~= c + rest);
        lemma_comma_free(c, rest);
    } else {
        assert(s =~= rest);
    }
}

} // verus!
