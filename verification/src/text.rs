//! Text as sequences of characters: trimming, lines, joining, numbers.
//!
//! A text is handled as its characters, so that every operation has a
//! sequence as its model.

use vstd::prelude::*;
use vstd::slice::slice_subrange;

verus! {

/// `String::push` appends one character.
pub assume_specification[ String::push ](s: &mut String, c: char)
    ensures
        final(s)@ == old(s)@.push(c),
;

/// Whether a character is alphabetic or numeric in the sense of Unicode.
pub uninterp spec fn alphanumeric(c: char) -> bool;

/// `char::is_alphanumeric`: a property of the character alone, which among
/// the ASCII characters holds of the digits and the letters.
pub assume_specification[ char::is_alphanumeric ](c: char) -> (r: bool)
    ensures
        r == alphanumeric(c),
        (c as u32) < 128 ==> (r <==> ('0' <= c <= '9' || 'A' <= c <= 'Z' || 'a' <= c <= 'z')),
;

/// The characters of `s`.
pub fn chars_of(s: &str) -> (out: Vec<char>)
    ensures
        out@ == s@,
{
    let mut out: Vec<char> = Vec::new();
    for c in it: s.chars()
        invariant
            it.seq() == s@,
            out@ == s@.take(it.index() as int),
    {
        out.push(c);
        assert(out@ =~= s@.take(it.index() + 1));
    }
    assert(out@ =~= s@);
    out
}

/// Append `chars` to `s`.
pub fn push_chars(s: &mut String, chars: &[char])
    ensures
        final(s)@ == old(s)@ + chars@,
{
    let ghost start = s@;
    let mut i: usize = 0;
    assert(s@ =~= start + chars@.take(0));
    while i < chars.len()
        invariant
            i <= chars@.len(),
            s@ == start + chars@.take(i as int),
        decreases chars@.len() - i,
    {
        s.push(chars[i]);
        assert(s@ =~= start + chars@.take(i + 1));
        i += 1;
    }
    assert(chars@.take(i as int) =~= chars@);
}

/// The string made of `chars`.
pub fn string_of(chars: &[char]) -> (s: String)
    ensures
        s@ == chars@,
{
    let mut s = String::new();
    push_chars(&mut s, chars);
    assert(s@ =~= chars@);
    s
}

/// The characters of each of `parts`.
pub open spec fn views(parts: Seq<Vec<char>>) -> Seq<Seq<char>> {
    Seq::new(parts.len(), |i: int| parts[i]@)
}

/// A copy of `chars`.
pub fn to_vec(chars: &[char]) -> (out: Vec<char>)
    ensures
        out@ == chars@,
{
    let mut out: Vec<char> = Vec::new();
    let mut i: usize = 0;
    while i < chars.len()
        invariant
            i <= chars@.len(),
            out@ == chars@.take(i as int),
        decreases chars@.len() - i,
    {
        out.push(chars[i]);
        assert(out@ =~= chars@.take(i + 1));
        i += 1;
    }
    assert(out@ =~= chars@);
    out
}

/// Append `chars` to `out`.
pub fn append(out: &mut Vec<char>, chars: &[char])
    ensures
        final(out)@ == old(out)@ + chars@,
{
    let ghost start = out@;
    let mut i: usize = 0;
    assert(out@ =~= start + chars@.take(0));
    while i < chars.len()
        invariant
            i <= chars@.len(),
            out@ == start + chars@.take(i as int),
        decreases chars@.len() - i,
    {
        out.push(chars[i]);
        assert(out@ =~= start + chars@.take(i + 1));
        i += 1;
    }
    assert(chars@.take(i as int) =~= chars@);
}

/// Append the characters of `s` to `out`.
pub fn append_str(out: &mut Vec<char>, s: &str)
    ensures
        final(out)@ == old(out)@ + s@,
{
    let chars = chars_of(s);
    append(out, chars.as_slice());
}

/// Do the two texts agree?
pub fn same(a: &[char], b: &[char]) -> (r: bool)
    ensures
        r == (a@ == b@),
{
    if a.len() != b.len() {
        return false;
    }
    let mut i: usize = 0;
    while i < a.len()
        invariant
            a@.len() == b@.len(),
            i <= a@.len(),
            forall|k: int| 0 <= k < i ==> #[trigger] a@[k] == b@[k],
        decreases a@.len() - i,
    {
        if a[i] != b[i] {
            return false;
        }
        i += 1;
    }
    assert(a@ =~= b@);
    true
}

/// Is `s` the string `lit`?
pub fn is(s: &[char], lit: &str) -> (r: bool)
    ensures
        r == (s@ == lit@),
{
    let chars = chars_of(lit);
    same(s, chars.as_slice())
}

/// `s` begins with `p`.
pub open spec fn begins(s: Seq<char>, p: Seq<char>) -> bool {
    p.len() <= s.len() && s.take(p.len() as int) == p
}

/// `s` ends with `p`.
pub open spec fn ends(s: Seq<char>, p: Seq<char>) -> bool {
    p.len() <= s.len() && s.skip(s.len() - p.len()) == p
}

pub fn starts_with(s: &[char], lit: &str) -> (r: bool)
    ensures
        r == begins(s@, lit@),
{
    let p = chars_of(lit);
    if p.len() > s.len() {
        return false;
    }
    let head: &[char] = slice_subrange(s, 0, p.len());
    assert(head@ =~= s@.take(p@.len() as int));
    same(head, p.as_slice())
}

pub fn ends_with(s: &[char], lit: &str) -> (r: bool)
    ensures
        r == ends(s@, lit@),
{
    let p = chars_of(lit);
    if p.len() > s.len() {
        return false;
    }
    let tail: &[char] = slice_subrange(s, s.len() - p.len(), s.len());
    assert(tail@ =~= s@.skip(s@.len() - p@.len()));
    same(tail, p.as_slice())
}

/// Unicode white space.
pub open spec fn white(c: char) -> bool {
    let n = c as u32;
    9 <= n <= 13 || n == 32 || n == 0x85 || n == 0xA0 || n == 0x1680 || 0x2000 <= n <= 0x200A || n
        == 0x2028 || n == 0x2029 || n == 0x202F || n == 0x205F || n == 0x3000
}

pub fn is_white(c: char) -> (r: bool)
    ensures
        r == white(c),
{
    let n: u32 = c as u32;
    (9 <= n && n <= 13) || n == 32 || n == 0x85 || n == 0xA0 || n == 0x1680 || (0x2000 <= n && n
        <= 0x200A) || n == 0x2028 || n == 0x2029 || n == 0x202F || n == 0x205F || n == 0x3000
}

/// `s` without the characters it begins with that satisfy `f`.
pub open spec fn skip_while(s: Seq<char>, f: spec_fn(char) -> bool) -> Seq<char>
    decreases s.len(),
{
    if s.len() > 0 && f(s[0]) {
        skip_while(s.drop_first(), f)
    } else {
        s
    }
}

/// `s` without the characters it ends with that satisfy `f`.
pub open spec fn cut_while(s: Seq<char>, f: spec_fn(char) -> bool) -> Seq<char>
    decreases s.len(),
{
    if s.len() > 0 && f(s.last()) {
        cut_while(s.drop_last(), f)
    } else {
        s
    }
}

/// How many characters `s` begins with satisfy `f`.
pub open spec fn run_len(s: Seq<char>, f: spec_fn(char) -> bool) -> nat
    decreases s.len(),
{
    if s.len() > 0 && f(s[0]) {
        1 + run_len(s.drop_first(), f)
    } else {
        0
    }
}

pub proof fn lemma_run_len_bound(s: Seq<char>, f: spec_fn(char) -> bool)
    ensures
        run_len(s, f) <= s.len(),
    decreases s.len(),
{
    if s.len() > 0 && f(s[0]) {
        lemma_run_len_bound(s.drop_first(), f);
    }
}

pub proof fn lemma_skip_while_shorter(s: Seq<char>, f: spec_fn(char) -> bool)
    ensures
        skip_while(s, f).len() <= s.len(),
    decreases s.len(),
{
    if s.len() > 0 && f(s[0]) {
        lemma_skip_while_shorter(s.drop_first(), f);
    }
}

pub open spec fn white_fn() -> spec_fn(char) -> bool {
    |c: char| white(c)
}

pub open spec fn just(c: char) -> spec_fn(char) -> bool {
    |x: char| x == c
}

/// `s` without leading white space.
pub open spec fn trimmed_start(s: Seq<char>) -> Seq<char> {
    skip_while(s, white_fn())
}

/// `s` without trailing white space.
pub open spec fn trimmed_end(s: Seq<char>) -> Seq<char> {
    cut_while(s, white_fn())
}

/// `s` without white space around it.
pub open spec fn trimmed(s: Seq<char>) -> Seq<char> {
    trimmed_end(trimmed_start(s))
}

pub fn trim_start(s: &[char]) -> (r: &[char])
    ensures
        r@ == trimmed_start(s@),
{
    let mut i: usize = 0;
    assert(s@.skip(0) =~= s@);
    while i < s.len() && is_white(s[i])
        invariant
            i <= s@.len(),
            trimmed_start(s@) == trimmed_start(s@.skip(i as int)),
        decreases s@.len() - i,
    {
        assert(s@.skip(i as int).drop_first() =~= s@.skip(i + 1));
        i += 1;
    }
    let r: &[char] = slice_subrange(s, i, s.len());
    assert(r@ =~= s@.skip(i as int));
    r
}

pub fn trim_end(s: &[char]) -> (r: &[char])
    ensures
        r@ == trimmed_end(s@),
{
    let mut i: usize = s.len();
    assert(s@.take(i as int) =~= s@);
    while i > 0 && is_white(s[i - 1])
        invariant
            i <= s@.len(),
            trimmed_end(s@) == trimmed_end(s@.take(i as int)),
        decreases i,
    {
        assert(s@.take(i as int).drop_last() =~= s@.take(i - 1));
        assert(s@.take(i as int).last() == s@[i - 1]);
        i -= 1;
    }
    let r: &[char] = slice_subrange(s, 0, i);
    proof {
        assert(r@ =~= s@.take(i as int));
        if i > 0 {
            assert(s@.take(i as int).last() == s@[i - 1]);
        }
    }
    r
}

pub fn trim(s: &[char]) -> (r: &[char])
    ensures
        r@ == trimmed(s@),
{
    trim_end(trim_start(s))
}

/// Drop the leading characters equal to `c`.
pub fn trim_start_char(s: &[char], c: char) -> (r: &[char])
    ensures
        r@ == skip_while(s@, just(c)),
{
    let mut i: usize = 0;
    assert(s@.skip(0) =~= s@);
    while i < s.len() && s[i] == c
        invariant
            i <= s@.len(),
            skip_while(s@, just(c)) == skip_while(s@.skip(i as int), just(c)),
        decreases s@.len() - i,
    {
        assert(s@.skip(i as int).drop_first() =~= s@.skip(i + 1));
        i += 1;
    }
    let r: &[char] = slice_subrange(s, i, s.len());
    assert(r@ =~= s@.skip(i as int));
    r
}

/// Drop the trailing characters equal to `c`.
pub fn trim_end_char(s: &[char], c: char) -> (r: &[char])
    ensures
        r@ == cut_while(s@, just(c)),
{
    let mut i: usize = s.len();
    assert(s@.take(i as int) =~= s@);
    while i > 0 && s[i - 1] == c
        invariant
            i <= s@.len(),
            cut_while(s@, just(c)) == cut_while(s@.take(i as int), just(c)),
        decreases i,
    {
        assert(s@.take(i as int).drop_last() =~= s@.take(i - 1));
        assert(s@.take(i as int).last() == s@[i - 1]);
        i -= 1;
    }
    let r: &[char] = slice_subrange(s, 0, i);
    proof {
        assert(r@ =~= s@.take(i as int));
        if i > 0 {
            assert(s@.take(i as int).last() == s@[i - 1]);
        }
    }
    r
}

pub open spec fn not_white() -> spec_fn(char) -> bool {
    |c: char| !white(c)
}

/// How many characters the text begins with are no white space.
pub fn word_len(s: &[char]) -> (n: usize)
    ensures
        n == run_len(s@, not_white()),
        n <= s@.len(),
{
    proof {
        lemma_run_len_bound(s@, not_white());
    }
    let mut n: usize = 0;
    assert(s@.skip(0) =~= s@);
    while n < s.len() && !is_white(s[n])
        invariant
            n <= s@.len(),
            run_len(s@, not_white()) == n + run_len(s@.skip(n as int), not_white()),
        decreases s@.len() - n,
    {
        assert(s@.skip(n as int).drop_first() =~= s@.skip(n + 1));
        assert(s@.skip(n as int)[0] == s@[n as int]);
        n += 1;
    }
    proof {
        if n < s@.len() {
            assert(s@.skip(n as int)[0] == s@[n as int]);
        }
    }
    n
}

/// The first word of a text, empty if there is none.
pub open spec fn first_word(s: Seq<char>) -> Seq<char> {
    let rest = trimmed_start(s);
    rest.take(run_len(rest, not_white()) as int)
}

/// The words of a text: what stands between white space.
pub open spec fn words(s: Seq<char>) -> Seq<Seq<char>>
    decreases s.len(),
    via words_decreases
{
    let rest = trimmed_start(s);
    let n = run_len(rest, not_white()) as int;
    if n == 0 {
        Seq::empty()
    } else {
        seq![rest.take(n)] + words(rest.skip(n))
    }
}

#[via_fn]
proof fn words_decreases(s: Seq<char>) {
    let rest = trimmed_start(s);
    lemma_skip_while_shorter(s, white_fn());
    lemma_run_len_bound(rest, not_white());
}

/// Split at white space.
pub fn split_words(s: &[char]) -> (out: Vec<Vec<char>>)
    ensures
        views(out@) == words(s@),
{
    let total: usize = s.len();
    let mut out: Vec<Vec<char>> = Vec::new();
    let mut at: usize = 0;
    let mut go: bool = true;
    assert(s@.skip(0) =~= s@);
    assert(views(out@) + words(s@) =~= words(s@));
    while go
        invariant
            total == s@.len(),
            at <= total,
            go ==> views(out@) + words(s@.skip(at as int)) == words(s@),
            !go ==> views(out@) == words(s@),
        decreases total - at, go as int,
    {
        let rest: &[char] = slice_subrange(s, at, total);
        assert(rest@ =~= s@.skip(at as int));
        let text: &[char] = trim_start(rest);
        let n: usize = word_len(text);
        proof {
            lemma_skip_while_shorter(rest@, white_fn());
            lemma_trimmed_tail(rest@);
        }
        if n == 0 {
            assert(views(out@) =~= views(out@) + words(rest@));
            go = false;
        } else {
            let ghost before = views(out@);
            let len: usize = text.len();
            let word = to_vec(slice_subrange(text, 0, n));
            assert(word@ =~= text@.take(n as int));
            out.push(word);
            assert(views(out@) =~= before.push(word@));
            at = total - (len - n);
            proof {
                assert(s@.skip(at as int) =~= text@.skip(n as int));
                assert(words(rest@) == seq![word@] + words(text@.skip(n as int)));
                assert(before + words(rest@) =~= views(out@) + words(s@.skip(at as int)));
            }
        }
    }
    out
}

proof fn lemma_trimmed_tail(s: Seq<char>)
    ensures
        trimmed_start(s) == s.skip(s.len() - trimmed_start(s).len()),
        trimmed_start(s).len() <= s.len(),
    decreases s.len(),
{
    if s.len() > 0 && white_fn()(s[0]) {
        lemma_trimmed_tail(s.drop_first());
        assert(trimmed_start(s) =~= s.skip(s.len() - trimmed_start(s).len()));
    } else {
        assert(s.skip(0) =~= s);
    }
}

/// `c` does not occur before position `i` of `s`.
pub open spec fn free_before(s: Seq<char>, c: char, i: int) -> bool {
    forall|k: int| 0 <= k < i ==> #[trigger] s[k] != c
}

/// `i` is the first position of `c` in `s`.
pub open spec fn first_at(s: Seq<char>, c: char, i: int) -> bool {
    0 <= i < s.len() && s[i] == c && free_before(s, c, i)
}

/// `i` is the last position of `c` in `s`.
pub open spec fn last_at(s: Seq<char>, c: char, i: int) -> bool {
    0 <= i < s.len() && s[i] == c && forall|k: int| i < k < s.len() ==> #[trigger] s[k] != c
}

pub fn find(s: &[char], c: char) -> (r: Option<usize>)
    ensures
        r matches Some(i) ==> first_at(s@, c, i as int),
        r is None ==> free_before(s@, c, s@.len() as int),
{
    let mut i: usize = 0;
    while i < s.len()
        invariant
            i <= s@.len(),
            free_before(s@, c, i as int),
        decreases s@.len() - i,
    {
        if s[i] == c {
            return Some(i);
        }
        i += 1;
    }
    None
}

pub fn rfind(s: &[char], c: char) -> (r: Option<usize>)
    ensures
        r matches Some(i) ==> last_at(s@, c, i as int),
        r is None ==> free_before(s@, c, s@.len() as int),
{
    let mut i: usize = s.len();
    while i > 0
        invariant
            i <= s@.len(),
            forall|k: int| i <= k < s@.len() ==> #[trigger] s@[k] != c,
        decreases i,
    {
        if s[i - 1] == c {
            return Some((i - 1) as usize);
        }
        i -= 1;
    }
    None
}

/// Does `c` occur in `s`?
pub fn has(s: &[char], c: char) -> (r: bool)
    ensures
        r == s@.contains(c),
{
    match find(s, c) {
        Some(i) => {
            assert(s@[i as int] == c);
            true
        },
        None => false,
    }
}

/// One line without its terminator: `\n` is not part of `s`, a `\r` before
/// the `\n` is dropped.
pub open spec fn line_body(s: Seq<char>) -> Seq<char> {
    if s.len() > 0 && s.last() == '\r' {
        s.drop_last()
    } else {
        s
    }
}

/// The lines of `s`: pieces ended by `\n` or `\r\n`, the last terminator
/// being optional. Given as the position of the current line and a scan
/// position at or after it.
pub open spec fn lines_from(s: Seq<char>, start: int, at: int) -> Seq<Seq<char>>
    decreases s.len() - at,
{
    if at >= s.len() {
        if 0 <= start < s.len() {
            seq![s.subrange(start, s.len() as int)]
        } else {
            Seq::empty()
        }
    } else if s[at] == '\n' {
        seq![line_body(s.subrange(start, at))] + lines_from(s, at + 1, at + 1)
    } else {
        lines_from(s, start, at + 1)
    }
}

/// The lines of `s`.
pub open spec fn lines(s: Seq<char>) -> Seq<Seq<char>> {
    lines_from(s, 0, 0)
}

/// Split into lines.
pub fn split_lines(s: &[char]) -> (out: Vec<Vec<char>>)
    ensures
        views(out@) == lines(s@),
{
    let mut out: Vec<Vec<char>> = Vec::new();
    let mut start: usize = 0;
    let mut at: usize = 0;
    assert(views(out@) + lines_from(s@, 0, 0) =~= lines(s@));
    while at < s.len()
        invariant
            start <= at <= s@.len(),
            views(out@) + lines_from(s@, start as int, at as int) == lines(s@),
        decreases s@.len() - at,
    {
        if s[at] == '\n' {
            let ghost before = views(out@);
            let end: usize = if at > start && s[at - 1] == '\r' { (at - 1) as usize } else { at };
            let line = to_vec(slice_subrange(s, start, end));
            proof {
                let piece = s@.subrange(start as int, at as int);
                if at > start {
                    assert(piece.last() == s@[at - 1]);
                }
                if at > start && s@[at - 1] == '\r' {
                    assert(line@ =~= piece.drop_last());
                }
                assert(line@ =~= line_body(piece));
            }
            out.push(line);
            proof {
                assert(views(out@) =~= before.push(line@));
                assert(before + lines_from(s@, start as int, at as int) =~= views(out@)
                    + lines_from(s@, at + 1, at + 1));
            }
            start = at + 1;
        }
        at += 1;
    }
    if start < s.len() {
        let ghost before = views(out@);
        let line = to_vec(slice_subrange(s, start, s.len()));
        out.push(line);
        assert(views(out@) =~= before.push(line@));
        assert(views(out@) =~= lines(s@));
    } else {
        assert(views(out@) =~= lines(s@));
    }
    out
}

/// `parts` with `sep` between neighbours.
pub open spec fn joined(parts: Seq<Seq<char>>, sep: Seq<char>) -> Seq<char>
    decreases parts.len(),
{
    if parts.len() == 0 {
        Seq::empty()
    } else if parts.len() == 1 {
        parts[0]
    } else {
        joined(parts.drop_last(), sep) + sep + parts.last()
    }
}

/// Join the parts from `lo` below `hi` with `sep`.
pub fn join_range(parts: &Vec<Vec<char>>, lo: usize, hi: usize, sep: char) -> (out: Vec<char>)
    requires
        lo <= hi <= parts@.len(),
    ensures
        out@ == joined(views(parts@).subrange(lo as int, hi as int), seq![sep]),
{
    let mut out: Vec<char> = Vec::new();
    let mut i: usize = lo;
    let ghost v = views(parts@);
    assert(v.subrange(lo as int, lo as int) =~= Seq::<Seq<char>>::empty());
    while i < hi
        invariant
            lo <= i <= hi <= parts@.len(),
            v == views(parts@),
            out@ == joined(v.subrange(lo as int, i as int), seq![sep]),
        decreases hi - i,
    {
        let ghost before = out@;
        if i > lo {
            out.push(sep);
        }
        append(&mut out, parts[i].as_slice());
        proof {
            let part = v.subrange(lo as int, i + 1);
            assert(part.last() == parts@[i as int]@);
            assert(part.drop_last() =~= v.subrange(lo as int, i as int));
            if i > lo {
                assert(out@ =~= before + seq![sep] + parts@[i as int]@);
            } else {
                assert(part[0] == parts@[i as int]@);
                assert(out@ =~= parts@[i as int]@);
            }
        }
        i += 1;
    }
    out
}

/// The decimal digit `d`.
pub open spec fn digit(d: nat) -> char {
    (48 + d) as char
}

/// `n` in decimal.
pub open spec fn decimal(n: nat) -> Seq<char>
    decreases n,
{
    if n < 10 {
        seq![digit(n)]
    } else {
        decimal(n / 10).push(digit(n % 10))
    }
}

/// Append `n` in decimal.
pub fn push_decimal(out: &mut Vec<char>, n: u64)
    ensures
        final(out)@ == old(out)@ + decimal(n as nat),
    decreases n,
{
    let ghost start = out@;
    if n >= 10 {
        push_decimal(out, n / 10);
    }
    let d: u8 = (n % 10) as u8;
    out.push((48 + d) as char);
    proof {
        if n >= 10 {
            assert(out@ =~= start + decimal(n as nat));
        } else {
            assert(out@ =~= start + decimal(n as nat));
        }
    }
}

/// Two decimal digits.
pub open spec fn two_digits(n: nat) -> Seq<char> {
    seq![digit(n / 10), digit(n % 10)]
}

/// Append the two digits of `n`.
pub fn push_two(out: &mut Vec<char>, n: u64)
    requires
        n < 100,
    ensures
        final(out)@ == old(out)@ + two_digits(n as nat),
{
    let ghost start = out@;
    let tens: u8 = (n / 10) as u8;
    let ones: u8 = (n % 10) as u8;
    out.push((48 + tens) as char);
    out.push((48 + ones) as char);
    assert(out@ =~= start + two_digits(n as nat));
}

/// The hexadecimal digit `d`, in lower case.
pub open spec fn hex_digit(d: nat) -> char {
    if d < 10 {
        (48 + d) as char
    } else {
        (87 + d) as char
    }
}

/// The last `n` hexadecimal digits of `v`.
pub open spec fn hex(v: nat, n: nat) -> Seq<char>
    decreases n,
{
    if n == 0 {
        Seq::empty()
    } else {
        hex(v / 16, (n - 1) as nat).push(hex_digit(v % 16))
    }
}

/// Append the last `n` hexadecimal digits of `v`.
pub fn push_hex(out: &mut Vec<char>, v: u64, n: usize)
    ensures
        final(out)@ == old(out)@ + hex(v as nat, n as nat),
    decreases n,
{
    let ghost start = out@;
    if n > 0 {
        push_hex(out, v / 16, n - 1);
        let d: u8 = (v % 16) as u8;
        if d < 10 {
            out.push((48 + d) as char);
        } else {
            out.push((87 + d) as char);
        }
    }
    assert(out@ =~= start + hex(v as nat, n as nat));
}

/// Every character is a decimal digit.
pub open spec fn all_digits(s: Seq<char>) -> bool {
    forall|i: int| 0 <= i < s.len() ==> '0' <= #[trigger] s[i] <= '9'
}

/// The number that decimal digits spell.
pub open spec fn dec_value(s: Seq<char>) -> nat
    decreases s.len(),
{
    if s.len() == 0 {
        0
    } else {
        dec_value(s.drop_last()) * 10 + (s.last() as u32 - 48) as nat
    }
}

/// The digits of a number: an optional `+` in front is not one of them.
pub open spec fn digits_of(s: Seq<char>) -> Seq<char> {
    if s.len() > 0 && s[0] == '+' {
        s.drop_first()
    } else {
        s
    }
}

/// What `s` reads as: at least one digit, all digits, at most `max`.
pub open spec fn number(s: Seq<char>, max: nat) -> Option<nat> {
    let d = digits_of(s);
    if d.len() > 0 && all_digits(d) && dec_value(d) <= max {
        Some(dec_value(d))
    } else {
        None
    }
}

proof fn lemma_dec_value_grows(s: Seq<char>, i: int)
    requires
        0 <= i <= s.len(),
    ensures
        dec_value(s.take(i)) <= dec_value(s),
    decreases s.len(),
{
    if i < s.len() {
        lemma_dec_value_grows(s.drop_last(), i);
        assert(s.drop_last().take(i) =~= s.take(i));
    } else {
        assert(s.take(i) =~= s);
    }
}

/// Read an unsigned number no larger than `max`.
pub fn parse_number(s: &[char], max: u64) -> (r: Option<u64>)
    ensures
        r matches Some(v) ==> number(s@, max as nat) == Some(v as nat),
        r is None ==> number(s@, max as nat) is None,
{
    let from: usize = if s.len() > 0 && s[0] == '+' { 1 } else { 0 };
    let ghost d = digits_of(s@);
    proof {
        if from == 1 {
            assert(s@.skip(1) =~= s@.drop_first());
        } else {
            assert(s@.skip(0) =~= s@);
        }
        assert(d == s@.skip(from as int));
    }
    if from == s.len() {
        return None;
    }
    let mut v: u64 = 0;
    let mut i: usize = from;
    assert(d.take(0) =~= Seq::<char>::empty());
    while i < s.len()
        invariant
            from <= i <= s@.len(),
            d == s@.skip(from as int),
            d == digits_of(s@),
            v == dec_value(d.take(i - from)),
            v <= max,
            forall|k: int| 0 <= k < i - from ==> '0' <= #[trigger] d[k] <= '9',
        decreases s@.len() - i,
    {
        let c: char = s[i];
        let ghost k = i - from;
        assert(d[k] == c);
        if !('0' <= c && c <= '9') {
            return None;
        }
        let x: u64 = (c as u32 - 48) as u64;
        proof {
            assert(d.take(k + 1).drop_last() =~= d.take(k));
            assert(d.take(k + 1).last() == c);
            lemma_dec_value_grows(d, k + 1);
        }
        if x > max || v > (max - x) / 10 {
            return None;
        }
        v = v * 10 + x;
        i += 1;
    }
    assert(d.take(i - from) =~= d);
    Some(v)
}

/// Writing a number and reading it back gives the number.
pub proof fn law_decimal_round_trip(n: nat, max: nat)
    requires
        n <= max,
    ensures
        number(decimal(n), max) == Some(n),
        all_digits(decimal(n)),
        decimal(n).len() > 0,
{
    lemma_decimal(n);
}

proof fn lemma_decimal(n: nat)
    ensures
        all_digits(decimal(n)),
        decimal(n).len() > 0,
        dec_value(decimal(n)) == n,
    decreases n,
{
    if n >= 10 {
        lemma_decimal(n / 10);
        let s = decimal(n);
        assert(s.drop_last() =~= decimal(n / 10));
        assert(s.last() as u32 == 48 + n % 10);
    } else {
        let s = decimal(n);
        assert(s.drop_last() =~= Seq::<char>::empty());
        assert(s.last() as u32 == 48 + n);
        assert(dec_value(s.drop_last()) == 0);
    }
}

/// Joining goes part by part: one part stays as it is, and between two lists
/// of parts stands one separator.
pub proof fn law_joined(a: Seq<Seq<char>>, b: Seq<Seq<char>>, p: Seq<char>, sep: Seq<char>)
    requires
        a.len() > 0,
        b.len() > 0,
    ensures
        joined(seq![p], sep) == p,
        joined(a + b, sep) == joined(a, sep) + sep + joined(b, sep),
    decreases b.len(),
{
    let c = a + b;
    assert(c.drop_last() =~= a + b.drop_last());
    if b.len() == 1 {
        assert(c.drop_last() =~= a);
    } else {
        law_joined(a, b.drop_last(), p, sep);
        assert(c.last() == b.last());
        assert(joined(c, sep) =~= joined(a, sep) + sep + joined(b, sep));
    }
}

/// Where the lines from `start` on are found does not depend on what comes
/// before.
proof fn lemma_lines_shift(x: Seq<char>, s: Seq<char>, start: int, at: int)
    requires
        0 <= start <= at <= s.len(),
    ensures
        lines_from(x + s, x.len() + start, x.len() + at) == lines_from(s, start, at),
    decreases s.len() - at,
{
    let y = x + s;
    let n = x.len() as int;
    if at >= s.len() {
        if start < s.len() {
            assert(y.subrange(n + start, y.len() as int) =~= s.subrange(start, s.len() as int));
        }
    } else if s[at] == '\n' {
        lemma_lines_shift(x, s, at + 1, at + 1);
        assert(y[n + at] == '\n');
        assert(y.subrange(n + start, n + at) =~= s.subrange(start, at));
    } else {
        lemma_lines_shift(x, s, start, at + 1);
        assert(y[n + at] == s[at]);
    }
}

proof fn lemma_lines_scan(a: Seq<char>, s: Seq<char>, at: int)
    requires
        0 <= at <= a.len(),
        !a.contains('\n'),
    ensures
        lines_from(a + s, 0, 0) == lines_from(a + s, 0, at),
    decreases at,
{
    if at > 0 {
        lemma_lines_scan(a, s, at - 1);
        assert((a + s)[at - 1] == a[at - 1]);
        assert(a.contains(a[at - 1]));
    }
}

/// Text without a line break is one line, none if it is empty. A line break
/// ends a line, together with a carriage return before it, and the lines of
/// the rest follow.
pub proof fn law_lines(a: Seq<char>, s: Seq<char>)
    requires
        !a.contains('\n'),
    ensures
        a.len() == 0 ==> lines(a).len() == 0,
        a.len() > 0 ==> lines(a) == seq![a],
        (a.len() == 0 || a.last() != '\r') ==> lines(a + seq!['\n'] + s) == seq![a] + lines(s),
        lines(a + seq!['\r', '\n'] + s) == seq![a] + lines(s),
{
    let none = Seq::<char>::empty();
    let n = a.len() as int;
    assert(a + none =~= a);
    lemma_lines_scan(a, none, n);
    if n > 0 {
        assert(a.subrange(0, n) =~= a);
    }
    let x = a + seq!['\n'];
    let t = x + s;
    assert(t =~= a + (seq!['\n'] + s));
    lemma_lines_scan(a, seq!['\n'] + s, n);
    lemma_lines_shift(x, s, 0, 0);
    assert(t[n] == '\n');
    assert(t.subrange(0, n) =~= a);
    let b = a.push('\r');
    let y = b + seq!['\n'];
    let u = y + s;
    assert(u =~= b + (seq!['\n'] + s));
    assert(u =~= a + seq!['\r', '\n'] + s);
    assert(!b.contains('\n')) by {
        if b.contains('\n') {
            let i = choose|i: int| 0 <= i < b.len() && b[i] == '\n';
            if i < n {
                assert(a[i] == '\n');
            }
        }
    }
    lemma_lines_scan(b, seq!['\n'] + s, n + 1);
    lemma_lines_shift(y, s, 0, 0);
    assert(u[n + 1] == '\n');
    assert(u.subrange(0, n + 1) =~= b);
    assert(b.drop_last() =~= a);
}

proof fn lemma_skipped(s: Seq<char>, f: spec_fn(char) -> bool) -> (n: int)
    ensures
        0 <= n <= s.len(),
        skip_while(s, f) == s.skip(n),
        forall|i: int| 0 <= i < n ==> f(#[trigger] s[i]),
        n < s.len() ==> !f(s[n]),
    decreases s.len(),
{
    if s.len() > 0 && f(s[0]) {
        let t = s.drop_first();
        let m = lemma_skipped(t, f);
        assert(t.skip(m) =~= s.skip(m + 1));
        assert forall|i: int| 0 <= i < m + 1 implies f(#[trigger] s[i]) by {
            if i > 0 {
                assert(f(t[i - 1]));
            }
        }
        m + 1
    } else {
        assert(s.skip(0) =~= s);
        0
    }
}

pub proof fn lemma_cut(s: Seq<char>, f: spec_fn(char) -> bool) -> (n: int)
    ensures
        0 <= n <= s.len(),
        cut_while(s, f) == s.take(n),
        forall|i: int| n <= i < s.len() ==> f(#[trigger] s[i]),
        n > 0 ==> !f(s[n - 1]),
    decreases s.len(),
{
    if s.len() > 0 && f(s.last()) {
        let t = s.drop_last();
        let n = lemma_cut(t, f);
        assert(t.take(n) =~= s.take(n));
        assert forall|i: int| n <= i < s.len() implies f(#[trigger] s[i]) by {
            if i < t.len() {
                assert(f(t[i]));
            }
        }
        n
    } else {
        assert(s.take(s.len() as int) =~= s);
        s.len() as int
    }
}

/// What is cut off the end is what satisfies `f`.
pub proof fn lemma_cut_tail(s: Seq<char>, tail: Seq<char>, f: spec_fn(char) -> bool)
    requires
        forall|i: int| 0 <= i < tail.len() ==> f(#[trigger] tail[i]),
        s.len() > 0 ==> !f(s.last()),
    ensures
        cut_while(s + tail, f) == s,
    decreases tail.len(),
{
    let all = s + tail;
    if tail.len() == 0 {
        assert(all =~= s);
    } else {
        assert(f(tail[tail.len() - 1]));
        let t = tail.drop_last();
        assert forall|i: int| 0 <= i < t.len() implies f(#[trigger] t[i]) by {
            assert(t[i] == tail[i]);
        }
        lemma_cut_tail(s, t, f);
        assert(all.drop_last() =~= s + t);
    }
}

/// What is skipped at the beginning is what satisfies `f`.
pub proof fn lemma_skip_head(head: Seq<char>, s: Seq<char>, f: spec_fn(char) -> bool)
    requires
        forall|i: int| 0 <= i < head.len() ==> f(#[trigger] head[i]),
        s.len() > 0 ==> !f(s[0]),
    ensures
        skip_while(head + s, f) == s,
    decreases head.len(),
{
    let all = head + s;
    if head.len() == 0 {
        assert(all =~= s);
    } else {
        assert(f(head[0]));
        let t = head.drop_first();
        assert forall|i: int| 0 <= i < t.len() implies f(#[trigger] t[i]) by {
            assert(t[i] == head[i + 1]);
        }
        lemma_skip_head(t, s, f);
        assert(all.drop_first() =~= t + s);
    }
}

/// Trimming drops the white space around a text and nothing else.
pub proof fn law_trimmed(s: Seq<char>)
    ensures
        exists|lo: int, hi: int|
            #![trigger s.subrange(lo, hi)]
            {
                &&& 0 <= lo <= hi <= s.len()
                &&& trimmed(s) == s.subrange(lo, hi)
                &&& forall|i: int| 0 <= i < lo || hi <= i < s.len() ==> white(#[trigger] s[i])
                &&& lo < hi ==> !white(s[lo]) && !white(s[hi - 1])
            },
{
    let lo = lemma_skipped(s, white_fn());
    let t = s.skip(lo);
    let n = lemma_cut(t, white_fn());
    let hi = lo + n;
    assert(t.take(n) =~= s.subrange(lo, hi));
    assert forall|i: int| 0 <= i < lo || hi <= i < s.len() implies white(#[trigger] s[i]) by {
        if i < lo {
            assert(white_fn()(s[i]));
        } else {
            assert(white_fn()(t[i - lo]));
        }
    }
    if lo < hi {
        assert(t[n - 1] == s[hi - 1]);
        assert(!white_fn()(s[lo]));
    }
}

/// Words are what white space separates.
pub proof fn law_words(lead: Seq<char>, word: Seq<char>, rest: Seq<char>)
    requires
        forall|i: int| 0 <= i < lead.len() ==> white(#[trigger] lead[i]),
        word.len() > 0,
        forall|i: int| 0 <= i < word.len() ==> !white(#[trigger] word[i]),
        rest.len() > 0 ==> white(rest[0]),
    ensures
        words(lead).len() == 0,
        words(lead + word + rest) == seq![word] + words(rest),
        first_word(lead + word + rest) == word,
{
    let s = word + rest;
    assert(lead + word + rest =~= lead + s);
    assert(s[0] == word[0]);
    lemma_skip_head(lead, s, white_fn());
    lemma_run_head(word, rest, not_white());
    assert(s.take(word.len() as int) =~= word);
    assert(s.skip(word.len() as int) =~= rest);
    let none = Seq::<char>::empty();
    assert(lead + none =~= lead);
    lemma_skip_head(lead, none, white_fn());
}

proof fn lemma_run_head(head: Seq<char>, s: Seq<char>, f: spec_fn(char) -> bool)
    requires
        forall|i: int| 0 <= i < head.len() ==> f(#[trigger] head[i]),
        s.len() > 0 ==> !f(s[0]),
    ensures
        run_len(head + s, f) == head.len(),
    decreases head.len(),
{
    let all = head + s;
    if head.len() == 0 {
        assert(all =~= s);
    } else {
        let rest = head.drop_first();
        assert(f(head[0]));
        assert(all[0] == head[0]);
        assert(all.drop_first() =~= rest + s);
        assert forall|i: int| 0 <= i < rest.len() implies f(#[trigger] rest[i]) by {
            assert(head[i + 1] == rest[i]);
        }
        lemma_run_head(rest, s, f);
    }
}

/// A number is a row of decimal digits that does not exceed the limit.
pub proof fn law_numbers(s: Seq<char>, c: char, max: nat)
    ensures
        number(Seq::empty(), max) is None,
        number(s, max) matches Some(v) ==> v <= max,
        number(s.push(c), max) is Some ==> '0' <= c <= '9',
        '0' <= c <= '9' ==> (number(s, max) matches Some(v) ==> number(s.push(c), max) == if 10 * v
            + (c as u32 - 48) <= max {
            Some((10 * v + (c as u32 - 48)) as nat)
        } else {
            None
        }),
        '0' <= c <= '9' && c as u32 - 48 <= max ==> number(seq![c], max) == Some(
            (c as u32 - 48) as nat,
        ),
{
    let d = digits_of(s);
    let e = digits_of(s.push(c));
    let one = seq![c];
    assert(one.drop_last() =~= Seq::<char>::empty());
    assert(dec_value(one.drop_last()) == 0);
    if '0' <= c <= '9' {
        assert(digits_of(one) == one);
        assert(all_digits(one));
        assert(dec_value(one) == c as u32 - 48);
    }
    if number(s, max) is Some {
        assert(s.len() > 0);
        assert(e =~= d.push(c));
        assert(d.push(c).drop_last() =~= d);
        if '0' <= c <= '9' {
            assert(all_digits(d.push(c)));
        }
    }
    if number(s.push(c), max) is Some {
        assert(e.last() == c);
        assert('0' <= e[e.len() - 1] <= '9');
    }
}

/// Hexadecimal digits are written from the highest to the lowest.
pub proof fn law_hexadecimal(v: nat, d: nat, n: nat)
    requires
        d < 16,
    ensures
        hex(v, n).len() == n,
        hex(16 * v + d, n + 1) == hex(v, n).push("0123456789abcdef"@[d as int]),
    decreases n,
{
    reveal_strlit("0123456789abcdef");
    if n > 0 {
        law_hexadecimal(v / 16, v % 16, (n - 1) as nat);
    }
    assert((16 * v + d) / 16 == v);
    assert((16 * v + d) % 16 == d);
    assert(hex_digit(d) == "0123456789abcdef"@[d as int]);
}

} // verus!
