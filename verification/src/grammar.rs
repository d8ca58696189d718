//! Native grammars: where they are found, where they come from, and whether a
//! download may be trusted.

use crate::codeindex;
use crate::paths;
use crate::text;
use sha2::Digest;
use vstd::prelude::*;

verus! {

/// Largest grammar that is accepted, in bytes.
pub const MAX_GRAMMAR_BYTES: usize = 0x800_0000;

/// The platforms that grammars are built for.
#[derive(Clone, Copy, PartialEq, Eq, Debug, Structural)]
pub enum PlatformError {
    /// The prebuilt grammars need another C library.
    NeedsGlibc,
    Unsupported,
}

/// The target of an architecture and an operating system.
pub open spec fn target_of(arch: Seq<char>, os: Seq<char>) -> Option<Seq<char>> {
    if arch == "aarch64"@ && os == "macos"@ {
        Some("aarch64-apple-darwin"@)
    } else if arch == "x86_64"@ && os == "macos"@ {
        Some("x86_64-apple-darwin"@)
    } else if arch == "aarch64"@ && os == "linux"@ {
        Some("aarch64-unknown-linux-gnu"@)
    } else if arch == "x86_64"@ && os == "linux"@ {
        Some("x86_64-unknown-linux-gnu"@)
    } else {
        None
    }
}

pub fn platform(arch: &str, os: &str, musl: bool) -> (r: Result<&'static str, PlatformError>)
    ensures
        match r {
            Ok(t) => !musl && target_of(arch@, os@) == Some(t@),
            Err(e) => e == if musl {
                PlatformError::NeedsGlibc
            } else {
                PlatformError::Unsupported
            } && (musl || target_of(arch@, os@) is None),
        },
{
    if musl {
        return Err(PlatformError::NeedsGlibc);
    }
    let a = text::chars_of(arch);
    let o = text::chars_of(os);
    let arm: bool = text::is(a.as_slice(), "aarch64");
    let intel: bool = text::is(a.as_slice(), "x86_64");
    let mac: bool = text::is(o.as_slice(), "macos");
    let linux: bool = text::is(o.as_slice(), "linux");
    if arm && mac {
        Ok("aarch64-apple-darwin")
    } else if intel && mac {
        Ok("x86_64-apple-darwin")
    } else if arm && linux {
        Ok("aarch64-unknown-linux-gnu")
    } else if intel && linux {
        Ok("x86_64-unknown-linux-gnu")
    } else {
        Err(PlatformError::Unsupported)
    }
}

/// The cache of downloaded grammars.
pub open spec fn cache_of(xdg: Option<Seq<char>>, home: Option<Seq<char>>, target: Seq<char>) -> Option<
    Seq<char>,
> {
    let base = match (xdg, home) {
        (Some(b), _) => Some(b),
        (None, Some(h)) => Some(paths::joined(h, ".cache"@)),
        (None, None) => None,
    };
    match base {
        Some(b) => Some(
            paths::joined(
                paths::joined(paths::joined(b, "csearch/grammars"@), "grammars-v1"@),
                target,
            ),
        ),
        None => None,
    }
}

pub fn cache_dir(xdg: Option<&str>, home: Option<&str>, target: &str) -> (r: Option<String>)
    ensures
        crate::json::opt(r) == cache_of(
            codeindex::opt_text(xdg),
            codeindex::opt_text(home),
            target@,
        ),
{
    let base = match xdg {
        Some(b) => paths::join(b, "csearch/grammars"),
        None => match home {
            Some(h) => {
                let b = paths::join(h, ".cache");
                paths::join(b.as_str(), "csearch/grammars")
            },
            None => {
                return None;
            },
        },
    };
    let release = paths::join(base.as_str(), "grammars-v1");
    Some(paths::join(release.as_str(), target))
}

/// The file name of a grammar's library.
pub open spec fn library_text(name: Seq<char>, extension: Seq<char>) -> Seq<char> {
    "libhips_grammar_"@ + name + "."@ + extension
}

pub fn library_name(name: &str, extension: &str) -> (s: String)
    ensures
        s@ == library_text(name@, extension@),
{
    let mut out = text::chars_of("libhips_grammar_");
    text::append_str(&mut out, name);
    text::append_str(&mut out, ".");
    text::append_str(&mut out, extension);
    text::string_of(out.as_slice())
}

/// Where a grammar is published.
pub fn download_url(release_url: &str, target: &str, filename: &str) -> (s: String)
    ensures
        s@ == release_url@ + "/"@ + "grammars-v1"@ + "/"@ + target@ + "-"@ + filename@,
{
    let mut out = text::chars_of(release_url);
    text::append_str(&mut out, "/");
    text::append_str(&mut out, "grammars-v1");
    text::append_str(&mut out, "/");
    text::append_str(&mut out, target);
    text::append_str(&mut out, "-");
    text::append_str(&mut out, filename);
    text::string_of(out.as_slice())
}

/// Where a grammar is taken from.
#[derive(Clone, Copy, PartialEq, Eq, Debug, Structural)]
pub enum Source {
    /// An installed library, which stays where it is.
    Installed,
    Cached,
    /// To be downloaded first.
    Download,
    /// Neither installed nor cached, and downloads are not allowed.
    Missing,
}

pub fn choose_source(installed: bool, cached: bool, offline: bool) -> (s: Source)
    ensures
        s == if installed {
            Source::Installed
        } else if cached {
            Source::Cached
        } else if offline {
            Source::Missing
        } else {
            Source::Download
        },
{
    if installed {
        Source::Installed
    } else if cached {
        Source::Cached
    } else if offline {
        Source::Missing
    } else {
        Source::Download
    }
}

// ---------------------------------------------------------------------------
// Checksums
// ---------------------------------------------------------------------------

/// What is wrong with a published checksum.
#[derive(Clone, Copy, PartialEq, Eq, Debug, Structural)]
pub enum ChecksumError {
    Empty,
    Invalid,
}

/// A hexadecimal digit, in either case.
pub open spec fn hexadecimal(c: char) -> bool {
    '0' <= c <= '9' || 'a' <= c <= 'f' || 'A' <= c <= 'F'
}

/// The digit in lower case.
pub open spec fn lowered(c: char) -> char {
    if 'A' <= c <= 'F' {
        ((c as u32) + 32) as char
    } else {
        c
    }
}

/// The checksum that a checksum file publishes, in lower case.
pub open spec fn published(file: Seq<char>) -> Result<Seq<char>, ChecksumError> {
    let word = text::first_word(file);
    if word.len() == 0 {
        Err(ChecksumError::Empty)
    } else if word.len() == 64 && forall|i: int| 0 <= i < 64 ==> hexadecimal(#[trigger] word[i]) {
        Ok(word.map_values(|c: char| lowered(c)))
    } else {
        Err(ChecksumError::Invalid)
    }
}

fn lower(c: char) -> (l: char)
    ensures
        l == lowered(c),
{
    if 'A' <= c && c <= 'F' {
        let code: u8 = (c as u32) as u8;
        (code + 32) as char
    } else {
        c
    }
}

/// The checksum in a checksum file: its first word, sixty-four hexadecimal
/// digits.
pub fn expected_checksum(file: &str) -> (r: Result<String, ChecksumError>)
    ensures
        match r {
            Ok(s) => published(file@) == Ok::<Seq<char>, ChecksumError>(s@),
            Err(e) => published(file@) == Err::<Seq<char>, ChecksumError>(e),
        },
{
    let chars = text::chars_of(file);
    let rest: &[char] = text::trim_start(chars.as_slice());
    let n: usize = text::word_len(rest);
    let ghost word = text::first_word(file@);
    assert(word =~= rest@.take(n as int));
    if n == 0 {
        return Err(ChecksumError::Empty);
    }
    if n != 64 {
        return Err(ChecksumError::Invalid);
    }
    let mut out: Vec<char> = Vec::new();
    let mut i: usize = 0;
    while i < 64
        invariant
            i <= 64,
            word.len() == 64,
            rest@.len() >= 64,
            forall|j: int| 0 <= j < 64 ==> #[trigger] word[j] == rest@[j],
            out@.len() == i,
            published(file@) == (if forall|j: int| 0 <= j < 64 ==> hexadecimal(#[trigger] word[j]) {
                Ok::<Seq<char>, ChecksumError>(word.map_values(|c: char| lowered(c)))
            } else {
                Err::<Seq<char>, ChecksumError>(ChecksumError::Invalid)
            }),
            forall|j: int|
                0 <= j < i ==> hexadecimal(#[trigger] word[j]) && out@[j] == lowered(word[j]),
        decreases 64 - i,
    {
        let c: char = rest[i];
        assert(word[i as int] == c);
        let digit: bool = ('0' <= c && c <= '9') || ('a' <= c && c <= 'f') || ('A' <= c && c
            <= 'F');
        if !digit {
            assert(!hexadecimal(word[i as int]));
            return Err(ChecksumError::Invalid);
        }
        out.push(lower(c));
        i += 1;
    }
    assert(out@ =~= word.map_values(|c: char| lowered(c)));
    Ok(text::string_of(out.as_slice()))
}

/// The SHA-256 digest of some bytes.
pub uninterp spec fn sha256_of(bytes: Seq<u8>) -> Seq<u8>;

/// `sha2::Sha256::digest`: a function of the bytes alone, thirty-two bytes
/// long.
#[verifier::external_body]
fn sha256(bytes: &[u8]) -> (d: Vec<u8>)
    ensures
        d@ == sha256_of(bytes@),
        d@.len() == 32,
{
    sha2::Sha256::digest(bytes).to_vec()
}

/// Bytes as hexadecimal digits.
pub open spec fn hex_text(bytes: Seq<u8>) -> Seq<char>
    decreases bytes.len(),
{
    if bytes.len() == 0 {
        Seq::empty()
    } else {
        hex_text(bytes.drop_last()) + text::hex(bytes.last() as nat, 2)
    }
}

/// Bytes as hexadecimal digits in lower case.
pub fn to_hex(bytes: &[u8]) -> (s: String)
    ensures
        s@ == hex_text(bytes@),
{
    let mut out: Vec<char> = Vec::new();
    let mut i: usize = 0;
    assert(bytes@.take(0) =~= Seq::<u8>::empty());
    while i < bytes.len()
        invariant
            i <= bytes@.len(),
            out@ == hex_text(bytes@.take(i as int)),
        decreases bytes@.len() - i,
    {
        text::push_hex(&mut out, bytes[i] as u64, 2);
        proof {
            let next = bytes@.take(i + 1);
            assert(next.drop_last() =~= bytes@.take(i as int));
            assert(next.last() == bytes@[i as int]);
        }
        i += 1;
    }
    assert(bytes@.take(i as int) =~= bytes@);
    text::string_of(out.as_slice())
}

/// What is wrong with a download.
#[derive(Clone, Copy, PartialEq, Eq, Debug, Structural)]
pub enum DownloadError {
    TooLarge,
    Mismatch,
}

/// Whether a body of this length with this digest is what was published.
pub fn accept(len: usize, digest: &[u8], expected: &str) -> (r: Result<(), DownloadError>)
    ensures
        match r {
            Ok(_) => len <= MAX_GRAMMAR_BYTES && hex_text(digest@) == expected@,
            Err(DownloadError::TooLarge) => len > MAX_GRAMMAR_BYTES,
            Err(DownloadError::Mismatch) => len <= MAX_GRAMMAR_BYTES && hex_text(digest@)
                != expected@,
        },
{
    if len > MAX_GRAMMAR_BYTES {
        return Err(DownloadError::TooLarge);
    }
    let actual = to_hex(digest);
    let chars = text::chars_of(actual.as_str());
    if text::is(chars.as_slice(), expected) {
        Ok(())
    } else {
        Err(DownloadError::Mismatch)
    }
}

/// Check a downloaded grammar against its published checksum.
pub fn check_download(body: &[u8], expected: &str) -> (r: Result<(), DownloadError>)
    ensures
        match r {
            Ok(_) => body@.len() <= MAX_GRAMMAR_BYTES && hex_text(sha256_of(body@)) == expected@,
            Err(DownloadError::TooLarge) => body@.len() > MAX_GRAMMAR_BYTES,
            Err(DownloadError::Mismatch) => body@.len() <= MAX_GRAMMAR_BYTES && hex_text(
                sha256_of(body@),
            ) != expected@,
        },
{
    let digest = sha256(body);
    accept(body.len(), digest.as_slice(), expected)
}

/// A published checksum is the first word of its file: sixty-four hexadecimal
/// digits, taken in lower case.
pub proof fn law_published_checksums(lead: Seq<char>, word: Seq<char>, rest: Seq<char>, i: int)
    requires
        forall|k: int| 0 <= k < lead.len() ==> text::white(#[trigger] lead[k]),
        word.len() > 0,
        forall|k: int| 0 <= k < word.len() ==> !text::white(#[trigger] word[k]),
        rest.len() > 0 ==> text::white(rest[0]),
    ensures
        published(lead) == Err::<Seq<char>, ChecksumError>(ChecksumError::Empty),
        word.len() != 64 ==> published(lead + word + rest) == Err::<Seq<char>, ChecksumError>(
            ChecksumError::Invalid,
        ),
        0 <= i < word.len() && !('0' <= word[i] <= '9' || 'a' <= word[i] <= 'f' || 'A' <= word[i]
            <= 'F') ==> published(lead + word + rest) == Err::<Seq<char>, ChecksumError>(
            ChecksumError::Invalid,
        ),
        word.len() == 64 && (forall|k: int|
            0 <= k < 64 ==> '0' <= #[trigger] word[k] <= '9' || 'a' <= word[k] <= 'f') ==> published(
            lead + word + rest,
        ) == Ok::<Seq<char>, ChecksumError>(word),
        word.len() == 64 && (forall|k: int|
            0 <= k < 64 ==> '0' <= #[trigger] word[k] <= '9' || 'a' <= word[k] <= 'f' || 'A'
                <= word[k] <= 'F') ==> (published(lead + word + rest) matches Ok(sum) && sum.len()
            == 64 && (0 <= i < 64 && 'A' <= word[i] <= 'F' ==> sum[i] as u32 == word[i] as u32
            + 32)),
{
    text::law_words(lead, word, rest);
    let none = Seq::<char>::empty();
    assert(lead + none =~= lead);
    text::lemma_skip_head(lead, none, text::white_fn());
    assert(text::first_word(lead).len() == 0);
    if word.len() == 64 && (forall|k: int|
        0 <= k < 64 ==> '0' <= #[trigger] word[k] <= '9' || 'a' <= word[k] <= 'f') {
        assert(word.map_values(|c: char| lowered(c)) =~= word);
    }
}

/// Digests are written byte by byte, two digits each.
pub proof fn law_hex_text(bytes: Seq<u8>, b: u8)
    ensures
        hex_text(Seq::empty()) == Seq::<char>::empty(),
        hex_text(bytes).len() == 2 * bytes.len(),
        hex_text(bytes.push(b)) == hex_text(bytes).push("0123456789abcdef"@[b as int / 16]).push(
            "0123456789abcdef"@[b as int % 16],
        ),
    decreases bytes.len(),
{
    if bytes.len() > 0 {
        law_hex_text(bytes.drop_last(), bytes.last());
        assert(bytes.drop_last().push(bytes.last()) =~= bytes);
    }
    let all = bytes.push(b);
    assert(all.drop_last() =~= bytes);
    let hi = b as nat / 16;
    let lo = b as nat % 16;
    text::law_hexadecimal(0, hi, 0);
    text::law_hexadecimal(hi, lo, 1);
    assert(16 * 0 + hi == hi && 16 * hi + lo == b as nat);
    assert(text::hex(0, 0) =~= Seq::<char>::empty());
    assert(hex_text(all) =~= hex_text(bytes).push("0123456789abcdef"@[b as int / 16]).push(
        "0123456789abcdef"@[b as int % 16],
    ));
}

} // verus!
