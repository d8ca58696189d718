//! Background index keeper: one watcher per repository, shared by every
//! session that has the repository open.
//!
//! A session holds a lease; the watcher lives as long as any live lease
//! exists, and for a grace period after the last one is gone. What the
//! watcher does next is decided here, from what its surroundings report.

use crate::block_max_wand;
use crate::order;
use crate::paths;
use crate::text;
use vstd::prelude::*;

verus! {

/// Seconds a leased watcher lingers after its last lease disappears.
pub const DEFAULT_GRACE_SECS: u64 = 20;

/// Idle seconds before the watcher drops the encoder.
pub const DEFAULT_UNLOAD_SECS: u64 = 300;

/// Milliseconds between looks at the leases.
pub const LEASE_CHECK_MS: u64 = 2000;

/// The error number of an operation that is not permitted.
pub const EPERM: i32 = 1;

// ---------------------------------------------------------------------------
// Where things are
// ---------------------------------------------------------------------------

/// `watch/<index name>` beside the index.
pub open spec fn state_path(index_dir: Seq<char>, cache_root: Seq<char>) -> Seq<char> {
    let name = match paths::name_of(index_dir) {
        Some(n) => n,
        None => "repo"@,
    };
    let base = match paths::parent_of(index_dir) {
        Some(p) => p,
        None => cache_root,
    };
    paths::joined(paths::joined(base, "watch"@), name)
}

/// Where a repository's watcher keeps its lock, leases, log and status.
pub fn state_dir(index_dir: &str, cache_root: &str) -> (dir: String)
    ensures
        dir@ == state_path(index_dir@, cache_root@),
{
    let watch = match paths::parent(index_dir) {
        Some(p) => paths::join(p.as_str(), "watch"),
        None => paths::join(cache_root, "watch"),
    };
    match paths::file_name(index_dir) {
        Some(n) => paths::join(watch.as_str(), n.as_str()),
        None => paths::join(watch.as_str(), "repo"),
    }
}

/// The watcher's state stands beside the index, never inside it, unless the
/// index is itself named `watch`.
pub proof fn law_state_stays_beside_the_index(index_dir: Seq<char>, cache_root: Seq<char>)
    requires
        paths::name_of(index_dir) is Some,
        paths::name_of(index_dir) != Some("watch"@),
    ensures
        !paths::within(state_path(index_dir, cache_root), paths::tidy(index_dir)),
{
    reveal_strlit("watch");
    reveal_strlit("/");
    let t = paths::tidy(index_dir);
    let at = paths::tail_at(t);
    let name = t.skip(at);
    let before = t.take(at);
    let r = paths::tidy(before).len() as int;
    paths::lemma_tidy(index_dir);
    paths::lemma_tail_at(t);
    paths::lemma_tidy(before);
    paths::lemma_name_plain(index_dir);
    let state = state_path(index_dir, cache_root);
    let tail = "watch"@ + seq!['/'] + name;
    let skipped: int = if at == 0 {
        0
    } else {
        r + 1
    };
    assert(state =~= t.take(skipped) + tail);
    if paths::within(state, t) {
        if state != t {
            let inside = t + seq!['/'];
            assert(state.take(inside.len() as int) == inside);
            assert forall|i: int| 0 <= i < inside.len() implies #[trigger] state[i] == inside[i] by {
                assert(state.take(inside.len() as int)[i] == state[i]);
            }
            if skipped < at {
                assert(before[skipped] == t[skipped]);
                assert(state[skipped] == 'w');
            } else {
                assert(inside[t.len() as int] == '/');
                assert forall|i: int| 0 <= i < name.len() implies #[trigger] name[i] == tail[i] by {
                    assert(state[skipped + i] == inside[skipped + i]);
                }
                assert(tail[name.len() as int] == '/');
                assert(name =~= "watch"@);
            }
        } else if skipped < at {
            assert(before[skipped] == t[skipped]);
            assert(state[skipped] == 'w');
        }
    }
}

pub fn leases_dir(state: &str) -> (path: String)
    ensures
        path@ == paths::joined(state@, "leases"@),
{
    paths::join(state, "leases")
}

pub fn log_path(state: &str) -> (path: String)
    ensures
        path@ == paths::joined(state@, "watch.log"@),
{
    paths::join(state, "watch.log")
}

pub fn status_path(state: &str) -> (path: String)
    ensures
        path@ == paths::joined(state@, "watch.json"@),
{
    paths::join(state, "watch.json")
}

pub fn lock_path(state: &str) -> (path: String)
    ensures
        path@ == paths::joined(state@, "watch.lock"@),
{
    paths::join(state, "watch.lock")
}

/// May the character stand in a file name as it is?
pub open spec fn name_char(c: char) -> bool {
    ||| '0' <= c <= '9'
    ||| 'A' <= c <= 'Z'
    ||| 'a' <= c <= 'z'
    ||| c == '-'
    ||| c == '_'
    ||| c == '.'
}

/// The text with every other character replaced by an underscore.
pub open spec fn safe_text(s: Seq<char>) -> Seq<char> {
    s.map_values(|c: char| if name_char(c) { c } else { '_' })
}

/// The file name of a session's lease.
pub open spec fn lease_name(session: Seq<char>) -> Seq<char> {
    (if session.len() == 0 {
        "session"@
    } else {
        safe_text(session)
    }) + ".json"@
}

pub fn lease_file_name(session: &str) -> (name: String)
    ensures
        name@ == lease_name(session@),
{
    let s = text::chars_of(session);
    let mut out: Vec<char> = Vec::new();
    if s.len() == 0 {
        text::append_str(&mut out, "session");
    } else {
        let mut i: usize = 0;
        while i < s.len()
            invariant
                i <= s@.len(),
                out@.len() == i,
                forall|j: int| 0 <= j < i ==> #[trigger] out@[j] == safe_text(s@)[j],
            decreases s@.len() - i,
        {
            let c: char = s[i];
            let keep: bool = ('0' <= c && c <= '9') || ('A' <= c && c <= 'Z') || ('a' <= c && c
                <= 'z') || c == '-' || c == '_' || c == '.';
            if keep {
                out.push(c);
            } else {
                out.push('_');
            }
            i += 1;
        }
        assert(out@ =~= safe_text(s@));
    }
    text::append_str(&mut out, ".json");
    assert(out@ =~= lease_name(session@));
    text::string_of(out.as_slice())
}

/// Whatever a session calls itself, its lease is a plain file of the lease
/// directory.
pub proof fn law_lease_names_are_plain(session: Seq<char>)
    ensures
        paths::plain(lease_name(session)),
{
    reveal_strlit("session");
    reveal_strlit(".json");
    let n = lease_name(session);
    assert forall|i: int| 0 <= i < n.len() implies #[trigger] n[i] != '/' by {
        let head = if session.len() == 0 {
            "session"@
        } else {
            safe_text(session)
        };
        if i < head.len() {
            assert(n[i] == head[i]);
        } else {
            assert(n[i] == ".json"@[i - head.len()]);
        }
    }
}

/// The lease file of a session.
pub fn lease_path(state: &str, session: &str) -> (path: String)
    ensures
        path@ == paths::joined(paths::joined(state@, "leases"@), lease_name(session@)),
{
    let dir = leases_dir(state);
    let name = lease_file_name(session);
    paths::join(dir.as_str(), name.as_str())
}

// ---------------------------------------------------------------------------
// Leases
// ---------------------------------------------------------------------------

/// One session's claim on the watcher.
pub struct Lease {
    pub session: String,
    /// Process of the agent; 0 when unknown.
    pub pid: u32,
    pub agent: String,
    /// When the lease was taken, in seconds.
    pub since: u64,
}

/// Is there a process `pid`? `rc` and `errno` are what probing it with an
/// empty signal returned: not being permitted to signal it means that it
/// exists.
pub fn pid_alive(pid: u32, rc: i32, errno: Option<i32>) -> (r: bool)
    ensures
        r == (pid != 0 && (rc == 0 || errno == Some(EPERM))),
{
    if pid == 0 {
        return false;
    }
    if rc == 0 {
        return true;
    }
    match errno {
        Some(e) => e == EPERM,
        None => false,
    }
}

/// `a` comes before or with `b`: earlier leases first, then by session.
pub open spec fn lease_le(a: Lease, b: Lease) -> bool {
    a.since < b.since || (a.since == b.since && !order::lex_less(b.session@, a.session@))
}

/// Leases in the order in which they were taken.
pub fn sort_leases(leases: Vec<Lease>) -> (out: Vec<Lease>)
    ensures
        out@.to_multiset() == leases@.to_multiset(),
        forall|i: int, j: int|
            0 <= i < j < out@.len() ==> lease_le(#[trigger] out@[i], #[trigger] out@[j]),
{
    let n: usize = leases.len();
    let mut names: Vec<Vec<char>> = Vec::new();
    let mut i: usize = 0;
    while i < n
        invariant
            i <= n,
            n == leases@.len(),
            names@.len() == i,
            forall|j: int| 0 <= j < i ==> (#[trigger] names@[j])@ == leases@[j].session@,
        decreases n - i,
    {
        names.push(text::chars_of(leases[i].session.as_str()));
        i += 1;
    }
    let by_name = order::order_by_text(&names);
    let ghost start = leases@;
    proof {
        assert(text::views(names@).len() == n);
        order::lemma_text_less_total(text::views(names@));
        order::lemma_increasing_distinct(
            by_name@,
            n as int,
            order::text_less(text::views(names@)),
        );
        order::lemma_rearranged(start, by_name@);
    }
    let named = order::permute(leases, &by_name);
    let ghost middle = named@;
    assert forall|a: int, b: int| 0 <= a < b < n implies !order::lex_less(
        (#[trigger] middle[b]).session@,
        (#[trigger] middle[a]).session@,
    ) by {
        let x = by_name@[a] as int;
        let y = by_name@[b] as int;
        let texts = text::views(names@);
        assert(order::text_less(texts)(x, y));
        assert(texts[x] == start[x].session@);
        assert(texts[y] == start[y].session@);
        if order::lex_less(texts[y], texts[x]) {
            if order::lex_less(texts[x], texts[y]) {
                order::lemma_lex_transitive(texts[x], texts[y], texts[x]);
            }
            order::lemma_lex_irreflexive(texts[x]);
        }
    }
    let mut since: Vec<u64> = Vec::new();
    let mut j: usize = 0;
    while j < n
        invariant
            j <= n,
            n == named@.len(),
            since@.len() == j,
            forall|x: int| 0 <= x < j ==> #[trigger] since@[x] == named@[x].since,
        decreases n - j,
    {
        since.push(named[j].since);
        j += 1;
    }
    let by_time = order::order_by_key(since.as_slice());
    proof {
        order::lemma_increasing_distinct(by_time@, n as int, order::key_less(since@));
        order::lemma_rearranged(middle, by_time@);
    }
    let out = order::permute(named, &by_time);
    proof {
        assert(order::arranged(start, by_name@) =~= Seq::new(
            by_name@.len(),
            |i: int| start[by_name@[i] as int],
        ));
        assert(order::arranged(middle, by_time@) =~= Seq::new(
            by_time@.len(),
            |i: int| middle[by_time@[i] as int],
        ));
        assert forall|a: int, b: int| 0 <= a < b < out@.len() implies lease_le(
            #[trigger] out@[a],
            #[trigger] out@[b],
        ) by {
            let x = by_time@[a] as int;
            let y = by_time@[b] as int;
            assert(order::key_less(since@)(x, y));
            assert(since@[x] == middle[x].since);
            assert(since@[y] == middle[y].since);
        }
    }
    out
}

/// A lease without a process is trusted until it is ended; one whose process
/// is gone is not.
pub open spec fn is_live(lease: Lease, alive: bool) -> bool {
    lease.pid == 0 || alive
}

/// The positions below `n` of the leases that are live, or of those that are
/// not.
pub open spec fn leases_that(leases: Seq<Lease>, alive: Seq<bool>, live: bool, n: int) -> Seq<usize>
    decreases n,
{
    if n <= 0 {
        Seq::empty()
    } else if is_live(leases[n - 1], alive[n - 1]) == live {
        leases_that(leases, alive, live, n - 1).push((n - 1) as usize)
    } else {
        leases_that(leases, alive, live, n - 1)
    }
}

/// Which leases are live, and which are to be deleted. `alive` says for each
/// lease whether its process runs.
pub fn live_leases(leases: &[Lease], alive: &[bool]) -> (r: (Vec<usize>, Vec<usize>))
    requires
        leases@.len() == alive@.len(),
    ensures
        r.0@ == leases_that(leases@, alive@, true, leases@.len() as int),
        r.1@ == leases_that(leases@, alive@, false, leases@.len() as int),
{
    let n: usize = leases.len();
    let mut live: Vec<usize> = Vec::new();
    let mut dead: Vec<usize> = Vec::new();
    let mut i: usize = 0;
    while i < n
        invariant
            i <= n,
            n == leases@.len(),
            n == alive@.len(),
            live@ == leases_that(leases@, alive@, true, i as int),
            dead@ == leases_that(leases@, alive@, false, i as int),
        decreases n - i,
    {
        if leases[i].pid == 0 || alive[i] {
            live.push(i);
        } else {
            dead.push(i);
        }
        i += 1;
    }
    (live, dead)
}

// ---------------------------------------------------------------------------
// Status
// ---------------------------------------------------------------------------

/// What a watcher is doing.
#[derive(Clone, Copy, PartialEq, Eq, Debug, Structural)]
pub enum WatchState {
    /// The first build has not begun.
    Starting,
    Idle,
    /// A rebuild is announced or under way.
    Indexing,
}

/// What a watcher publishes.
pub struct Status {
    pub pid: u32,
    pub root: String,
    pub index_dir: String,
    /// When the watcher started, in seconds.
    pub since: u64,
    pub state: WatchState,
    pub leased: bool,
    pub embed: bool,
    pub rebuilds: u64,
    /// When the last rebuild ended, in seconds.
    pub last_rebuild: u64,
    pub last_rebuild_ms: u64,
    pub last_error: Option<String>,
    pub leases: Vec<String>,
    pub events: u64,
    pub encoder_loaded: bool,
}

/// What a search does about a watcher that may be rebuilding.
#[derive(Clone, Copy, PartialEq, Eq, Debug, Structural)]
pub enum Wait {
    /// There is no watcher: go on.
    Gone,
    /// The watcher is idle, or was waited for long enough: go on.
    Done,
    /// Look again a little later.
    Again,
}

/// The next step of waiting for a watcher. `running` is the state of the
/// watcher that holds the lock, if there is one.
pub fn wait_for_idle(running: Option<WatchState>, now_ms: u64, deadline_ms: u64) -> (w: Wait)
    ensures
        w == match running {
            None => Wait::Gone,
            Some(state) => if state == WatchState::Idle || now_ms >= deadline_ms {
                Wait::Done
            } else {
                Wait::Again
            },
        },
{
    match running {
        None => Wait::Gone,
        Some(state) => {
            if state == WatchState::Idle || now_ms >= deadline_ms {
                Wait::Done
            } else {
                Wait::Again
            }
        },
    }
}

// ---------------------------------------------------------------------------
// Sessions
// ---------------------------------------------------------------------------

/// How the watcher should be started for a session.
pub struct StartOpts {
    /// No encoder.
    pub lexical: bool,
    pub grace_secs: u64,
    pub unload_secs: u64,
    /// Watch even a directory that is not in a repository.
    pub any_dir: bool,
}

impl Default for StartOpts {
    fn default() -> (o: Self)
        ensures
            !o.lexical,
            o.grace_secs == DEFAULT_GRACE_SECS,
            o.unload_secs == DEFAULT_UNLOAD_SECS,
            !o.any_dir,
    {
        StartOpts {
            lexical: false,
            grace_secs: DEFAULT_GRACE_SECS,
            unload_secs: DEFAULT_UNLOAD_SECS,
            any_dir: false,
        }
    }
}

/// What starting a session did.
pub struct StartReport {
    pub root: String,
    pub index_dir: String,
    pub state_dir: String,
    /// Was the watcher launched, or did it already run?
    pub spawned: bool,
    pub watcher_pid: u32,
    pub live_leases: usize,
    /// Is there already an index?
    pub index_exists: bool,
}

/// The `i`-th ancestor of a directory, itself included.
pub open spec fn ancestor(dir: Seq<char>, i: nat) -> Option<Seq<char>>
    decreases i,
{
    if i == 0 {
        Some(dir)
    } else {
        match ancestor(dir, (i - 1) as nat) {
            Some(d) => paths::parent_of(d),
            None => None,
        }
    }
}

/// `has_git` may have answered that the directory has a `.git` entry, or that
/// it has none.
pub open spec fn may_answer<F: Fn(&str) -> bool>(has_git: F, dir: Seq<char>, answer: bool) -> bool {
    exists|entry: &str|
        entry@ == paths::joined(dir, ".git"@) && #[trigger] call_ensures(has_git, (entry,), answer)
}

proof fn lemma_parent_shorter(p: Seq<char>)
    ensures
        paths::parent_of(p) matches Some(q) ==> q.len() < p.len() || (q.len() == p.len() && p.len()
            == 1 && p[0] == '/'),
        paths::parent_of("/"@) is None,
{
    reveal_strlit("/");
    let t = paths::tidy(p);
    paths::lemma_tidy(p);
    paths::lemma_tail_at(t);
    let head = t.take(paths::tail_at(t));
    paths::lemma_tidy(head);
    assert(paths::tidy("/"@).len() == 0) by {
        assert("/"@.drop_last() =~= Seq::<char>::empty());
        reveal_with_fuel(paths::tidy, 3);
    }
    if t.len() > 0 && paths::tidy(head).len() == 0 && p[0] == '/' {
        if p.len() == 1 {
            assert(p =~= "/"@);
        }
    }
}

/// The directory to cover for a session opened at `cwd`: the nearest
/// ancestor that has a `.git` entry.
pub fn project_root<F: Fn(&str) -> bool>(cwd: &str, has_git: &F) -> (r: Option<String>)
    requires
        forall|entry: &str| call_requires(*has_git, (entry,)),
    ensures
        match r {
            Some(dir) => exists|i: nat|
                #[trigger] ancestor(cwd@, i) == Some(dir@) && may_answer(*has_git, dir@, true)
                    && forall|j: nat|
                    j < i ==> may_answer(*has_git, (#[trigger] ancestor(cwd@, j))->Some_0, false),
            None => exists|i: nat|
                #[trigger] ancestor(cwd@, i) is None && forall|j: nat|
                    j < i ==> (#[trigger] ancestor(cwd@, j)) is Some && may_answer(
                        *has_git,
                        ancestor(cwd@, j)->Some_0,
                        false,
                    ),
        },
{
    let chars = text::chars_of(cwd);
    let mut dir = text::string_of(chars.as_slice());
    let ghost mut depth: nat = 0;
    loop
        invariant
            forall|entry: &str| call_requires(*has_git, (entry,)),
            ancestor(cwd@, depth) == Some(dir@),
            forall|j: nat|
                j < depth ==> (#[trigger] ancestor(cwd@, j)) is Some && may_answer(
                    *has_git,
                    ancestor(cwd@, j)->Some_0,
                    false,
                ),
        decreases dir@.len(),
    {
        let entry = paths::join(dir.as_str(), ".git");
        let found: bool = has_git(entry.as_str());
        assert(may_answer(*has_git, dir@, found));
        if found {
            return Some(dir);
        }
        let ghost here = dir@;
        proof {
            lemma_parent_shorter(here);
            depth = depth + 1;
            assert(ancestor(cwd@, depth) == paths::parent_of(here));
        }
        match paths::parent(dir.as_str()) {
            Some(up) => {
                proof {
                    if here.len() == 1 && here[0] == '/' {
                        reveal_strlit("/");
                        assert(here =~= "/"@);
                    }
                }
                dir = up;
            },
            None => {
                return None;
            },
        }
    }
}

/// The root that a new session covers, if any: the repository, or the
/// directory itself where that was asked for.
pub fn session_root(repository: Option<String>, cwd: String, any_dir: bool) -> (r: Option<String>)
    ensures
        match repository {
            Some(root) => r == Some(root),
            None => if any_dir {
                r == Some(cwd)
            } else {
                r is None
            },
        },
{
    match repository {
        Some(root) => Some(root),
        None => {
            if any_dir {
                Some(cwd)
            } else {
                None
            }
        },
    }
}

/// The arguments of the watcher process of a session.
pub open spec fn watch_arg_texts(root: Seq<char>, grace: nat, unload: nat, lexical: bool) -> Seq<
    Seq<char>,
> {
    let common = seq![
        "watch"@,
        "--root"@,
        root,
        "--leased"@,
        "--grace-secs"@,
        text::decimal(grace),
        "--unload-secs"@,
        text::decimal(unload),
    ];
    if lexical {
        common.push("--lexical"@)
    } else {
        common
    }
}

fn owned(s: &str) -> (t: String)
    ensures
        t@ == s@,
{
    let chars = text::chars_of(s);
    text::string_of(chars.as_slice())
}

fn decimal_text(n: u64) -> (t: String)
    ensures
        t@ == text::decimal(n as nat),
{
    let mut out: Vec<char> = Vec::new();
    text::push_decimal(&mut out, n);
    assert(out@ =~= text::decimal(n as nat));
    text::string_of(out.as_slice())
}

pub fn watch_args(root: &str, opts: &StartOpts) -> (args: Vec<String>)
    ensures
        block_max_wand::texts(args@) == watch_arg_texts(
            root@,
            opts.grace_secs as nat,
            opts.unload_secs as nat,
            opts.lexical,
        ),
{
    let mut args: Vec<String> = Vec::new();
    args.push(owned("watch"));
    args.push(owned("--root"));
    args.push(owned(root));
    args.push(owned("--leased"));
    args.push(owned("--grace-secs"));
    args.push(decimal_text(opts.grace_secs));
    args.push(owned("--unload-secs"));
    args.push(decimal_text(opts.unload_secs));
    if opts.lexical {
        args.push(owned("--lexical"));
    }
    assert(block_max_wand::texts(args@) =~= watch_arg_texts(
        root@,
        opts.grace_secs as nat,
        opts.unload_secs as nat,
        opts.lexical,
    ));
    args
}

/// The time of day, in universal time, of a second since the epoch.
pub open spec fn clock_text(secs: nat) -> Seq<char> {
    text::two_digits(secs / 3600 % 24) + seq![':'] + text::two_digits(secs / 60 % 60) + seq![':'] + text::two_digits(
        secs % 60,
    ) + seq!['Z']
}

/// The time of day of a second since the epoch.
pub fn stamp(secs: u64) -> (t: String)
    ensures
        t@ == clock_text(secs as nat),
{
    let mut out: Vec<char> = Vec::new();
    text::push_two(&mut out, secs / 3600 % 24);
    out.push(':');
    text::push_two(&mut out, secs / 60 % 60);
    out.push(':');
    text::push_two(&mut out, secs % 60);
    out.push('Z');
    assert(out@ =~= clock_text(secs as nat));
    text::string_of(out.as_slice())
}

/// Fields of a hook payload that the session commands use.
pub struct HookInput {
    pub session_id: String,
    pub cwd: String,
    pub hook_event_name: String,
}

impl Default for HookInput {
    fn default() -> (h: Self)
        ensures
            h.session_id@ == ""@,
            h.cwd@ == ""@,
            h.hook_event_name@ == ""@,
    {
        HookInput { session_id: owned(""), cwd: owned(""), hook_event_name: owned("") }
    }
}

// ---------------------------------------------------------------------------
// The watcher
// ---------------------------------------------------------------------------

pub struct WatchOpts {
    pub embed: bool,
    /// Exit when no live lease remains. Otherwise run until stopped.
    pub leased: bool,
    pub grace_secs: u64,
    pub unload_secs: u64,
    pub title_weight: u32,
}

/// Why a watcher ends.
#[derive(Clone, Copy, PartialEq, Eq, Debug, Structural)]
pub enum ExitReason {
    StopSignal,
    NoSessionsLeft,
}

/// What a watcher does next.
#[derive(Clone, Copy, PartialEq, Eq, Debug, Structural)]
pub enum Step {
    Exit(ExitReason),
    /// Publish the status, wait until the burst of events is over, rebuild,
    /// and report with [`Watcher::rebuilt`].
    Reindex,
    /// Read the leases and report with [`Watcher::leases_checked`].
    CheckLeases,
    /// Nothing to do for one tick.
    Sleep,
}

/// What reading the leases led to.
#[derive(Clone, Copy, PartialEq, Eq, Debug, Structural)]
pub struct LeaseStep {
    /// The set of leases differs from the published one.
    pub changed: bool,
    pub exit: bool,
    /// The encoder has been idle for so long that it is to be dropped.
    pub unload: bool,
}

/// A running watcher. Times are milliseconds of a clock that never runs
/// backwards.
pub struct Watcher {
    pub opts: WatchOpts,
    pub status: Status,
    pub last_activity: u64,
    pub last_lease_check: u64,
    /// Since when no lease has been seen.
    pub leaseless_since: Option<u64>,
}

/// Has the time come? `wait_ms` after `since`.
pub open spec fn due(since: u64, wait_ms: nat, now: u64) -> bool {
    now >= since && now - since >= wait_ms
}

fn is_due(since: u64, wait_ms: u128, now: u64) -> (r: bool)
    ensures
        r == due(since, wait_ms as nat, now),
{
    now >= since && (now - since) as u128 >= wait_ms
}

/// When the leases were first seen gone, given a look at them.
pub open spec fn leaseless(before: Option<u64>, opts: WatchOpts, none_left: bool, now: u64) -> Option<
    u64,
> {
    if !opts.leased {
        before
    } else if !none_left {
        None
    } else if before is Some {
        before
    } else {
        Some(now)
    }
}

/// A leased watcher ends once no lease was seen for the grace period.
pub open spec fn must_exit(before: Option<u64>, opts: WatchOpts, none_left: bool, now: u64) -> bool {
    opts.leased && none_left && due(
        leaseless(before, opts, none_left, now)->Some_0,
        opts.grace_secs as nat * 1000,
        now,
    )
}

fn same_texts(a: &Vec<String>, b: &Vec<String>) -> (r: bool)
    ensures
        r == (block_max_wand::texts(a@) == block_max_wand::texts(b@)),
{
    if a.len() != b.len() {
        assert(block_max_wand::texts(a@).len() != block_max_wand::texts(b@).len());
        return false;
    }
    let n: usize = a.len();
    let mut i: usize = 0;
    while i < n
        invariant
            i <= n,
            n == a@.len(),
            n == b@.len(),
            forall|j: int| 0 <= j < i ==> (#[trigger] a@[j])@ == b@[j]@,
        decreases n - i,
    {
        if a[i] != b[i] {
            assert(block_max_wand::texts(a@)[i as int] != block_max_wand::texts(b@)[i as int]);
            return false;
        }
        i += 1;
    }
    assert(block_max_wand::texts(a@) =~= block_max_wand::texts(b@));
    true
}

impl Watcher {
    /// A watcher that has not built anything yet.
    pub fn new(
        opts: WatchOpts,
        pid: u32,
        root: String,
        index_dir: String,
        leases: Vec<String>,
        now_secs: u64,
        now_ms: u64,
    ) -> (w: Watcher)
        ensures
            w.opts == opts,
            w.status.pid == pid,
            w.status.root == root,
            w.status.index_dir == index_dir,
            w.status.since == now_secs,
            w.status.state == WatchState::Starting,
            w.status.leased == opts.leased,
            w.status.embed == opts.embed,
            w.status.rebuilds == 0,
            w.status.last_rebuild == 0,
            w.status.last_rebuild_ms == 0,
            w.status.last_error is None,
            w.status.leases == leases,
            w.status.events == 0,
            !w.status.encoder_loaded,
            w.last_activity == now_ms,
            w.last_lease_check == now_ms,
            w.leaseless_since is None,
    {
        let status = Status {
            pid,
            root,
            index_dir,
            since: now_secs,
            state: WatchState::Starting,
            leased: opts.leased,
            embed: opts.embed,
            rebuilds: 0,
            last_rebuild: 0,
            last_rebuild_ms: 0,
            last_error: None,
            leases,
            events: 0,
            encoder_loaded: false,
        };
        Watcher {
            opts,
            status,
            last_activity: now_ms,
            last_lease_check: now_ms,
            leaseless_since: None,
        }
    }

    /// The first build is over: the clocks start now.
    pub fn begin(&mut self, now_ms: u64)
        ensures
            *final(self) == (Watcher {
                last_activity: now_ms,
                last_lease_check: now_ms,
                ..*old(self)
            }),
    {
        self.last_activity = now_ms;
        self.last_lease_check = now_ms;
    }

    /// A rebuild is about to begin.
    pub fn announce(&mut self)
        ensures
            *final(self) == (Watcher {
                status: Status { state: WatchState::Indexing, ..old(self).status },
                ..*old(self)
            }),
    {
        self.status.state = WatchState::Indexing;
    }

    /// A rebuild ended: after `took_ms`, or with an error. The time counts as
    /// activity.
    pub fn rebuilt(
        &mut self,
        result: Result<u64, String>,
        events: u64,
        encoder_loaded: bool,
        now_secs: u64,
        now_ms: u64,
    )
        requires
            old(self).status.rebuilds < u64::MAX,
        ensures
            final(self).opts == old(self).opts,
            final(self).last_activity == now_ms,
            final(self).last_lease_check == old(self).last_lease_check,
            final(self).leaseless_since == old(self).leaseless_since,
            match result {
                Ok(took_ms) => final(self).status == (Status {
                    state: WatchState::Idle,
                    rebuilds: (old(self).status.rebuilds + 1) as u64,
                    last_rebuild: now_secs,
                    last_rebuild_ms: took_ms,
                    last_error: None,
                    events,
                    encoder_loaded,
                    ..old(self).status
                }),
                Err(e) => final(self).status == (Status {
                    state: WatchState::Idle,
                    last_error: Some(e),
                    events,
                    encoder_loaded,
                    ..old(self).status
                }),
            },
    {
        match result {
            Ok(took_ms) => {
                self.status.rebuilds = self.status.rebuilds + 1;
                self.status.last_rebuild = now_secs;
                self.status.last_rebuild_ms = took_ms;
                self.status.last_error = None;
            },
            Err(e) => {
                self.status.last_error = Some(e);
            },
        }
        self.status.state = WatchState::Idle;
        self.status.events = events;
        self.status.encoder_loaded = encoder_loaded;
        self.last_activity = now_ms;
    }

    /// What to do now: stop when asked to, rebuild when the tree changed, look
    /// at the leases every now and then.
    pub fn next(&mut self, stop: bool, dirty: bool, now_ms: u64) -> (step: Step)
        ensures
            step == if stop {
                Step::Exit(ExitReason::StopSignal)
            } else if dirty {
                Step::Reindex
            } else if due(old(self).last_lease_check, LEASE_CHECK_MS as nat, now_ms) {
                Step::CheckLeases
            } else {
                Step::Sleep
            },
            final(self).opts == old(self).opts,
            final(self).last_activity == old(self).last_activity,
            final(self).leaseless_since == old(self).leaseless_since,
            final(self).last_lease_check == if step == Step::CheckLeases {
                now_ms
            } else {
                old(self).last_lease_check
            },
            final(self).status == if step == Step::Reindex {
                Status { state: WatchState::Indexing, ..old(self).status }
            } else {
                old(self).status
            },
    {
        if stop {
            return Step::Exit(ExitReason::StopSignal);
        }
        if dirty {
            self.status.state = WatchState::Indexing;
            return Step::Reindex;
        }
        if is_due(self.last_lease_check, LEASE_CHECK_MS as u128, now_ms) {
            self.last_lease_check = now_ms;
            return Step::CheckLeases;
        }
        Step::Sleep
    }

    /// The burst of events is over when none came during a quiet period.
    pub fn settled(before: u64, after: u64) -> (r: bool)
        ensures
            r == (before == after),
    {
        before == after
    }

    /// Take in the live leases.
    pub fn leases_checked(&mut self, live: Vec<String>, encoder_loaded: bool, now_ms: u64) -> (step:
        LeaseStep)
        ensures
            step.changed == (block_max_wand::texts(live@) != block_max_wand::texts(
                old(self).status.leases@,
            )),
            step.exit == must_exit(
                old(self).leaseless_since,
                old(self).opts,
                live@.len() == 0,
                now_ms,
            ),
            step.unload == (!step.exit && encoder_loaded && due(
                old(self).last_activity,
                old(self).opts.unload_secs as nat * 1000,
                now_ms,
            )),
            final(self).opts == old(self).opts,
            final(self).last_activity == old(self).last_activity,
            final(self).last_lease_check == old(self).last_lease_check,
            final(self).leaseless_since == leaseless(
                old(self).leaseless_since,
                old(self).opts,
                live@.len() == 0,
                now_ms,
            ),
            block_max_wand::texts(final(self).status.leases@) == block_max_wand::texts(live@),
            final(self).status == (Status {
                leases: final(self).status.leases,
                encoder_loaded: if step.unload {
                    false
                } else {
                    old(self).status.encoder_loaded
                },
                ..old(self).status
            }),
    {
        let none_left: bool = live.len() == 0;
        let changed: bool = !same_texts(&live, &self.status.leases);
        if changed {
            self.status.leases = live;
        }
        let mut exit: bool = false;
        if self.opts.leased {
            if none_left {
                let since: u64 = match self.leaseless_since {
                    Some(t) => t,
                    None => now_ms,
                };
                self.leaseless_since = Some(since);
                exit = is_due(since, self.opts.grace_secs as u128 * 1000, now_ms);
            } else {
                self.leaseless_since = None;
            }
        }
        let idle: bool = is_due(
            self.last_activity,
            self.opts.unload_secs as u128 * 1000,
            now_ms,
        );
        let unload: bool = !exit && encoder_loaded && idle;
        if unload {
            self.status.encoder_loaded = false;
        }
        LeaseStep { changed, exit, unload }
    }
}

/// The leases as seen by a series of looks at them: when each look was, and
/// whether any lease was left.
pub open spec fn leaseless_after(
    opts: WatchOpts,
    looks: Seq<(u64, bool)>,
    n: int,
) -> Option<u64>
    decreases n,
{
    if n <= 0 {
        None
    } else {
        leaseless(leaseless_after(opts, looks, n - 1), opts, looks[n - 1].1, looks[n - 1].0)
    }
}

/// A session keeps the watcher alive: it ends only after a look that found no
/// lease, when all looks of at least the grace period before it found none
/// either. One that no session leased does not end by itself.
pub proof fn law_leases_keep_the_watcher(opts: WatchOpts, looks: Seq<(u64, bool)>, n: int)
    requires
        0 < n <= looks.len(),
        must_exit(
            leaseless_after(opts, looks, n - 1),
            opts,
            looks[n - 1].1,
            looks[n - 1].0,
        ),
    ensures
        opts.leased,
        exists|first: int|
            0 <= first < n && looks[n - 1].0 - (#[trigger] looks[first]).0 >= opts.grace_secs * 1000
                && forall|j: int| first <= j < n ==> (#[trigger] looks[j]).1,
{
    lemma_leaseless_run(opts, looks, n);
    let since = leaseless_after(opts, looks, n)->Some_0;
    let first = choose|first: int|
        0 <= first < n && (#[trigger] looks[first]).0 == since && forall|j: int|
            first <= j < n ==> (#[trigger] looks[j]).1;
    assert(looks[n - 1].0 - looks[first].0 >= opts.grace_secs * 1000);
}

proof fn lemma_leaseless_run(opts: WatchOpts, looks: Seq<(u64, bool)>, n: int)
    requires
        0 <= n <= looks.len(),
    ensures
        leaseless_after(opts, looks, n) matches Some(since) ==> exists|first: int|
            0 <= first < n && (#[trigger] looks[first]).0 == since && forall|j: int|
                first <= j < n ==> (#[trigger] looks[j]).1,
    decreases n,
{
    if n > 0 {
        lemma_leaseless_run(opts, looks, n - 1);
        if let Some(since) = leaseless_after(opts, looks, n) {
            if let Some(earlier) = leaseless_after(opts, looks, n - 1) {
                let first = choose|first: int|
                    0 <= first < n - 1 && (#[trigger] looks[first]).0 == earlier && forall|j: int|
                        first <= j < n - 1 ==> (#[trigger] looks[j]).1;
                assert(looks[first].0 == since);
                assert(opts.leased ==> looks[n - 1].1);
                if !opts.leased {
                    lemma_unleased(opts, looks, n);
                }
            } else {
                assert(looks[n - 1].0 == since);
            }
        }
    }
}

proof fn lemma_unleased(opts: WatchOpts, looks: Seq<(u64, bool)>, n: int)
    requires
        !opts.leased,
    ensures
        leaseless_after(opts, looks, n) is None,
    decreases n,
{
    if n > 0 {
        lemma_unleased(opts, looks, n - 1);
    }
}

proof fn lemma_leases_that(leases: Seq<Lease>, alive: Seq<bool>, live: bool, n: int, i: usize)
    requires
        0 <= n <= leases.len() <= usize::MAX,
    ensures
        leases_that(leases, alive, live, n).contains(i) <==> i < n && (leases[i as int].pid == 0
            || alive[i as int]) == live,
        forall|a: int, b: int|
            0 <= a < b < leases_that(leases, alive, live, n).len() ==> #[trigger] leases_that(
                leases,
                alive,
                live,
                n,
            )[a] < #[trigger] leases_that(leases, alive, live, n)[b],
        forall|a: int|
            0 <= a < leases_that(leases, alive, live, n).len() ==> (#[trigger] leases_that(
                leases,
                alive,
                live,
                n,
            )[a]) < n,
    decreases n,
{
    if n > 0 {
        lemma_leases_that(leases, alive, live, n - 1, i);
        let front = leases_that(leases, alive, live, n - 1);
        let all = leases_that(leases, alive, live, n);
        if front.contains(i) {
            let q = choose|q: int| 0 <= q < front.len() && front[q] == i;
            assert(all[q] == i);
        }
        if all.contains(i) {
            let q = choose|q: int| 0 <= q < all.len() && all[q] == i;
            if q < front.len() {
                assert(front[q] == i);
            }
        }
        if i == n - 1 && is_live(leases[n - 1], alive[n - 1]) == live {
            assert(all[front.len() as int] == i);
        }
    }
}

/// A lease is live if it names no process or its process runs, and is to be
/// deleted otherwise; each is listed once, in order.
pub proof fn law_live_leases(leases: Seq<Lease>, alive: Seq<bool>, i: usize)
    requires
        i < leases.len() <= usize::MAX,
    ensures
        ({
            let live = leases_that(leases, alive, true, leases.len() as int);
            let gone = leases_that(leases, alive, false, leases.len() as int);
            &&& live.contains(i) <==> leases[i as int].pid == 0 || alive[i as int]
            &&& gone.contains(i) <==> !(leases[i as int].pid == 0 || alive[i as int])
            &&& forall|a: int, b: int|
                0 <= a < b < live.len() ==> #[trigger] live[a] < #[trigger] live[b]
            &&& forall|a: int, b: int|
                0 <= a < b < gone.len() ==> #[trigger] gone[a] < #[trigger] gone[b]
        }),
{
    lemma_leases_that(leases, alive, true, leases.len() as int, i);
    lemma_leases_that(leases, alive, false, leases.len() as int, i);
}

/// A leased watcher does end: at a look that finds no lease, once the looks
/// have found none for the grace period.
pub proof fn law_abandoned_watcher_ends(
    opts: WatchOpts,
    looks: Seq<(u64, bool)>,
    first: int,
    n: int,
)
    requires
        opts.leased,
        0 <= first < n <= looks.len(),
        forall|i: int, j: int| 0 <= i < j < n ==> (#[trigger] looks[i]).0 <= (#[trigger] looks[j]).0,
        forall|j: int| first <= j < n ==> (#[trigger] looks[j]).1,
        looks[n - 1].0 - looks[first].0 >= opts.grace_secs * 1000,
    ensures
        must_exit(leaseless_after(opts, looks, n - 1), opts, looks[n - 1].1, looks[n - 1].0),
{
    lemma_leaseless_since(opts, looks, first, n);
    assert(looks[n - 1].1);
    assert(leaseless_after(opts, looks, n) == leaseless(
        leaseless_after(opts, looks, n - 1),
        opts,
        looks[n - 1].1,
        looks[n - 1].0,
    ));
    let since = leaseless_after(opts, looks, n)->Some_0;
    assert(since <= looks[n - 1].0) by {
        if first < n - 1 {
            assert(looks[first].0 <= looks[n - 1].0);
        }
    }
}

proof fn lemma_leaseless_since(opts: WatchOpts, looks: Seq<(u64, bool)>, first: int, n: int)
    requires
        opts.leased,
        0 <= first < n <= looks.len(),
        forall|i: int, j: int| 0 <= i < j < n ==> (#[trigger] looks[i]).0 <= (#[trigger] looks[j]).0,
        forall|j: int| first <= j < n ==> (#[trigger] looks[j]).1,
    ensures
        leaseless_after(opts, looks, n) matches Some(since) && since <= looks[first].0,
    decreases n,
{
    assert(looks[n - 1].1);
    if first < n - 1 {
        lemma_leaseless_since(opts, looks, first, n - 1);
    } else {
        lemma_leaseless_run(opts, looks, n - 1);
        if let Some(earlier) = leaseless_after(opts, looks, n - 1) {
            let q = choose|q: int|
                0 <= q < n - 1 && (#[trigger] looks[q]).0 == earlier && forall|j: int|
                    q <= j < n - 1 ==> (#[trigger] looks[j]).1;
            assert(looks[q].0 <= looks[n - 1].0);
        }
    }
}

/// The time of day is shown as hours, minutes and seconds.
pub proof fn law_clock(days: nat, h: nat, m: nat, s: nat)
    requires
        h < 24,
        m < 60,
        s < 60,
    ensures
        clock_text(86400 * days + 3600 * h + 60 * m + s) == text::two_digits(h) + seq![':']
            + text::two_digits(m) + seq![':'] + text::two_digits(s) + seq!['Z'],
{
    let t = 86400 * days + 3600 * h + 60 * m + s;
    assert(t / 3600 == 24 * days + h);
    assert(t / 60 == 1440 * days + 60 * h + m);
}

/// Letters, digits and `-_.` of a session's name are kept in the name of its
/// lease; anything else becomes `_`.
pub proof fn law_lease_names(session: Seq<char>, i: int)
    requires
        0 <= i < session.len(),
    ensures
        lease_name(session).len() == session.len() + 5,
        text::ends(lease_name(session), ".json"@),
        '0' <= session[i] <= '9' || 'A' <= session[i] <= 'Z' || 'a' <= session[i] <= 'z' || session[i]
            == '-' || session[i] == '_' || session[i] == '.' ==> lease_name(session)[i]
            == session[i],
        !('0' <= session[i] <= '9' || 'A' <= session[i] <= 'Z' || 'a' <= session[i] <= 'z'
            || session[i] == '-' || session[i] == '_' || session[i] == '.') ==> lease_name(session)[i]
            == '_',
{
    reveal_strlit(".json");
    let name = lease_name(session);
    assert(name.skip(name.len() - 5) =~= ".json"@);
}

} // verus!
